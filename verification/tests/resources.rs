use kessetsu::ast::{ExternalSubcircuitDecl, ModelDecl, ModelDeclKind, ModelInclude, NamedValue, Program};
use kessetsu::model_resources::{
    library_statements, resource_requirements, validate_browser_library, validate_resource_bindings,
};
use kessetsu::models::{
    compile_external_subcircuit, resolve_package, resolve_program_models, resolve_program_models_with_resources,
    split_metadata, validate_external_subcircuit_text, ExternalModelResources, UserReadings, ValueReading,
};
use sha2::{Digest, Sha256};

fn strings(v: &[&str]) -> Vec<String> {
    v.iter().map(|s| s.to_string()).collect()
}

fn named(pairs: &[(&str, &str)]) -> Vec<NamedValue> {
    pairs.iter().map(|(n, v)| NamedValue { name: n.to_string(), value: v.to_string() }).collect()
}

fn hex(bytes: &[u8]) -> String {
    format!("{:x}", Sha256::digest(bytes))
}

fn no_readings() -> UserReadings {
    UserReadings { models: vec![], subcircuits: vec![], poles: vec![] }
}

fn empty_program() -> Program {
    Program {
        modules: vec![],
        model_includes: vec![],
        models: vec![],
        subcircuits: vec![],
        external_subcircuits: vec![],
        statements: vec![],
    }
}

const COMPARATOR_LIB: &str = "* vendor comparator\n.subckt CMP in_p in_n vcc vee out params: hyst=1m\nR1 in_p in_n 1meg\nE1 out 0 in_p in_n 1e5\n.ends CMP\n";

fn comparator(fields: &[(&str, &str)]) -> ExternalSubcircuitDecl {
    ExternalSubcircuitDecl {
        kind: "comparator".to_string(),
        name: "U1".to_string(),
        pins: strings(&["in_p", "in_n", "vcc", "vee", "out"]),
        parameters: named(fields),
    }
}

fn comparator_fields(hash: &str) -> Vec<(String, String)> {
    vec![
        ("file".to_string(), "models/cmp.lib".to_string()),
        ("Entry".to_string(), "CMP".to_string()),
        ("sha256".to_string(), hash.to_string()),
        ("version".to_string(), "2.1".to_string()),
        ("license".to_string(), "MIT".to_string()),
        ("source".to_string(), "vendor".to_string()),
        ("simulator".to_string(), "NGSPICE".to_string()),
        ("redistribution".to_string(), "permitted".to_string()),
    ]
}

fn as_refs(v: &[(String, String)]) -> Vec<(&str, &str)> {
    v.iter().map(|(a, b)| (a.as_str(), b.as_str())).collect()
}

#[test]
fn library_statements_join_continuations_and_drop_comments() {
    let text = "\u{feff}* header\r\n.subckt A 1 2\r\n+ 3   4 \r\n\r\nR1 1 2 1k\n.ends A";
    assert_eq!(library_statements(text).unwrap(), strings(&[".subckt A 1 2 3   4", "R1 1 2 1k", ".ends A"]));
    assert_eq!(library_statements("").unwrap(), Vec::<String>::new());
    assert_eq!(library_statements("+ 1 2").unwrap_err(), "Model continuation has no preceding statement");
    assert_eq!(library_statements("R1 1\u{7} 2").unwrap_err(), "Model library contains control characters");
    let long = format!("R1 {}", "1".repeat(32768));
    assert_eq!(library_statements(&long).unwrap_err(), "Model library exceeds statement/line bounds");
    let joined = format!("R1 {}\n+ 2", "1".repeat(32763));
    assert_eq!(library_statements(&joined).unwrap_err(), "Model logical statement exceeds 32 KiB");
}

#[test]
fn resource_bindings_are_ordered_and_bounded() {
    let mut r = ExternalModelResources::new();
    r.insert("b.lib".to_string(), vec![1, 2]);
    r.insert("a.lib".to_string(), vec![3]);
    r.insert("b.lib".to_string(), vec![4, 5, 6]);
    assert_eq!(r.len(), 2);
    assert_eq!(r.entry(0).0, "a.lib");
    assert_eq!(r.get("b.lib"), Some(&vec![4, 5, 6]));
    assert_eq!(r.get("c.lib"), None);
    assert!(validate_resource_bindings(&r).is_ok());

    let mut bad = ExternalModelResources::new();
    bad.insert("../up.lib".to_string(), vec![]);
    assert_eq!(
        validate_resource_bindings(&bad).unwrap_err(),
        "file must be a source-relative forward-slash path without traversal or control characters"
    );

    let mut big = ExternalModelResources::new();
    big.insert("big.lib".to_string(), vec![0; 16 * 1024 * 1024 + 1]);
    assert_eq!(validate_resource_bindings(&big).unwrap_err(), "'big.lib' exceeds the 16 MiB model limit");

    let mut many = ExternalModelResources::new();
    for name in ["a.lib", "b.lib", "c.lib"] {
        many.insert(name.to_string(), vec![0; 12 * 1024 * 1024]);
    }
    assert_eq!(validate_resource_bindings(&many).unwrap_err(), "Local model resources exceed the 32 MiB combined limit");

    let mut crowded = ExternalModelResources::new();
    for i in 0..65 {
        crowded.insert(format!("m{i:02}.lib"), vec![]);
    }
    assert_eq!(validate_resource_bindings(&crowded).unwrap_err(), "At most 64 local model resources may be bound");
}

#[test]
fn browser_library_accepts_self_contained_subcircuits() {
    let text = ".subckt AMP in out\nR1 in out 1k\nXB in out BUF\n.model D1 D(is=1n)\n.ends AMP\n.subckt BUF a b\nR2 a b 1k\n.ends buf\n";
    assert!(validate_browser_library(text).is_ok());
}

#[test]
fn browser_library_refusals() {
    let refuse = |text: &str| validate_browser_library(text).unwrap_err();
    assert_eq!(refuse(".include other.lib"), "Browser models cannot load files, libraries, controls or compiled plug-ins");
    assert_eq!(refuse(".subckt A 1 2\nR1 profile 2 3\n.ends A"), "Browser models cannot load files, libraries, controls or compiled plug-ins");
    assert_eq!(refuse("R1 1 2 3"), "Browser model devices must be inside a subcircuit");
    assert_eq!(refuse(".subckt A 1 2\nZ1 1 2 3\n.ends A"), "Browser model element family is unsupported");
    assert_eq!(refuse(".subckt A 1 2\nR1 1 2\n.ends A"), "Malformed browser model card");
    assert_eq!(refuse(".subckt A 1 2\n.ends B"), "Mismatched .ENDS in browser library");
    assert_eq!(refuse(".ends A"), "Unmatched .ENDS in browser library");
    assert_eq!(refuse(".subckt A 1 2\n.model Q1 NJF\n.ends A"), "Browser model type is not supported");
    assert_eq!(refuse(".subckt A 1 2\n.tran 1n 1u\n.ends A"), "Browser model directive is not supported; use the native CLI");
    assert_eq!(refuse(".subckt A 1 2\n.ends A\n.subckt a 1 2\n.ends a"), "Duplicate subcircuit entry in browser library");
    assert_eq!(refuse(""), "Browser library requires complete subcircuit definitions");
    assert_eq!(refuse(".subckt A 1 2\nR1 1 2 1k"), "Browser library requires complete subcircuit definitions");
    assert_eq!(
        refuse(".subckt A 1 2\nX1 1 2 missing\n.ends A"),
        "Browser subcircuit dependency is unresolved or uses unsupported instance parameters"
    );
    assert_eq!(refuse(".subckt A 1 2\nX1 1 2 A\n.ends A"), "Recursive browser subcircuit dependency");
    assert_eq!(refuse("+ 1"), "Model continuation has no preceding statement");
}

fn chain(n: usize) -> String {
    let mut text = String::new();
    for i in 0..n {
        text.push_str(&format!(".subckt s{i:03} a b\n"));
        if i + 1 < n {
            text.push_str(&format!("X1 a b s{:03}\n", i + 1));
        } else {
            text.push_str("R1 a b 1k\n");
        }
        text.push_str(".ends\n");
    }
    text
}

#[test]
fn browser_library_instance_chains_stop_at_depth_64() {
    assert!(validate_browser_library(&chain(65)).is_ok());
    assert_eq!(validate_browser_library(&chain(66)).unwrap_err(), "Browser subcircuit dependency depth exceeds 64");
}

#[test]
fn requirements_come_from_external_declarations() {
    let mut p = empty_program();
    p.external_subcircuits.push(ExternalSubcircuitDecl {
        kind: "opamp".to_string(),
        name: "U7".to_string(),
        pins: vec![],
        parameters: named(&[("FILE", "lib/op.lib"), ("sha256", "abc"), ("Simulator", "ngspice")]),
    });
    let req = resource_requirements(&p).unwrap();
    assert_eq!(req.len(), 1);
    assert_eq!(
        (req[0].model.as_str(), req[0].resource.as_str(), req[0].sha256.as_str(), req[0].simulator.as_str()),
        ("U7", "lib/op.lib", "abc", "ngspice")
    );
    p.external_subcircuits[0].parameters.remove(1);
    assert_eq!(resource_requirements(&p).unwrap_err(), "U7 requires sha256");
    p.external_subcircuits[0].parameters[0].value = "/abs.lib".to_string();
    assert_eq!(
        resource_requirements(&p).unwrap_err(),
        "file must be a source-relative forward-slash path without traversal or control characters"
    );
}

#[test]
fn external_library_text_checks() {
    let ok = ".subckt OPX a b c d e params: gain=1\nR1 a b 1k\n.ends OPX";
    assert!(validate_external_subcircuit_text(ok, "opx", 5, "U1").is_ok());
    let d = validate_external_subcircuit_text(ok, "opx", 3, "U1").unwrap_err();
    assert_eq!(d.code, "KES-C012");
    assert_eq!(d.message, "external subcircuit 'opx' declares 5 positional terminals; expected 3");
    assert_eq!(d.component.as_deref(), Some("U1"));
    assert_eq!(d.field.as_deref(), Some("pins"));
    let d = validate_external_subcircuit_text(".control\nrun\n.endc", "opx", 5, "U1").unwrap_err();
    assert_eq!((d.code.as_str(), d.field.as_deref()), ("KES-C017", Some("file")));
    let d = validate_external_subcircuit_text(".subckt OTHER a\n.ends", "opx", 5, "U1").unwrap_err();
    assert_eq!(d.message, "external model must contain exactly one '.SUBCKT opx' and one matching '.ENDS opx'");
    let d = validate_external_subcircuit_text(".ends X", "opx", 5, "U1").unwrap_err();
    assert_eq!(d.message, "external library has an unmatched or mismatched .ENDS");
    assert_eq!(d.field.as_deref(), Some("entry"));
}

#[test]
fn external_subcircuits_compile_against_bound_files() {
    let bytes = COMPARATOR_LIB.as_bytes().to_vec();
    let digest = hex(&bytes);
    let mut files = ExternalModelResources::new();
    files.insert("models/cmp.lib".to_string(), bytes);
    let fields = comparator_fields(&digest.to_uppercase());
    let m = compile_external_subcircuit(&comparator(&as_refs(&fields)), &files).unwrap();
    assert_eq!(m.name, "U1");
    assert_eq!(m.provenance.content_hash, format!("sha256:{digest}"));
    assert_eq!(m.provenance.simulator, "ngspice");
    assert_eq!((m.provenance.version.as_str(), m.provenance.license.as_str()), ("2.1", "MIT"));

    let missing = ExternalModelResources::new();
    let d = compile_external_subcircuit(&comparator(&as_refs(&fields)), &missing).unwrap_err();
    assert_eq!((d.code.as_str(), d.message.as_str()), ("KES-C015", "external model resource 'models/cmp.lib' was not supplied"));

    let wrong = comparator_fields(&"0".repeat(64));
    let d = compile_external_subcircuit(&comparator(&as_refs(&wrong)), &files).unwrap_err();
    assert_eq!(d.code, "KES-C016");
    assert_eq!(
        d.message,
        format!("external model resource 'models/cmp.lib' hash mismatch: expected sha256:{}, got sha256:{digest}", "0".repeat(64))
    );

    let mut extra = fields.clone();
    extra.push(("color".to_string(), "red".to_string()));
    let d = compile_external_subcircuit(&comparator(&as_refs(&extra)), &files).unwrap_err();
    assert_eq!(
        d.message,
        "unsupported external subcircuit field 'color'; allowed fields: file, entry, sha256, version, license, source, simulator, redistribution"
    );
    assert_eq!(d.field.as_deref(), Some("color"));

    let short: Vec<(String, String)> = fields.iter().filter(|(k, _)| k != "license").cloned().collect();
    let d = compile_external_subcircuit(&comparator(&as_refs(&short)), &files).unwrap_err();
    assert_eq!(d.message, "external subcircuit requires license metadata");

    let mut decl = comparator(&as_refs(&fields));
    decl.kind = "relay".to_string();
    let d = compile_external_subcircuit(&decl, &files).unwrap_err();
    assert_eq!(d.message, "unsupported external subcircuit kind 'relay'");

    let mut decl = comparator(&as_refs(&fields));
    decl.pins = strings(&["a", "b"]);
    let d = compile_external_subcircuit(&decl, &files).unwrap_err();
    assert_eq!(
        d.message,
        "external device 'U1' pins [\"a\", \"b\"] must exactly match catalog order [\"in_p\", \"in_n\", \"vcc\", \"vee\", \"out\"]"
    );

    let mut broken = ExternalModelResources::new();
    let bad = vec![0xff, 0xfe];
    broken.insert("models/cmp.lib".to_string(), bad.clone());
    let utf = comparator_fields(&hex(&bad));
    let d = compile_external_subcircuit(&comparator(&as_refs(&utf)), &broken).unwrap_err();
    assert_eq!((d.code.as_str(), d.message.as_str()), ("KES-C017", "external model resource 'models/cmp.lib' is not valid UTF-8"));
}

#[test]
fn packages_and_metadata() {
    let (package, models) = resolve_package("kessetsu_analog", "1.0.0").unwrap();
    assert_eq!((package.name.as_str(), package.version.as_str(), package.license.as_str()), ("kessetsu_analog", "1.0.0", "Apache-2.0"));
    assert_eq!(models.len(), 1);
    assert_eq!(models[0].name, "KESSETSU_PACKAGE_OPAMP");
    let d = resolve_package("kessetsu_analog", "2.0.0").unwrap_err();
    assert_eq!(d.message, "unavailable model package 'kessetsu_analog@2.0.0'; supported package is kessetsu_analog@1.0.0");

    let (meta, rest) = split_metadata(&named(&[("Version", "1.2"), ("is", "1n"), ("license", "MIT")]), "D1").unwrap();
    assert_eq!((meta.version.as_str(), meta.license.as_str(), meta.source.as_str()), ("1.2", "MIT", "user-defined"));
    assert_eq!(rest.len(), 1);
    assert_eq!(rest[0].name, "is");
    let d = split_metadata(&named(&[("version", "1"), ("VERSION", "2")]), "D1").unwrap_err();
    assert_eq!((d.message.as_str(), d.field.as_deref()), ("duplicate metadata field 'VERSION'", Some("VERSION")));
    let d = split_metadata(&named(&[("version", "1")]), "D1").unwrap_err();
    assert_eq!(d.message, "user model/subcircuit requires license metadata");
    let d = split_metadata(&named(&[("version", "1;rm"), ("license", "MIT")]), "D1").unwrap_err();
    assert_eq!(d.message, "unsafe or invalid version metadata '1;rm'");
}

#[test]
fn program_models_resolve_in_order() {
    let mut p = empty_program();
    p.model_includes.push(ModelInclude { package: "Kessetsu_Analog".to_string(), version: "1.0.0".to_string() });
    let lib = resolve_program_models(&p, &no_readings()).unwrap();
    assert!(lib.resolve("kessetsu_package_opamp").is_some());
    assert!(lib.resolve("2n3904").is_some());

    p.model_includes.push(ModelInclude { package: "kessetsu_analog".to_string(), version: "1.0.0".to_string() });
    let d = resolve_program_models(&p, &no_readings()).unwrap_err();
    assert_eq!((d.code.as_str(), d.message.as_str()), ("KES-C013", "duplicate model package include 'kessetsu_analog'"));

    let mut q = empty_program();
    q.models.push(ModelDecl {
        kind: ModelDeclKind::Diode,
        name: "1n4148".to_string(),
        polarity: None,
        parameters: named(&[("version", "1"), ("license", "MIT"), ("is", "1n")]),
    });
    let shadow = UserReadings {
        models: vec![vec![
            Err("metadata".to_string()),
            Err("metadata".to_string()),
            Ok(ValueReading { text: "1e-09".to_string(), positive: true }),
        ]],
        subcircuits: vec![],
        poles: vec![],
    };
    let d = resolve_program_models(&q, &shadow).unwrap_err();
    assert_eq!(d.code, "KES-C013");
    assert_eq!(d.message, "model/subcircuit name '1n4148' is already defined");
    assert_eq!((d.component.as_deref(), d.field.as_deref()), (Some("1n4148"), Some("name")));

    q.models[0].name = "D9".to_string();
    q.models[0].parameters = named(&[("version", "1"), ("license", "MIT")]);
    let empty = UserReadings {
        models: vec![vec![Err("metadata".to_string()), Err("metadata".to_string())]],
        subcircuits: vec![],
        poles: vec![],
    };
    let d = resolve_program_models(&q, &empty).unwrap_err();
    assert_eq!((d.code.as_str(), d.component.as_deref()), ("KES-C010", Some("D9")));
    assert_eq!(d.message, "user model requires at least one typed electrical parameter");
    q.models.clear();

    let bytes = COMPARATOR_LIB.as_bytes().to_vec();
    let digest = hex(&bytes);
    let mut files = ExternalModelResources::new();
    files.insert("models/cmp.lib".to_string(), bytes);
    q.external_subcircuits.push(comparator(&as_refs(&comparator_fields(&digest))));
    let lib = resolve_program_models_with_resources(&q, &files, &no_readings()).unwrap();
    assert_eq!(lib.resolve("u1").unwrap().provenance.content_hash, format!("sha256:{digest}"));
    let d = resolve_program_models(&q, &no_readings()).unwrap_err();
    assert_eq!(d.code, "KES-C015");
}
