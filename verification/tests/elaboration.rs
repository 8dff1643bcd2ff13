use kessetsu::ast::{
    ComponentDecl, ComponentType, Connection, ModuleDef, NetDecl, ParameterOverride, PinRef, Program, SimulateStmt,
    Statement, UseStmt,
};
use kessetsu::expression::{parse_expression, ParameterDecl};
use kessetsu::ir::SIUnit;

fn param(name: &str, unit: SIUnit, formula: &str) -> Statement {
    Statement::Param(ParameterDecl {
        name: name.to_string(),
        unit,
        expression: parse_expression(formula).unwrap(),
        line: 2,
        column: 5,
        instance_path: vec![],
        default_expression: None,
    })
}

fn resistor(name: &str, formula: &str) -> Statement {
    Statement::Decl(ComponentDecl {
        comp_type: ComponentType::Resistor,
        name: name.to_string(),
        subtype: None,
        value: Some(formula.to_string()),
        value_expression: Some(parse_expression(formula).unwrap()),
        waveform_expression: None,
        interface_pins: vec![],
        instance_path: vec![],
    })
}

fn connect(pins: &[(&str, &str)]) -> Statement {
    Statement::Connect(Connection {
        pins: pins.iter().map(|(c, p)| PinRef { component: c.to_string(), pin: p.to_string() }).collect(),
    })
}

fn net(name: &str) -> Statement {
    Statement::Net(NetDecl { name: name.to_string() })
}

fn instance(module: &str, name: &str, overrides: Vec<(&str, &str)>) -> Statement {
    Statement::Use(UseStmt {
        module_name: module.to_string(),
        inst_name: name.to_string(),
        overrides: overrides
            .into_iter()
            .map(|(n, f)| ParameterOverride {
                name: n.to_string(),
                expression: parse_expression(f).unwrap(),
                line: 3,
                column: 7,
            })
            .collect(),
    })
}

fn module(name: &str, pins: &[&str], statements: Vec<Statement>) -> ModuleDef {
    ModuleDef { name: name.to_string(), pins: pins.iter().map(|p| p.to_string()).collect(), statements }
}

fn program(modules: Vec<ModuleDef>, statements: Vec<Statement>) -> Program {
    Program {
        modules,
        model_includes: vec![],
        models: vec![],
        subcircuits: vec![],
        external_subcircuits: vec![],
        statements,
    }
}

fn divider() -> ModuleDef {
    module(
        "divider",
        &["in", "out"],
        vec![
            param("R", SIUnit::Ohm, "1k"),
            resistor("R1", "R"),
            net("mid"),
            connect(&[("", "in"), ("R1", "p1")]),
            connect(&[("R1", "p2"), ("", "mid")]),
            connect(&[("", "mid"), ("", "out")]),
        ],
    )
}

fn pins_of(s: &Statement) -> Vec<(String, String)> {
    match s {
        Statement::Connect(c) => c.pins.iter().map(|p| (p.component.clone(), p.pin.clone())).collect(),
        _ => panic!("not a connection"),
    }
}

fn pair(c: &str, p: &str) -> (String, String) {
    (c.to_string(), p.to_string())
}

fn flatten_error(p: &Program) -> String {
    p.flatten().unwrap_err()
}

#[test]
fn instances_are_prefixed_and_ports_bound() {
    let p = program(
        vec![divider()],
        vec![param("Rbase", SIUnit::Ohm, "2k"), instance("divider", "X1", vec![("R", "2 * Rbase")])],
    );
    let out = p.flatten().unwrap();
    assert!(out.modules.is_empty());
    let s = &out.statements;
    assert_eq!(s.len(), 8);
    match &s[1] {
        Statement::Decl(d) => {
            assert_eq!(d.comp_type, ComponentType::ModulePort);
            assert_eq!(d.name, "X1");
            assert_eq!(d.value, Some("divider".to_string()));
            assert_eq!(d.interface_pins, vec!["in".to_string(), "out".to_string()]);
            assert_eq!(d.instance_path, vec!["X1".to_string()]);
        }
        _ => panic!("instance port expected"),
    }
    match &s[2] {
        Statement::Param(q) => {
            assert_eq!(q.name, "X1.R");
            assert_eq!(q.expression.source(), "2 * Rbase");
            assert_eq!(q.expression.dependencies(), vec!["Rbase".to_string()]);
            assert_eq!(q.default_expression, Some("1k".to_string()));
            assert_eq!(q.instance_path, vec!["X1".to_string()]);
        }
        _ => panic!("parameter expected"),
    }
    match &s[3] {
        Statement::Decl(d) => {
            assert_eq!(d.name, "X1_R1");
            assert_eq!(d.value_expression.as_ref().unwrap().dependencies(), vec!["X1.R".to_string()]);
        }
        _ => panic!("resistor expected"),
    }
    match &s[4] {
        Statement::Net(n) => assert_eq!(n.name, "X1_mid"),
        _ => panic!("net expected"),
    }
    assert_eq!(pins_of(&s[5]), vec![pair("X1", "in"), pair("X1_R1", "p1")]);
    assert_eq!(pins_of(&s[6]), vec![pair("X1_R1", "p2"), pair("", "X1_mid")]);
    assert_eq!(pins_of(&s[7]), vec![pair("", "X1_mid"), pair("X1", "out")]);
}

#[test]
fn default_parameters_are_qualified_in_their_instance() {
    let p = program(vec![divider()], vec![instance("divider", "X2", vec![])]);
    let out = p.flatten().unwrap();
    match &out.statements[1] {
        Statement::Param(q) => {
            assert_eq!(q.name, "X2.R");
            assert_eq!(q.default_expression, None);
            assert_eq!(q.expression.source(), "1k");
        }
        _ => panic!("parameter expected"),
    }
}

#[test]
fn nested_instances_join_their_paths() {
    let outer = module("outer", &["a"], vec![instance("divider", "D", vec![]), connect(&[("", "a"), ("D", "in")])]);
    let p = program(vec![divider(), outer], vec![instance("outer", "U", vec![])]);
    let out = p.flatten().unwrap();
    match &out.statements[1] {
        Statement::Decl(d) => {
            assert_eq!(d.name, "U_D");
            assert_eq!(d.instance_path, vec!["U".to_string(), "D".to_string()]);
        }
        _ => panic!("instance port expected"),
    }
    match &out.statements[2] {
        Statement::Param(q) => assert_eq!(q.name, "U.D.R"),
        _ => panic!("parameter expected"),
    }
    assert_eq!(pins_of(&out.statements[5]), vec![pair("U_D", "in"), pair("U_D_R1", "p1")]);
    assert_eq!(pins_of(out.statements.last().unwrap()), vec![pair("U", "a"), pair("U_D", "in")]);
}

#[test]
fn a_program_without_modules_is_unchanged() {
    let p = program(
        vec![],
        vec![param("R", SIUnit::Ohm, "1k"), resistor("R1", "R"), net("gnd"), connect(&[("R1", "p1"), ("", "gnd")])],
    );
    let out = p.flatten().unwrap();
    assert_eq!(format!("{:?}", out.statements), format!("{:?}", p.statements));
}

#[test]
fn instance_errors() {
    let p = program(vec![divider()], vec![instance("nope", "X1", vec![])]);
    assert_eq!(flatten_error(&p), "Module not found: nope");

    let p = program(vec![divider()], vec![instance("divider", "X1", vec![("Q", "1")])]);
    assert_eq!(flatten_error(&p), "Instance 'X1': unknown override 'Q' at 3:7");

    let p = program(vec![divider()], vec![instance("divider", "X1", vec![("R", "1k"), ("R", "2k")])]);
    assert_eq!(flatten_error(&p), "Instance 'X1': duplicate override 'R'");

    let p = program(vec![divider()], vec![instance("divider", "X1", vec![("R", "5V")])]);
    assert_eq!(flatten_error(&p), "Instance 'X1', override 'R' at 3:7: Expected Ohm, got V");

    let leaky = module("leaky", &["a"], vec![connect(&[("", "zz")])]);
    let p = program(vec![leaky], vec![instance("leaky", "L1", vec![])]);
    assert_eq!(flatten_error(&p), "Instance 'L1': undeclared module port or net 'zz'");

    let p = program(vec![divider()], vec![resistor("X1_R1", "1k"), instance("divider", "X1", vec![])]);
    assert_eq!(
        flatten_error(&p),
        "Flattened identifier collision 'X1_R1' between instance paths [] and [\"X1\"]"
    );

    let probe = module(
        "probe",
        &[],
        vec![
            param("T", SIUnit::Second, "1m"),
            Statement::Simulate(SimulateStmt { cmd: "tran".to_string(), args: vec![], numeric_expressions: vec![] }),
        ],
    );
    let p = program(vec![probe], vec![instance("probe", "P", vec![])]);
    assert_eq!(
        flatten_error(&p),
        "Instance 'P': put analyses and assertions at the circuit root; parameterized module analysis/assertion contexts are not supported yet"
    );
}

#[test]
fn module_definition_errors() {
    let looped = module("A", &[], vec![instance("A", "self", vec![])]);
    let p = program(vec![looped], vec![instance("A", "X", vec![])]);
    assert_eq!(flatten_error(&p), "Recursive module or module nesting limit exceeded: A");

    let p = program(vec![divider(), divider()], vec![]);
    assert_eq!(flatten_error(&p), "Duplicate module definition: divider");

    let p = program(vec![module("twice", &["a", "a"], vec![])], vec![]);
    assert_eq!(flatten_error(&p), "Module 'twice': duplicate interface port");

    let p = program(vec![module("circle", &[], vec![param("pi", SIUnit::Ratio, "3")])], vec![]);
    assert_eq!(
        flatten_error(&p),
        "Module 'circle': duplicate/reserved parameter or parameter count limit exceeded"
    );

    let p = program(vec![module("bad", &[], vec![param("R", SIUnit::Ohm, "Q * 2")])], vec![]);
    assert_eq!(flatten_error(&p), "Module 'bad', parameter 'R' at 2:5: Unknown parameter 'Q'");
}
