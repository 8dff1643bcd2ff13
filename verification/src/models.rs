//! The model registry: built-in, packaged and user models keyed by case-folded
//! name, model/pin agreement, and the rules for external model references.
use crate::component::{component_definition, definition_matches, pin_names, pin_view, PinDefinition};
use crate::ast::ModelDeclKind;
use crate::hashing::{sha256_hex, sha256_hex_spec};
use crate::ir::{
    opt_str_view, opt_view, semantic_error, views, BJTPolarity, ComponentKind, ExternalDeviceFamily,
    ExternalModelMetadata, ExternalParameterDefinition, FETPolarity, ModelDefinition, ModelProvenance,
    ModelManifest, ModelManifestEntry, ModelRef, ModelSource, RedistributionPolicy, ResolvedModelPackage,
    SemanticDiagnostic, SimulatorCompatibility,
};
use crate::text::{
    ascii_lower_char, ascii_upper_char,
    pair_views,
    append_str, chars_of, eq_ignore_case, eq_ignore_case_exec, is_ascii_alnum, is_ascii_alpha, owned,
    text_is, text_lt, to_upper, upper, utf8_len,
};
use vstd::prelude::*;

verus! {

pub const MODEL_MANIFEST_SCHEMA_VERSION: &'static str = "kessetsu.models.v2";

pub const MODEL_LOCK_SCHEMA_VERSION: &'static str = "kessetsu.lock.v2";

pub const SIMULATOR_CAPABILITY: &'static str = "ngspice-35+";

pub const MAX_EXTERNAL_MODEL_BYTES: usize = 16777216;

// ---------------------------------------------------------------------------
// Copies that keep every field.

pub open spec fn same_texts(a: Seq<String>, b: Seq<String>) -> bool {
    views(a) == views(b)
}

pub open spec fn same_metadata(a: ExternalModelMetadata, b: ExternalModelMetadata) -> bool {
    &&& a.resource@ == b.resource@
    &&& a.entry@ == b.entry@
    &&& same_texts(a.pins@, b.pins@)
    &&& a.simulator == b.simulator
    &&& a.redistribution == b.redistribution
    &&& a.instance_parameters@.len() == b.instance_parameters@.len()
    &&& forall|i: int|
        0 <= i < a.instance_parameters@.len() ==> (#[trigger] a.instance_parameters@[i]).name@
            == b.instance_parameters@[i].name@ && a.instance_parameters@[i].unit == b.instance_parameters@[i].unit
}

pub open spec fn same_definition(a: ModelDefinition, b: ModelDefinition) -> bool {
    match (a, b) {
        (ModelDefinition::Device { directive: x }, ModelDefinition::Device { directive: y }) => x@ == y@,
        (
            ModelDefinition::Subcircuit { directive: x, pins: p },
            ModelDefinition::Subcircuit { directive: y, pins: q },
        ) => x@ == y@ && same_texts(p@, q@),
        (
            ModelDefinition::ExternalSubcircuit { metadata: m },
            ModelDefinition::ExternalSubcircuit { metadata: n },
        ) => same_metadata(m, n),
        _ => false,
    }
}

pub open spec fn same_provenance(a: ModelProvenance, b: ModelProvenance) -> bool {
    &&& a.source@ == b.source@
    &&& a.license@ == b.license@
    &&& a.version@ == b.version@
    &&& a.content_hash@ == b.content_hash@
    &&& a.simulator@ == b.simulator@
}

/// Two models that agree in every field.
pub open spec fn same_model(a: ModelRef, b: ModelRef) -> bool {
    &&& a.name@ == b.name@
    &&& a.kind == b.kind
    &&& a.source == b.source
    &&& same_definition(a.definition, b.definition)
    &&& same_provenance(a.provenance, b.provenance)
}

fn copy_texts(v: &Vec<String>) -> (r: Vec<String>)
    ensures
        same_texts(r@, v@),
{
    let mut r: Vec<String> = Vec::new();
    let mut i: usize = 0;
    while i < v.len()
        invariant
            i <= v@.len(),
            r@.len() == i,
            forall|k: int| 0 <= k < i ==> (#[trigger] r@[k])@ == v@[k]@,
        decreases v.len() - i,
    {
        r.push(v[i].clone());
        i = i + 1;
    }
    proof {
        assert(views(r@) =~= views(v@));
    }
    r
}

fn copy_metadata(m: &ExternalModelMetadata) -> (r: ExternalModelMetadata)
    ensures
        same_metadata(r, *m),
{
    let mut params: Vec<ExternalParameterDefinition> = Vec::new();
    let mut i: usize = 0;
    while i < m.instance_parameters.len()
        invariant
            i <= m.instance_parameters@.len(),
            params@.len() == i,
            forall|k: int|
                0 <= k < i ==> (#[trigger] params@[k]).name@ == m.instance_parameters@[k].name@
                    && params@[k].unit == m.instance_parameters@[k].unit,
        decreases m.instance_parameters.len() - i,
    {
        params.push(
            ExternalParameterDefinition {
                name: m.instance_parameters[i].name.clone(),
                unit: m.instance_parameters[i].unit,
            },
        );
        i = i + 1;
    }
    ExternalModelMetadata {
        resource: m.resource.clone(),
        entry: m.entry.clone(),
        pins: copy_texts(&m.pins),
        simulator: m.simulator,
        redistribution: m.redistribution,
        instance_parameters: params,
    }
}

fn copy_definition(d: &ModelDefinition) -> (r: ModelDefinition)
    ensures
        same_definition(r, *d),
{
    match d {
        ModelDefinition::Device { directive } => ModelDefinition::Device { directive: directive.clone() },
        ModelDefinition::Subcircuit { directive, pins } => ModelDefinition::Subcircuit {
            directive: directive.clone(),
            pins: copy_texts(pins),
        },
        ModelDefinition::ExternalSubcircuit { metadata } => ModelDefinition::ExternalSubcircuit {
            metadata: copy_metadata(metadata),
        },
    }
}

pub fn copy_model(m: &ModelRef) -> (r: ModelRef)
    ensures
        same_model(r, *m),
{
    ModelRef {
        name: m.name.clone(),
        kind: m.kind,
        source: m.source,
        definition: copy_definition(&m.definition),
        provenance: ModelProvenance {
            source: m.provenance.source.clone(),
            license: m.provenance.license.clone(),
            version: m.provenance.version.clone(),
            content_hash: m.provenance.content_hash.clone(),
            simulator: m.provenance.simulator.clone(),
        },
    }
}

// ---------------------------------------------------------------------------
// Diagnostics.

/// A model diagnostic about field `field`.
pub open spec fn model_error(
    d: SemanticDiagnostic,
    code: Seq<char>,
    message: Seq<char>,
    component: Option<Seq<char>>,
    field: Seq<char>,
) -> bool {
    d.code@ == code && d.message@ == message && opt_view(d.component) == component && opt_view(d.field)
        == Some(field)
}

fn error(code: &str, message: String, component: Option<&str>, field: &str) -> (d: SemanticDiagnostic)
    ensures
        model_error(d, code@, message@, opt_str_view(component), field@),
{
    semantic_error(code, message, component, Some(field))
}

// ---------------------------------------------------------------------------
// The registry.

#[derive(Debug)]
pub struct ModelLibrary {
    /// Each model under its upper-cased name.
    models: Vec<(String, ModelRef)>,
    packages: Vec<ResolvedModelPackage>,
}

/// The position of the first entry with this key.
pub open spec fn entry_index(m: Seq<(String, ModelRef)>, key: Seq<char>) -> Option<int> {
    if exists|i: int| 0 <= i < m.len() && (#[trigger] m[i]).0@ == key {
        Some(choose|i: int| 0 <= i < m.len() && (#[trigger] m[i]).0@ == key && forall|j: int| 0 <= j < i ==> m[j].0@ != key)
    } else {
        None
    }
}

/// Every model sits under its upper-cased name, and no name is repeated.
pub open spec fn registry_ok(m: Seq<(String, ModelRef)>) -> bool {
    &&& forall|i: int| 0 <= i < m.len() ==> (#[trigger] m[i]).0@ == upper(m[i].1.name@)
    &&& forall|i: int, j: int| 0 <= i < j < m.len() ==> (#[trigger] m[i]).0@ != (#[trigger] m[j]).0@
}

fn find_entry(m: &Vec<(String, ModelRef)>, key: &str) -> (r: Option<usize>)
    ensures
        match r {
            Some(i) => i < m@.len() && entry_index(m@, key@) == Some(i as int),
            None => entry_index(m@, key@) is None,
        },
{
    let mut i: usize = 0;
    while i < m.len()
        invariant
            i <= m@.len(),
            forall|j: int| 0 <= j < i ==> (#[trigger] m@[j]).0@ != key@,
        decreases m.len() - i,
    {
        if text_is(m[i].0.as_str(), key) {
            proof {
                let c = choose|c: int|
                    0 <= c < m@.len() && (#[trigger] m@[c]).0@ == key@ && forall|j: int| 0 <= j < c ==> m@[j].0@ != key@;
                if c < i {
                    assert(m@[c].0@ != key@);
                } else if c > i {
                    assert(m@[i as int].0@ != key@);
                }
            }
            return Some(i);
        }
        i = i + 1;
    }
    None
}

impl ModelLibrary {
    pub closed spec fn entries(&self) -> Seq<(String, ModelRef)> {
        self.models@
    }

    pub closed spec fn package_list(&self) -> Seq<ResolvedModelPackage> {
        self.packages@
    }

    /// The model registered under `name`, matched without regard to ASCII case.
    pub fn resolve(&self, name: &str) -> (r: Option<ModelRef>)
        ensures
            match entry_index(self.entries(), upper(name@)) {
                Some(i) => r matches Some(m) && same_model(m, self.entries()[i].1),
                None => r is None,
            },
    {
        let key = to_upper(name);
        match find_entry(&self.models, key.as_str()) {
            Some(i) => Some(copy_model(&self.models[i].1)),
            None => None,
        }
    }
}

/// Registers a model under its upper-cased name unless that name is taken.
fn insert_model(models: &mut Vec<(String, ModelRef)>, model: ModelRef) -> (r: Result<(), SemanticDiagnostic>)
    requires
        registry_ok(old(models)@),
    ensures
        registry_ok(final(models)@),
        r is Err <==> entry_index(old(models)@, upper(model.name@)) is Some,
        r is Ok ==> final(models)@ == old(models)@.push((final(models)@.last().0, model)),
        r is Err ==> final(models)@ == old(models)@,
        r matches Err(d) ==> model_error(
            d,
            "KES-C013"@,
            "model/subcircuit name '"@ + model.name@ + "' is already defined"@,
            Some(model.name@),
            "name"@,
        ),
{
    let key = to_upper(model.name.as_str());
    match find_entry(models, key.as_str()) {
        Some(_) => {
            let mut m = owned("model/subcircuit name '");
            append_str(&mut m, model.name.as_str());
            append_str(&mut m, "' is already defined");
            Err(error("KES-C013", m, Some(model.name.as_str()), "name"))
        },
        None => {
            let ghost before = models@;
            models.push((key, model));
            proof {
                assert forall|i: int, j: int| 0 <= i < j < models@.len() implies (#[trigger] models@[i]).0@ != (#[trigger] models@[j]).0@ by {
                    if j == before.len() {
                        assert(models@[i] == before[i]);
                    } else {
                        assert(models@[i] == before[i] && models@[j] == before[j]);
                    }
                }
            }
            Ok(())
        },
    }
}

// ---------------------------------------------------------------------------
// Built-in models.

pub open spec fn content_hash_spec(content: Seq<char>) -> Seq<char> {
    "sha256:"@ + sha256_hex_spec(vstd::utf8::encode_utf8(content))
}

fn content_hash(content: &str) -> (r: String)
    ensures
        r@ == content_hash_spec(content@),
{
    let hex = sha256_hex(content.as_bytes());
    let mut r = owned("sha256:");
    append_str(&mut r, hex.as_str());
    r
}


/// A built-in model: name, kind, source kind, SPICE text, whether it is an
/// opamp subcircuit, and its provenance source, license and version.
pub type BuiltinEntry = (Seq<char>, ComponentKind, ModelSource, Seq<char>, bool, Seq<char>, Seq<char>, Seq<char>);

pub open spec fn opamp_pins() -> Seq<Seq<char>> {
    seq!["in_p"@, "in_n"@, "vcc"@, "vee"@, "out"@]
}

/// The model that a registry entry describes.
pub open spec fn is_builtin(m: ModelRef, e: BuiltinEntry) -> bool {
    &&& m.name@ == e.0
    &&& m.kind == e.1
    &&& m.source == e.2
    &&& if e.4 {
        m.definition matches ModelDefinition::Subcircuit { directive, pins } && directive@ == e.3 && views(pins@)
            == opamp_pins()
    } else {
        m.definition matches ModelDefinition::Device { directive } && directive@ == e.3
    }
    &&& m.provenance.source@ == e.5
    &&& m.provenance.license@ == e.6
    &&& m.provenance.version@ == e.7
    &&& m.provenance.content_hash@ == content_hash_spec(e.3)
    &&& m.provenance.simulator@ == SIMULATOR_CAPABILITY@
}

pub open spec fn legacy_device(name: Seq<char>, kind: ComponentKind, directive: Seq<char>, version: Seq<char>) -> BuiltinEntry {
    (name, kind, ModelSource::Builtin, directive, false, "Kessetsu built-in model registry"@, "legacy-provenance"@, version)
}

pub open spec fn verified_device(name: Seq<char>, kind: ComponentKind, directive: Seq<char>, version: Seq<char>) -> BuiltinEntry {
    (name, kind, ModelSource::Builtin, directive, false, "Kessetsu verified generic model"@, "Apache-2.0"@, version)
}

pub open spec fn opamp_directive(name: Seq<char>, gain: Seq<char>, pole: Seq<char>) -> Seq<char> {
    ".subckt "@ + name + " in_p in_n vcc vee out\nEGAIN n_int 0 in_p in_n "@ + gain
        + "\nRPOLE n_int out 1\nCPOLE out 0 "@ + pole + "\nRLOAD out 0 1e9\n.ends "@ + name
}

/// The built-in registry, in catalog order. The opamp pole capacitance is
/// gain / (2π · bandwidth), written as the SPICE number of that value.
pub open spec fn builtin_catalog() -> Seq<BuiltinEntry> {
    seq![
        legacy_device("2N3904"@, ComponentKind::BJT(BJTPolarity::NPN), ".model 2N3904 NPN (Is=6.734f Xti=3 Eg=1.11 Vaf=74.03 Bf=416.4 Ne=1.259 Ise=6.734f Ikf=66.78m Xtb=1.5 Br=.7371 Nc=2 Isc=0 Ikr=0 Rc=1 Cjc=3.638p Mjc=.3085 Vjc=.75 Fc=.5 Cje=4.493p Mje=.2593 Vje=.75 Tr=239.5n Tf=301.2p Itf=.4 Vtf=4 Xtf=2 Rb=10)"@, "1.0.0"@),
        legacy_device("2N3906"@, ComponentKind::BJT(BJTPolarity::PNP), ".model 2N3906 PNP (Is=1.41f Xti=3 Eg=1.11 Vaf=18.7 Bf=227.3 Ne=1.5 Ise=0 Ikf=80m Xtb=1.5 Br=4.977 Nc=2 Isc=0 Ikr=0 Rc=2.5 Cjc=9.728p Mjc=.5776 Vjc=.75 Fc=.5 Cje=8.063p Mje=.3677 Vje=.75 Tr=33.42n Tf=179.3p Itf=.4 Vtf=4 Xtf=6 Rb=10)"@, "1.0.0"@),
        legacy_device("2N2222"@, ComponentKind::BJT(BJTPolarity::NPN), ".model 2N2222 NPN (Is=14.34f Xti=3 Eg=1.11 Vaf=74.03 Bf=255.9 Ne=1.307 Ise=14.34f Ikf=.2847 Xtb=1.5 Br=6.092 Nc=2 Isc=0 Ikr=0 Rc=1 Cjc=7.306p Mjc=.3416 Vjc=.75 Fc=.5 Cje=22.01p Mje=.377 Vje=.75 Tr=46.91n Tf=411.1p Itf=.6 Vtf=1.7 Xtf=3 Rb=10)"@, "1.0.0"@),
        verified_device("KESSETSU_POWER_NPN_V1"@, ComponentKind::BJT(BJTPolarity::NPN), ".model KESSETSU_POWER_NPN_V1 NPN (Is=1e-12 Bf=80 Vaf=60 Cje=300p Cjc=150p Tf=1u Tr=5u)"@, "1.0.0"@),
        verified_device("KESSETSU_POWER_PNP_V1"@, ComponentKind::BJT(BJTPolarity::PNP), ".model KESSETSU_POWER_PNP_V1 PNP (Is=1e-12 Bf=80 Vaf=60 Cje=300p Cjc=150p Tf=1u Tr=5u)"@, "1.0.0"@),
        legacy_device("1N4148"@, ComponentKind::Diode, ".model 1N4148 D (Is=2.52n Rs=.568 N=1.752 Cjo=4p M=.4 tt=20n)"@, "1.0.1"@),
        legacy_device("1N4007"@, ComponentKind::Diode, ".model 1N4007 D (Is=7.02767n Rs=0.0341512 N=1.80803 Cjo=10p M=0.3333 VJ=0.75)"@, "1.0.1"@),
        legacy_device("IRF540"@, ComponentKind::MOSFET(FETPolarity::NMOS), ".model IRF540 VDMOS (Rg=3 Vto=4.0 Rd=45m Rs=12m Rb=10m Kp=18 Cgdmax=2n Cgdmin=1.3n Cgs=1.7n Cjo=1n Is=2p mfg=IR)"@, "1.0.0"@),
        verified_device("KESSETSU_PMOS_V1"@, ComponentKind::MOSFET(FETPolarity::PMOS), ".model KESSETSU_PMOS_V1 PMOS (Level=1 Vto=-4 Kp=8 Lambda=0.02 Rd=0.2 Rs=0.05)"@, "1.0.1"@),
        ("KESSETSU_OPAMP_V1"@, ComponentKind::OpAmp, ModelSource::Builtin, opamp_directive("KESSETSU_OPAMP_V1"@, "200000"@, "0.031830988618379"@), true, "Kessetsu verified generic opamp"@, "Apache-2.0"@, "1.0.0"@),
    ]
}

fn make_model(
    name: &str,
    kind: ComponentKind,
    source_kind: ModelSource,
    definition: ModelDefinition,
    directive: &str,
    source: &str,
    license: &str,
    version: &str,
) -> (m: ModelRef)
    requires
        match definition {
            ModelDefinition::Device { directive: d } => d@ == directive@,
            ModelDefinition::Subcircuit { directive: d, .. } => d@ == directive@,
            _ => false,
        },
    ensures
        m.name@ == name@,
        m.kind == kind,
        m.source == source_kind,
        m.definition == definition,
        m.provenance.source@ == source@,
        m.provenance.license@ == license@,
        m.provenance.version@ == version@,
        m.provenance.content_hash@ == content_hash_spec(directive@),
        m.provenance.simulator@ == SIMULATOR_CAPABILITY@,
{
    let hash = content_hash(directive);
    ModelRef {
        name: owned(name),
        kind,
        source: source_kind,
        definition,
        provenance: ModelProvenance {
            source: owned(source),
            license: owned(license),
            version: owned(version),
            content_hash: hash,
            simulator: owned(SIMULATOR_CAPABILITY),
        },
    }
}

fn device(name: &str, kind: ComponentKind, directive: &str, verified: bool, version: &str) -> (m: ModelRef)
    ensures
        is_builtin(
            m,
            if verified {
                verified_device(name@, kind, directive@, version@)
            } else {
                legacy_device(name@, kind, directive@, version@)
            },
        ),
{
    let (source, license) = if verified {
        ("Kessetsu verified generic model", "Apache-2.0")
    } else {
        ("Kessetsu built-in model registry", "legacy-provenance")
    };
    make_model(
        name,
        kind,
        ModelSource::Builtin,
        ModelDefinition::Device { directive: owned(directive) },
        directive,
        source,
        license,
        version,
    )
}

fn opamp_pin_names() -> (r: Vec<String>)
    ensures
        views(r@) == opamp_pins(),
{
    let mut r: Vec<String> = Vec::new();
    r.push(owned("in_p"));
    r.push(owned("in_n"));
    r.push(owned("vcc"));
    r.push(owned("vee"));
    r.push(owned("out"));
    proof {
        assert(views(r@) =~= opamp_pins());
    }
    r
}

/// A single-pole opamp subcircuit with the given gain and pole capacitance text.
fn opamp_model(
    name: &str,
    source_kind: ModelSource,
    source: &str,
    license: &str,
    version: &str,
    gain: &str,
    pole: &str,
) -> (m: ModelRef)
    ensures
        is_builtin(
            m,
            (name@, ComponentKind::OpAmp, source_kind, opamp_directive(name@, gain@, pole@), true, source@, license@, version@),
        ),
{
    let mut directive = owned(".subckt ");
    append_str(&mut directive, name);
    append_str(&mut directive, " in_p in_n vcc vee out\nEGAIN n_int 0 in_p in_n ");
    append_str(&mut directive, gain);
    append_str(&mut directive, "\nRPOLE n_int out 1\nCPOLE out 0 ");
    append_str(&mut directive, pole);
    append_str(&mut directive, "\nRLOAD out 0 1e9\n.ends ");
    append_str(&mut directive, name);
    let text = directive.clone();
    make_model(
        name,
        ComponentKind::OpAmp,
        source_kind,
        ModelDefinition::Subcircuit { directive, pins: opamp_pin_names() },
        text.as_str(),
        source,
        license,
        version,
    )
}

/// The built-in models, in catalog order.
pub fn builtin_models() -> (r: Vec<ModelRef>)
    ensures
        r@.len() == builtin_catalog().len(),
        forall|i: int| 0 <= i < r@.len() ==> is_builtin(#[trigger] r@[i], builtin_catalog()[i]),
{
    let mut r: Vec<ModelRef> = Vec::new();
    r.push(device("2N3904", ComponentKind::BJT(BJTPolarity::NPN), ".model 2N3904 NPN (Is=6.734f Xti=3 Eg=1.11 Vaf=74.03 Bf=416.4 Ne=1.259 Ise=6.734f Ikf=66.78m Xtb=1.5 Br=.7371 Nc=2 Isc=0 Ikr=0 Rc=1 Cjc=3.638p Mjc=.3085 Vjc=.75 Fc=.5 Cje=4.493p Mje=.2593 Vje=.75 Tr=239.5n Tf=301.2p Itf=.4 Vtf=4 Xtf=2 Rb=10)", false, "1.0.0"));
    r.push(device("2N3906", ComponentKind::BJT(BJTPolarity::PNP), ".model 2N3906 PNP (Is=1.41f Xti=3 Eg=1.11 Vaf=18.7 Bf=227.3 Ne=1.5 Ise=0 Ikf=80m Xtb=1.5 Br=4.977 Nc=2 Isc=0 Ikr=0 Rc=2.5 Cjc=9.728p Mjc=.5776 Vjc=.75 Fc=.5 Cje=8.063p Mje=.3677 Vje=.75 Tr=33.42n Tf=179.3p Itf=.4 Vtf=4 Xtf=6 Rb=10)", false, "1.0.0"));
    r.push(device("2N2222", ComponentKind::BJT(BJTPolarity::NPN), ".model 2N2222 NPN (Is=14.34f Xti=3 Eg=1.11 Vaf=74.03 Bf=255.9 Ne=1.307 Ise=14.34f Ikf=.2847 Xtb=1.5 Br=6.092 Nc=2 Isc=0 Ikr=0 Rc=1 Cjc=7.306p Mjc=.3416 Vjc=.75 Fc=.5 Cje=22.01p Mje=.377 Vje=.75 Tr=46.91n Tf=411.1p Itf=.6 Vtf=1.7 Xtf=3 Rb=10)", false, "1.0.0"));
    r.push(device("KESSETSU_POWER_NPN_V1", ComponentKind::BJT(BJTPolarity::NPN), ".model KESSETSU_POWER_NPN_V1 NPN (Is=1e-12 Bf=80 Vaf=60 Cje=300p Cjc=150p Tf=1u Tr=5u)", true, "1.0.0"));
    r.push(device("KESSETSU_POWER_PNP_V1", ComponentKind::BJT(BJTPolarity::PNP), ".model KESSETSU_POWER_PNP_V1 PNP (Is=1e-12 Bf=80 Vaf=60 Cje=300p Cjc=150p Tf=1u Tr=5u)", true, "1.0.0"));
    r.push(device("1N4148", ComponentKind::Diode, ".model 1N4148 D (Is=2.52n Rs=.568 N=1.752 Cjo=4p M=.4 tt=20n)", false, "1.0.1"));
    r.push(device("1N4007", ComponentKind::Diode, ".model 1N4007 D (Is=7.02767n Rs=0.0341512 N=1.80803 Cjo=10p M=0.3333 VJ=0.75)", false, "1.0.1"));
    r.push(device("IRF540", ComponentKind::MOSFET(FETPolarity::NMOS), ".model IRF540 VDMOS (Rg=3 Vto=4.0 Rd=45m Rs=12m Rb=10m Kp=18 Cgdmax=2n Cgdmin=1.3n Cgs=1.7n Cjo=1n Is=2p mfg=IR)", false, "1.0.0"));
    r.push(device("KESSETSU_PMOS_V1", ComponentKind::MOSFET(FETPolarity::PMOS), ".model KESSETSU_PMOS_V1 PMOS (Level=1 Vto=-4 Kp=8 Lambda=0.02 Rd=0.2 Rs=0.05)", true, "1.0.1"));
    r.push(opamp_model("KESSETSU_OPAMP_V1", ModelSource::Builtin, "Kessetsu verified generic opamp", "Apache-2.0", "1.0.0", "200000", "0.031830988618379"));
    r
}

/// The first built-in model whose name matches, ignoring ASCII case.
pub open spec fn builtin_index(name: Seq<char>) -> Option<int> {
    if exists|i: int| 0 <= i < builtin_catalog().len() && eq_ignore_case(#[trigger] builtin_catalog()[i].0, name) {
        Some(choose|i: int|
            0 <= i < builtin_catalog().len() && eq_ignore_case(#[trigger] builtin_catalog()[i].0, name)
                && forall|j: int| 0 <= j < i ==> !eq_ignore_case(builtin_catalog()[j].0, name))
    } else {
        None
    }
}

/// The built-in model of that name, matched without regard to ASCII case.
pub fn builtin_model(name: &str) -> (r: Option<ModelRef>)
    ensures
        match builtin_index(name@) {
            Some(i) => r matches Some(m) && is_builtin(m, builtin_catalog()[i]),
            None => r is None,
        },
{
    let mut all = builtin_models();
    let mut i: usize = 0;
    while i < all.len()
        invariant
            i <= all@.len(),
            all@.len() == builtin_catalog().len(),
            forall|k: int| 0 <= k < all@.len() ==> is_builtin(#[trigger] all@[k], builtin_catalog()[k]),
            forall|j: int| 0 <= j < i ==> !eq_ignore_case(#[trigger] builtin_catalog()[j].0, name@),
        decreases all.len() - i,
    {
        if eq_ignore_case_exec(all[i].name.as_str(), name) {
            proof {
                assert(is_builtin(all@[i as int], builtin_catalog()[i as int]));
                let c = choose|c: int|
                    0 <= c < builtin_catalog().len() && eq_ignore_case(#[trigger] builtin_catalog()[c].0, name@)
                        && forall|j: int| 0 <= j < c ==> !eq_ignore_case(builtin_catalog()[j].0, name@);
                if c < i {
                    assert(!eq_ignore_case(builtin_catalog()[c].0, name@));
                } else if c > i {
                    assert(!eq_ignore_case(builtin_catalog()[i as int].0, name@));
                }
            }
            return Some(all.swap_remove(i));
        }
        i = i + 1;
    }
    None
}


// ---------------------------------------------------------------------------
// Model and pin agreement.

pub open spec fn kind_debug_text(kind: ComponentKind) -> Seq<char> {
    match kind {
        ComponentKind::Resistor => "Resistor"@,
        ComponentKind::Capacitor => "Capacitor"@,
        ComponentKind::Inductor => "Inductor"@,
        ComponentKind::Diode => "Diode"@,
        ComponentKind::BJT(BJTPolarity::NPN) => "BJT(NPN)"@,
        ComponentKind::BJT(BJTPolarity::PNP) => "BJT(PNP)"@,
        ComponentKind::MOSFET(FETPolarity::NMOS) => "MOSFET(NMOS)"@,
        ComponentKind::MOSFET(FETPolarity::PMOS) => "MOSFET(PMOS)"@,
        ComponentKind::OpAmp => "OpAmp"@,
        ComponentKind::ExternalDevice(ExternalDeviceFamily::Comparator) => "ExternalDevice(Comparator)"@,
        ComponentKind::ExternalDevice(ExternalDeviceFamily::TwoTerminal) => "ExternalDevice(TwoTerminal)"@,
        ComponentKind::VoltageSource => "VoltageSource"@,
        ComponentKind::CurrentSource => "CurrentSource"@,
        ComponentKind::ModulePort => "ModulePort"@,
    }
}

/// The kind as its debug form, such as `BJT(NPN)`.
pub fn kind_debug(kind: &ComponentKind) -> (r: &'static str)
    ensures
        r@ == kind_debug_text(*kind),
{
    match kind {
        ComponentKind::Resistor => "Resistor",
        ComponentKind::Capacitor => "Capacitor",
        ComponentKind::Inductor => "Inductor",
        ComponentKind::Diode => "Diode",
        ComponentKind::BJT(BJTPolarity::NPN) => "BJT(NPN)",
        ComponentKind::BJT(BJTPolarity::PNP) => "BJT(PNP)",
        ComponentKind::MOSFET(FETPolarity::NMOS) => "MOSFET(NMOS)",
        ComponentKind::MOSFET(FETPolarity::PMOS) => "MOSFET(PMOS)",
        ComponentKind::OpAmp => "OpAmp",
        ComponentKind::ExternalDevice(ExternalDeviceFamily::Comparator) => "ExternalDevice(Comparator)",
        ComponentKind::ExternalDevice(ExternalDeviceFamily::TwoTerminal) => "ExternalDevice(TwoTerminal)",
        ComponentKind::VoltageSource => "VoltageSource",
        ComponentKind::CurrentSource => "CurrentSource",
        ComponentKind::ModulePort => "ModulePort",
    }
}

/// What `{:?}` writes for a list of strings.
pub uninterp spec fn debug_list_spec(items: Seq<Seq<char>>) -> Seq<char>;

/// Writes the list with std's `Debug` formatting (`["a", "b"]`, each item quoted
/// and escaped); the text is named `debug_list_spec` of the items.
#[verifier::external_body]
pub(crate) fn debug_list(items: &Vec<String>) -> (r: String)
    ensures
        r@ == debug_list_spec(views(items@)),
{
    format!("{:?}", items)
}

/// The catalog pin names of a kind, as owned strings.
pub(crate) fn catalog_pin_names(kind: &ComponentKind) -> (r: Vec<String>)
    ensures
        views(r@) == pin_names(*kind),
{
    let d = component_definition(kind);
    let mut r: Vec<String> = Vec::new();
    let mut i: usize = 0;
    proof {
        assert(d.pins@.map_values(|p: PinDefinition| pin_view(p)).len() == d.pins@.len());
    }
    while i < d.pins.len()
        invariant
            definition_matches(d, *kind),
            pin_names(*kind).len() == d.pins@.len(),
            i <= d.pins@.len(),
            r@.len() == i,
            forall|k: int| 0 <= k < i ==> (#[trigger] r@[k])@ == pin_names(*kind)[k],
        decreases d.pins.len() - i,
    {
        proof {
            assert(pin_names(*kind)[i as int] == d.pins@[i as int].name@);
        }
        r.push(owned(d.pins[i].name));
        i = i + 1;
    }
    proof {
        assert(views(r@) =~= pin_names(*kind));
    }
    r
}

pub(crate) fn same_text_lists(a: &Vec<String>, b: &Vec<String>) -> (r: bool)
    ensures
        r == (views(a@) == views(b@)),
{
    if a.len() != b.len() {
        proof {
            assert(views(a@).len() != views(b@).len());
        }
        return false;
    }
    let mut i: usize = 0;
    while i < a.len()
        invariant
            a@.len() == b@.len(),
            i <= a@.len(),
            forall|k: int| 0 <= k < i ==> (#[trigger] a@[k])@ == b@[k]@,
        decreases a.len() - i,
    {
        if !text_is(a[i].as_str(), b[i].as_str()) {
            proof {
                assert(views(a@)[i as int] != views(b@)[i as int]);
            }
            return false;
        }
        i = i + 1;
    }
    proof {
        assert(views(a@) =~= views(b@));
    }
    true
}

/// The pins that a model definition declares, if it is a subcircuit.
pub open spec fn declared_pins(d: ModelDefinition) -> Option<Seq<Seq<char>>> {
    match d {
        ModelDefinition::Subcircuit { pins, .. } => Some(views(pins@)),
        ModelDefinition::ExternalSubcircuit { metadata } => Some(views(metadata.pins@)),
        ModelDefinition::Device { .. } => None,
    }
}

/// A subcircuit model must list the component's catalog pins in catalog order.
pub fn validate_component_model_pins(kind: &ComponentKind, model: &ModelRef) -> (r: Result<(), SemanticDiagnostic>)
    ensures
        r is Ok <==> match declared_pins(model.definition) {
            Some(pins) => pins == pin_names(*kind),
            None => true,
        },
        r matches Err(d) ==> model_error(
            d,
            "KES-C012"@,
            "subcircuit '"@ + model.name@ + "' pin order "@ + debug_list_spec(declared_pins(model.definition)->0)
                + " does not match "@ + kind_debug_text(*kind) + " catalog order "@ + debug_list_spec(pin_names(*kind)),
            Some(model.name@),
            "pins"@,
        ),
{
    let pins = match &model.definition {
        ModelDefinition::Subcircuit { pins, .. } => pins,
        ModelDefinition::ExternalSubcircuit { metadata } => &metadata.pins,
        ModelDefinition::Device { .. } => {
            return Ok(());
        },
    };
    let expected = catalog_pin_names(kind);
    if !same_text_lists(pins, &expected) {
        let mut m = owned("subcircuit '");
        append_str(&mut m, model.name.as_str());
        append_str(&mut m, "' pin order ");
        append_str(&mut m, debug_list(pins).as_str());
        append_str(&mut m, " does not match ");
        append_str(&mut m, kind_debug(kind));
        append_str(&mut m, " catalog order ");
        append_str(&mut m, debug_list(&expected).as_str());
        return Err(error("KES-C012", m, Some(model.name.as_str()), "pins"));
    }
    Ok(())
}

// ---------------------------------------------------------------------------
// External model references.

/// Characters allowed in a source-relative model file reference.
pub open spec fn reference_char(c: char) -> bool {
    is_ascii_alnum(c) || c == '/' || c == '.' || c == '_' || c == '-' || c == ' '
}

/// Index of the first `/` at or after `i`, or the length.
pub open spec fn next_slash(s: Seq<char>, i: int) -> int
    decreases s.len() - i,
{
    if i >= s.len() {
        s.len() as int
    } else if s[i] == '/' {
        i
    } else {
        next_slash(s, i + 1)
    }
}

/// The `/`-separated segments of `s[start..]`, as `str::split('/')` yields them.
pub open spec fn segments_from(s: Seq<char>, start: int) -> Seq<Seq<char>>
    decreases s.len() - start, 1int,
    when 0 <= start <= s.len()
{
    let k = next_slash(s, start);
    proof {
        lemma_next_slash(s, start);
    }
    if k >= s.len() {
        seq![s.subrange(start, s.len() as int)]
    } else {
        seq![s.subrange(start, k)] + segments_from(s, k + 1)
    }
}

/// A segment that is empty, padded with whitespace, or a `.`/`..` step.
pub open spec fn bad_segment(seg: Seq<char>) -> bool {
    seg.len() == 0 || crate::text::trim(seg) != seg || seg == "."@ || seg == ".."@
}

pub open spec fn any_bad_segment(segs: Seq<Seq<char>>) -> bool {
    exists|k: int| 0 <= k < segs.len() && bad_segment(#[trigger] segs[k])
}

/// A reference that may name a bound model resource: a non-empty, bounded,
/// source-relative forward-slash path of plain characters without traversal.
pub open spec fn valid_reference(s: Seq<char>) -> bool {
    &&& s.len() > 0
    &&& utf8_len(s) <= 512
    &&& s[0] != '/'
    &&& forall|i: int| 0 <= i < s.len() ==> reference_char(#[trigger] s[i])
    &&& !any_bad_segment(segments_from(s, 0))
}

pub proof fn lemma_next_slash(s: Seq<char>, i: int)
    requires
        0 <= i <= s.len(),
    ensures
        i <= next_slash(s, i) <= s.len(),
        next_slash(s, i) < s.len() ==> s[next_slash(s, i)] == '/',
        forall|j: int| i <= j < next_slash(s, i) ==> s[j] != '/',
    decreases s.len() - i,
{
    if i < s.len() && s[i] != '/' {
        lemma_next_slash(s, i + 1);
    }
}

/// A whitespace-free segment end is all that trimming looks at.
proof fn lemma_trim_same(seg: Seq<char>)
    requires
        seg.len() > 0,
    ensures
        crate::text::trim(seg) == seg <==> !crate::text::is_white(seg[0]) && !crate::text::is_white(seg.last()),
{
    crate::text::lemma_leading_white_bound(seg);
    let t = crate::text::trim_start(seg);
    crate::text::lemma_trailing_white_bound(t);
    if !crate::text::is_white(seg[0]) && !crate::text::is_white(seg.last()) {
        crate::text::lemma_leading_white_unique(seg, 0);
        assert(t =~= seg);
        crate::text::lemma_trailing_white_unique(t, 0);
        assert(crate::text::trim(seg) =~= seg);
    } else if crate::text::trim(seg) == seg {
        if crate::text::is_white(seg[0]) {
            assert(crate::text::leading_white(seg) >= 1);
            assert(crate::text::trim(seg).len() < seg.len());
        } else {
            crate::text::lemma_leading_white_unique(seg, 0);
            assert(t =~= seg);
            assert(crate::text::trailing_white(t) >= 1);
        }
    }
}

/// Whether `cs[start..end]` is a bad segment.
fn segment_bad(cs: &Vec<char>, start: usize, end: usize) -> (r: bool)
    requires
        start <= end <= cs@.len(),
    ensures
        r == bad_segment(cs@.subrange(start as int, end as int)),
{
    let ghost seg = cs@.subrange(start as int, end as int);
    if start == end {
        return true;
    }
    proof {
        lemma_trim_same(seg);
        assert(seg[0] == cs@[start as int] && seg.last() == cs@[end - 1]);
    }
    if crate::text::is_white_exec(cs[start]) || crate::text::is_white_exec(cs[end - 1]) {
        return true;
    }
    let one = end - start == 1 && cs[start] == '.';
    let two = end - start == 2 && cs[start] == '.' && cs[start + 1] == '.';
    proof {
        reveal_strlit(".");
        reveal_strlit("..");
        if seg == "."@ {
            assert(seg.len() == 1 && seg[0] == '.');
        }
        if seg == ".."@ {
            assert(seg.len() == 2 && seg[0] == '.' && seg[1] == '.');
        }
        if one {
            assert(seg =~= "."@);
        }
        if two {
            assert(seg =~= ".."@);
        }
    }
    one || two
}

proof fn lemma_any_bad_cons(a: Seq<char>, rest: Seq<Seq<char>>)
    ensures
        any_bad_segment(seq![a] + rest) == (bad_segment(a) || any_bad_segment(rest)),
{
    let all = seq![a] + rest;
    if any_bad_segment(rest) {
        let k = choose|k: int| 0 <= k < rest.len() && bad_segment(#[trigger] rest[k]);
        assert(all[k + 1] == rest[k]);
    }
    if bad_segment(a) {
        assert(all[0] == a);
    }
    if any_bad_segment(all) {
        let k = choose|k: int| 0 <= k < all.len() && bad_segment(#[trigger] all[k]);
        if k > 0 {
            assert(all[k] == rest[k - 1]);
        }
    }
}

/// Whether some segment of `cs` is bad.
fn has_bad_segment(cs: &Vec<char>) -> (r: bool)
    ensures
        r == any_bad_segment(segments_from(cs@, 0)),
{
    let n = cs.len();
    let mut start: usize = 0;
    loop
        invariant
            start <= n,
            n == cs@.len(),
            any_bad_segment(segments_from(cs@, 0)) == any_bad_segment(segments_from(cs@, start as int)),
        decreases n - start,
    {
        let mut k: usize = start;
        while k < n && cs[k] != '/'
            invariant
                start <= k <= n,
                n == cs@.len(),
                next_slash(cs@, start as int) == next_slash(cs@, k as int),
            decreases n - k,
        {
            k = k + 1;
        }
        proof {
            lemma_next_slash(cs@, start as int);
            assert(next_slash(cs@, k as int) == k);
        }
        let bad = segment_bad(cs, start, k);
        if k >= n {
            proof {
                lemma_any_bad_cons(cs@.subrange(start as int, n as int), seq![]);
                assert(segments_from(cs@, start as int) =~= seq![cs@.subrange(start as int, n as int)] + Seq::<Seq<char>>::empty());
            }
            return bad;
        }
        proof {
            lemma_any_bad_cons(cs@.subrange(start as int, k as int), segments_from(cs@, k + 1));
        }
        if bad {
            return true;
        }
        start = k + 1;
    }
}

proof fn lemma_ascii_utf8_len(s: Seq<char>)
    requires
        forall|i: int| 0 <= i < s.len() ==> reference_char(#[trigger] s[i]),
    ensures
        utf8_len(s) == s.len(),
    decreases s.len(),
{
    if s.len() == 0 {
        crate::text::lemma_utf8_len_empty(s);
        assert(s =~= Seq::<char>::empty());
    } else {
        let p = s.drop_last();
        assert forall|i: int| 0 <= i < p.len() implies reference_char(#[trigger] p[i]) by {
            assert(p[i] == s[i]);
        }
        lemma_ascii_utf8_len(p);
        crate::text::lemma_utf8_len_push(p, s.last());
        assert(p.push(s.last()) =~= s);
        assert(reference_char(s[s.len() - 1]));
        assert((s.last() as u32) < 0x80);
    }
}

/// Accepts a source-relative forward-slash file reference without traversal
/// or control characters.
pub fn validate_external_resource_reference(reference: &str) -> (r: Result<(), String>)
    ensures
        r is Ok <==> valid_reference(reference@),
        r matches Err(e) ==> e@
            == "file must be a source-relative forward-slash path without traversal or control characters"@,
{
    let cs = chars_of(reference);
    let mut plain = true;
    let mut i: usize = 0;
    while i < cs.len()
        invariant
            i <= cs@.len(),
            cs@ == reference@,
            plain <==> forall|j: int| 0 <= j < i ==> reference_char(#[trigger] cs@[j]),
        decreases cs.len() - i,
    {
        let c = cs[i];
        let ok = crate::text::is_alnum_exec(c) || c == '/' || c == '.' || c == '_' || c == '-' || c == ' ';
        if !ok {
            plain = false;
        }
        i = i + 1;
    }
    let mut valid = plain && cs.len() > 0 && cs[0] != '/';
    if valid {
        proof {
            lemma_ascii_utf8_len(reference@);
        }
        valid = cs.len() <= 512 && !has_bad_segment(&cs);
    }
    if !valid {
        return Err(owned("file must be a source-relative forward-slash path without traversal or control characters"));
    }
    Ok(())
}

/// A name that starts with an ASCII letter and continues with letters, digits or `_`.
pub open spec fn safe_identifier(s: Seq<char>) -> bool {
    s.len() > 0 && is_ascii_alpha(s[0]) && forall|i: int| 1 <= i < s.len() ==> (is_ascii_alnum(#[trigger] s[i]) || s[i] == '_')
}

pub fn is_safe_identifier(value: &str) -> (r: bool)
    ensures
        r == safe_identifier(value@),
{
    let cs = chars_of(value);
    if cs.len() == 0 || !crate::text::is_alpha_exec(cs[0]) {
        return false;
    }
    let mut i: usize = 1;
    while i < cs.len()
        invariant
            1 <= i <= cs@.len(),
            cs@ == value@,
            forall|j: int| 1 <= j < i ==> (is_ascii_alnum(#[trigger] cs@[j]) || cs@[j] == '_'),
        decreases cs.len() - i,
    {
        if !(crate::text::is_alnum_exec(cs[i]) || cs[i] == '_') {
            return false;
        }
        i = i + 1;
    }
    true
}


// ---------------------------------------------------------------------------
// Caller-bound model files.

/// Names in strictly ascending text order: each name once, in the order of
/// an ordered map.
pub open spec fn names_ascending(es: Seq<(Seq<char>, Seq<u8>)>) -> bool {
    forall|i: int, j: int| 0 <= i < j < es.len() ==> text_lt((#[trigger] es[i]).0, (#[trigger] es[j]).0)
}

/// `es` with `name` bound to `bytes`: an existing binding is replaced in
/// place, a new one goes before the first larger name.
pub open spec fn bind_entry(es: Seq<(Seq<char>, Seq<u8>)>, name: Seq<char>, bytes: Seq<u8>) -> Seq<
    (Seq<char>, Seq<u8>),
>
    decreases es.len(),
{
    if es.len() == 0 {
        seq![(name, bytes)]
    } else if es[0].0 == name {
        seq![(name, bytes)] + es.drop_first()
    } else if text_lt(name, es[0].0) {
        seq![(name, bytes)] + es
    } else {
        seq![es[0]] + bind_entry(es.drop_first(), name, bytes)
    }
}

/// The bytes bound to `name`, if any.
pub open spec fn bound_bytes(es: Seq<(Seq<char>, Seq<u8>)>, name: Seq<char>) -> Option<Seq<u8>>
    decreases es.len(),
{
    if es.len() == 0 {
        None
    } else if es[0].0 == name {
        Some(es[0].1)
    } else {
        bound_bytes(es.drop_first(), name)
    }
}

/// Reading back a binding gives the bytes just bound, and every other
/// name keeps what it had.
pub proof fn lemma_bind_then_read(es: Seq<(Seq<char>, Seq<u8>)>, name: Seq<char>, bytes: Seq<u8>, other: Seq<char>)
    ensures
        bound_bytes(bind_entry(es, name, bytes), name) == Some(bytes),
        other != name ==> bound_bytes(bind_entry(es, name, bytes), other) == bound_bytes(es, other),
    decreases es.len(),
{
    let b = bind_entry(es, name, bytes);
    if es.len() > 0 && es[0].0 != name && !text_lt(name, es[0].0) {
        lemma_bind_then_read(es.drop_first(), name, bytes, other);
        assert(b[0] == es[0]);
        assert(b.drop_first() =~= bind_entry(es.drop_first(), name, bytes));
        if other != name && es[0].0 != other {
            assert(bound_bytes(b, other) == bound_bytes(b.drop_first(), other));
            assert(bound_bytes(es, other) == bound_bytes(es.drop_first(), other));
        }
    } else if es.len() > 0 && es[0].0 == name {
        assert(b.drop_first() =~= es.drop_first());
        if other != name {
            assert(bound_bytes(b, other) == bound_bytes(b.drop_first(), other));
            assert(bound_bytes(es, other) == bound_bytes(es.drop_first(), other));
        }
    } else if es.len() > 0 {
        assert(b.drop_first() =~= es);
        if other != name {
            assert(bound_bytes(b, other) == bound_bytes(b.drop_first(), other));
        }
    } else {
        assert(b.drop_first() =~= Seq::<(Seq<char>, Seq<u8>)>::empty());
        if other != name {
            assert(bound_bytes(b, other) == bound_bytes(b.drop_first(), other));
        }
    }
}

/// Local model files supplied by the caller, by source-relative name, in
/// ascending name order with each name once.
pub struct ExternalModelResources {
    entries: Vec<(String, Vec<u8>)>,
}

pub open spec fn entry_view(e: (String, Vec<u8>)) -> (Seq<char>, Seq<u8>) {
    (e.0@, e.1@)
}

impl View for ExternalModelResources {
    type V = Seq<(Seq<char>, Seq<u8>)>;

    closed spec fn view(&self) -> Seq<(Seq<char>, Seq<u8>)> {
        self.entries@.map_values(|e: (String, Vec<u8>)| entry_view(e))
    }
}

proof fn lemma_bind_split(es: Seq<(Seq<char>, Seq<u8>)>, name: Seq<char>, bytes: Seq<u8>, i: int)
    requires
        0 <= i <= es.len(),
        forall|j: int| 0 <= j < i ==> text_lt((#[trigger] es[j]).0, name),
        i < es.len() ==> !text_lt(es[i].0, name),
    ensures
        i < es.len() && es[i].0 == name ==> bind_entry(es, name, bytes) == es.take(i) + seq![(name, bytes)]
            + es.skip(i + 1),
        !(i < es.len() && es[i].0 == name) ==> bind_entry(es, name, bytes) == es.take(i) + seq![(name, bytes)]
            + es.skip(i),
    decreases i,
{
    if i == 0 {
        assert(es.take(0) + seq![(name, bytes)] + es.skip(0) =~= seq![(name, bytes)] + es);
        if es.len() > 0 && es[0].0 != name {
            crate::text::lemma_text_lt_total(name, es[0].0);
        }
        if es.len() > 0 {
            assert(es.skip(1) =~= es.drop_first());
            assert(es.take(0) + seq![(name, bytes)] + es.skip(1) =~= seq![(name, bytes)] + es.drop_first());
        }
    } else {
        crate::text::lemma_text_lt_irreflexive(name);
        assert(es[0].0 != name);
        crate::text::lemma_text_lt_total(name, es[0].0);
        let rest = es.drop_first();
        assert forall|j: int| 0 <= j < i - 1 implies text_lt((#[trigger] rest[j]).0, name) by {
            assert(rest[j] == es[j + 1]);
        }
        if i < es.len() {
            assert(rest[i - 1] == es[i]);
        }
        lemma_bind_split(rest, name, bytes, i - 1);
        assert(rest.take(i - 1) =~= es.take(i).drop_first());
        assert(rest.skip(i - 1) =~= es.skip(i));
        if i < es.len() {
            assert(rest.skip(i) =~= es.skip(i + 1));
        }
        assert(es.take(i) =~= seq![es[0]] + es.take(i).drop_first());
        assert(seq![es[0]] + (rest.take(i - 1) + seq![(name, bytes)] + es.skip(i)) =~= es.take(i) + seq![(name, bytes)] + es.skip(i));
        assert(seq![es[0]] + (rest.take(i - 1) + seq![(name, bytes)] + es.skip(i + 1)) =~= es.take(i) + seq![(name, bytes)] + es.skip(i + 1));
    }
}

proof fn lemma_bound_bytes(es: Seq<(Seq<char>, Seq<u8>)>, name: Seq<char>, i: int)
    requires
        0 <= i <= es.len(),
        forall|j: int| 0 <= j < i ==> (#[trigger] es[j]).0 != name,
    ensures
        bound_bytes(es, name) == bound_bytes(es.skip(i), name),
    decreases i,
{
    if i > 0 {
        let rest = es.drop_first();
        assert forall|j: int| 0 <= j < i - 1 implies (#[trigger] rest[j]).0 != name by {
            assert(rest[j] == es[j + 1]);
        }
        lemma_bound_bytes(rest, name, i - 1);
        assert(rest.skip(i - 1) =~= es.skip(i));
    } else {
        assert(es.skip(0) =~= es);
    }
}

impl ExternalModelResources {
    #[verifier::type_invariant]
    spec fn ascending(self) -> bool {
        names_ascending(self.entries@.map_values(|e: (String, Vec<u8>)| entry_view(e)))
    }

    /// No file bound.
    pub fn new() -> (r: ExternalModelResources)
        ensures
            r@ == Seq::<(Seq<char>, Seq<u8>)>::empty(),
    {
        let r = ExternalModelResources { entries: Vec::new() };
        assert(r.entries@.map_values(|e: (String, Vec<u8>)| entry_view(e)) =~= Seq::<
            (Seq<char>, Seq<u8>),
        >::empty());
        r
    }

    /// Binds `bytes` to `name`, replacing an earlier binding of that name.
    pub fn insert(&mut self, name: String, bytes: Vec<u8>)
        ensures
            final(self)@ == bind_entry(old(self)@, name@, bytes@),
    {
        proof {
            use_type_invariant(&*self);
        }
        let ghost es = self@;
        let mut i: usize = 0;
        while i < self.entries.len() && crate::text::text_less(self.entries[i].0.as_str(), name.as_str())
            invariant
                i <= self.entries.len(),
                es == self@,
                es == self.entries@.map_values(|e: (String, Vec<u8>)| entry_view(e)),
                forall|j: int| 0 <= j < i ==> text_lt((#[trigger] es[j]).0, name@),
            decreases self.entries.len() - i,
        {
            i = i + 1;
        }
        proof {
            lemma_bind_split(es, name@, bytes@, i as int);
        }
        let mut entries: Vec<(String, Vec<u8>)> = Vec::new();
        std::mem::swap(&mut entries, &mut self.entries);
        assert(entries@.map_values(|e: (String, Vec<u8>)| entry_view(e)) == es);
        let same = i < entries.len() && crate::text::text_is(entries[i].0.as_str(), name.as_str());
        let ghost after: Seq<(Seq<char>, Seq<u8>)>;
        if same {
            entries.set(i, (name, bytes));
            proof {
                after = es.take(i as int) + seq![(name@, bytes@)] + es.skip(i + 1);
                assert(entries@.map_values(|e: (String, Vec<u8>)| entry_view(e)) =~= after);
            }
        } else {
            entries.insert(i, (name, bytes));
            proof {
                after = es.take(i as int) + seq![(name@, bytes@)] + es.skip(i as int);
                assert(entries@.map_values(|e: (String, Vec<u8>)| entry_view(e)) =~= after);
            }
        }
        proof {
            let nm = name@;
            if i < es.len() && !same {
                crate::text::lemma_text_lt_total(nm, es[i as int].0);
            }
            assert forall|a: int, b: int| 0 <= a < b < after.len() implies text_lt(
                (#[trigger] after[a]).0,
                (#[trigger] after[b]).0,
            ) by {
                if a < i && b < i {
                    assert(after[a] == es[a] && after[b] == es[b]);
                } else if a < i && b == i {
                    assert(after[a] == es[a]);
                } else if a < i {
                    if same {
                        assert(after[a] == es[a] && after[b] == es[b]);
                    } else {
                        assert(after[a] == es[a] && after[b] == es[b - 1]);
                    }
                } else if a == i {
                    if same {
                        assert(after[b] == es[b]);
                        assert(text_lt(es[i as int].0, es[b].0));
                    } else {
                        assert(after[b] == es[b - 1]);
                        if b - 1 > i {
                            crate::text::lemma_text_lt_transitive(nm, es[i as int].0, es[b - 1].0);
                        }
                    }
                } else {
                    if same {
                        assert(after[a] == es[a] && after[b] == es[b]);
                    } else {
                        assert(after[a] == es[a - 1] && after[b] == es[b - 1]);
                    }
                }
            }
        }
        self.entries = entries;
    }

    /// The bytes bound to `name`, matched exactly.
    pub fn get(&self, name: &str) -> (r: Option<&Vec<u8>>)
        ensures
            match bound_bytes(self@, name@) {
                Some(b) => r matches Some(x) && x@ == b,
                None => r is None,
            },
    {
        let ghost es = self@;
        let mut i: usize = 0;
        while i < self.entries.len()
            invariant
                i <= self.entries.len(),
                es == self.entries@.map_values(|e: (String, Vec<u8>)| entry_view(e)),
                forall|j: int| 0 <= j < i ==> (#[trigger] es[j]).0 != name@,
            decreases self.entries.len() - i,
        {
            if crate::text::text_is(self.entries[i].0.as_str(), name) {
                proof {
                    lemma_bound_bytes(es, name@, i as int);
                    assert(es.skip(i as int)[0] == es[i as int]);
                }
                return Some(&self.entries[i].1);
            }
            i = i + 1;
        }
        proof {
            lemma_bound_bytes(es, name@, i as int);
            assert(es.skip(i as int) =~= Seq::<(Seq<char>, Seq<u8>)>::empty());
        }
        None
    }

    /// Number of bound files; the bindings are in ascending name order.
    pub fn len(&self) -> (n: usize)
        ensures
            n == self@.len(),
            names_ascending(self@),
    {
        proof {
            use_type_invariant(self);
        }
        self.entries.len()
    }

    /// The `i`-th binding in name order.
    pub fn entry(&self, i: usize) -> (r: (&String, &Vec<u8>))
        requires
            i < self@.len(),
        ensures
            (r.0@, r.1@) == self@[i as int],
    {
        (&self.entries[i].0, &self.entries[i].1)
    }
}


// ---------------------------------------------------------------------------
// External subcircuit libraries.

/// A diagnostic as (code, message, field).
pub type ModelFailure = (Seq<char>, Seq<char>, Seq<char>);

/// A first field that opens a control block, loads a file or a plug-in.
pub open spec fn forbidden_head(h: Seq<char>) -> bool {
    let l = crate::text::lower(h);
    l == ".control"@ || l == ".endc"@ || l == ".include"@ || l == ".inc"@ || l == ".lib"@ || l == ".end"@
        || l == ".load"@ || l == ".osdi"@
}

/// A word that may still be a positional terminal.
pub open spec fn terminal_word(w: Seq<char>) -> bool {
    !eq_ignore_case(w, "params:"@) && !crate::text::contains_char(w, '=')
}

/// The words before the first `params:` or `name=value` word.
pub open spec fn leading_terminals(ws: Seq<Seq<char>>) -> Seq<Seq<char>>
    decreases ws.len(),
{
    if ws.len() == 0 || !terminal_word(ws[0]) {
        seq![]
    } else {
        seq![ws[0]] + leading_terminals(ws.drop_first())
    }
}

/// What reading an external library has gathered: the open subcircuits,
/// innermost last; the terminal lists of each `.SUBCKT` of the entry; the
/// number of `.ENDS` that closed the entry.
pub type ExternalScan = (Seq<Seq<char>>, Seq<Seq<Seq<char>>>, nat);

pub open spec fn control_message() -> Seq<char> {
    "external model libraries cannot contain control blocks, file dependencies or plug-in loading; supply a self-contained model library"@
}

/// One statement of an external library, read for the entry `entry`.
pub open spec fn external_step(st: ExternalScan, line: Seq<char>, entry: Seq<char>) -> Result<ExternalScan, ModelFailure> {
    let t = crate::text::trim(line);
    let f = crate::text::words(t);
    if t.len() == 0 || t[0] == '*' {
        Ok(st)
    } else if f.len() > 0 && forbidden_head(f[0]) {
        Err(("KES-C017"@, control_message(), "file"@))
    } else {
        let opens = f.len() > 1 && eq_ignore_case(f[0], ".subckt"@);
        if opens && st.0.len() >= 64 {
            Err(("KES-C017"@, "external model nesting exceeds 64 levels"@, "file"@))
        } else {
            let scope = if opens { st.0.push(f[1]) } else { st.0 };
            let decls = if opens && eq_ignore_case(f[1], entry) {
                st.1.push(leading_terminals(f.skip(2)))
            } else {
                st.1
            };
            if f.len() > 0 && eq_ignore_case(f[0], ".ends"@) {
                if scope.len() == 0 || (f.len() > 1 && !eq_ignore_case(f[1], scope.last())) {
                    Err(("KES-C017"@, "external library has an unmatched or mismatched .ENDS"@, "entry"@))
                } else {
                    let ends = if eq_ignore_case(scope.last(), entry) && (f.len() <= 1 || eq_ignore_case(f[1], entry)) {
                        st.2 + 1
                    } else {
                        st.2
                    };
                    Ok((scope.drop_last(), decls, ends))
                }
            } else {
                Ok((scope, decls, st.2))
            }
        }
    }
}

pub open spec fn external_scan(lines: Seq<Seq<char>>, entry: Seq<char>) -> Result<ExternalScan, ModelFailure>
    decreases lines.len(),
{
    if lines.len() == 0 {
        Ok((seq![], seq![], 0))
    } else {
        match external_scan(lines.drop_last(), entry) {
            Err(e) => Err(e),
            Ok(st) => external_step(st, lines.last(), entry),
        }
    }
}

/// A declared terminal that is really a parameter or holds a control character.
pub open spec fn bad_terminal(ts: Seq<Seq<char>>) -> bool {
    exists|i: int| 0 <= i < ts.len() && (crate::text::starts_with(#[trigger] ts[i], "params:"@) || crate::text::contains_char(ts[i], '=')
        || crate::text::has_control_char(ts[i]))
}


/// What `validate_external_subcircuit_text` decides for a library text, its
/// entry and the number of pins the entry must declare.
pub open spec fn external_text_spec(text: Seq<char>, entry: Seq<char>, pins: nat) -> Result<(), ModelFailure> {
    match crate::model_resources::library_statements_spec(text) {
        Err(m) => Err(("KES-C017"@, m, "file"@)),
        Ok(lines) => match external_scan(lines, entry) {
            Err(e) => Err(e),
            Ok(st) => if st.1.len() != 1 || st.2 != 1 || st.0.len() > 0 {
                Err(
                    (
                        "KES-C017"@,
                        "external model must contain exactly one '.SUBCKT "@ + entry + "' and one matching '.ENDS "@
                            + entry + "'"@,
                        "entry"@,
                    ),
                )
            } else if st.1[0].len() != pins || bad_terminal(st.1[0]) {
                Err(
                    (
                        "KES-C012"@,
                        "external subcircuit '"@ + entry + "' declares "@ + crate::text::nat_text(st.1[0].len())
                            + " positional terminals; expected "@ + crate::text::nat_text(pins),
                        "pins"@,
                    ),
                )
            } else {
                Ok(())
            },
        },
    }
}

pub open spec fn decl_views(d: Seq<Vec<String>>) -> Seq<Seq<Seq<char>>> {
    d.map_values(|v: Vec<String>| views(v@))
}

fn terminal_word_exec(w: &String) -> (r: bool)
    ensures
        r == terminal_word(w@),
{
    !eq_ignore_case_exec(w.as_str(), "params:") && !crate::text::has_char(w.as_str(), '=')
}

fn leading_terminals_exec(f: &Vec<String>) -> (r: Vec<String>)
    requires
        f.len() >= 2,
    ensures
        views(r@) == leading_terminals(views(f@).skip(2)),
{
    let ghost fv = views(f@);
    let mut out: Vec<String> = Vec::new();
    let mut j: usize = 2;
    assert(views(out@) + leading_terminals(fv.skip(2)) =~= leading_terminals(fv.skip(2)));
    while j < f.len() && terminal_word_exec(&f[j])
        invariant
            2 <= j <= f.len(),
            fv == views(f@),
            views(out@) + leading_terminals(fv.skip(j as int)) == leading_terminals(fv.skip(2)),
        decreases f.len() - j,
    {
        assert(fv.skip(j as int)[0] == f@[j as int]@);
        assert(fv.skip(j as int).drop_first() =~= fv.skip(j + 1));
        let ghost before = views(out@);
        out.push(owned(f[j].as_str()));
        assert(views(out@) =~= before.push(fv[j as int]));
        assert(before + (seq![fv[j as int]] + leading_terminals(fv.skip(j + 1))) =~= before.push(fv[j as int])
            + leading_terminals(fv.skip(j + 1)));
        j = j + 1;
    }
    if j < f.len() {
        assert(fv.skip(j as int)[0] == f@[j as int]@);
    }
    assert(leading_terminals(fv.skip(j as int)) =~= Seq::<Seq<char>>::empty());
    assert(views(out@) + Seq::<Seq<char>>::empty() =~= views(out@));
    out
}

fn external_line(
    scope: &mut Vec<String>,
    decls: &mut Vec<Vec<String>>,
    ends: &mut usize,
    line: &String,
    entry: &str,
    model_name: &str,
) -> (r: Result<(), SemanticDiagnostic>)
    requires
        *old(ends) < usize::MAX,
    ensures
        match external_step((views(old(scope)@), decl_views(old(decls)@), *old(ends) as nat), line@, entry@) {
            Ok(v) => r is Ok && (views(final(scope)@), decl_views(final(decls)@), *final(ends) as nat) == v,
            Err(e) => r matches Err(d) && model_error(d, e.0, e.1, Some(model_name@), e.2),
        },
{
    let ghost st = (views(scope@), decl_views(decls@), *ends as nat);
    let t = crate::text::trimmed(line.as_str());
    let tc = chars_of(t.as_str());
    if tc.len() == 0 || tc[0] == '*' {
        return Ok(());
    }
    let f = crate::text::words_of(t.as_str());
    if f.len() > 0 {
        let l = crate::text::to_lower(f[0].as_str());
        let ls = l.as_str();
        if text_is(ls, ".control") || text_is(ls, ".endc") || text_is(ls, ".include") || text_is(ls, ".inc")
            || text_is(ls, ".lib") || text_is(ls, ".end") || text_is(ls, ".load") || text_is(ls, ".osdi") {
            return Err(
                error(
                    "KES-C017",
                    owned(
                        "external model libraries cannot contain control blocks, file dependencies or plug-in loading; supply a self-contained model library",
                    ),
                    Some(model_name),
                    "file",
                ),
            );
        }
    }
    let opens = f.len() > 1 && eq_ignore_case_exec(f[0].as_str(), ".subckt");
    if opens && scope.len() >= 64 {
        return Err(error("KES-C017", owned("external model nesting exceeds 64 levels"), Some(model_name), "file"));
    }
    if opens {
        scope.push(owned(f[1].as_str()));
        if eq_ignore_case_exec(f[1].as_str(), entry) {
            let ts = leading_terminals_exec(&f);
            decls.push(ts);
        }
    }
    let ghost scope1 = views(scope@);
    let ghost decls1 = decl_views(decls@);
    assert(scope1 == if opens { st.0.push(views(f@)[1]) } else { st.0 });
    assert(decls1 == if opens && eq_ignore_case(views(f@)[1], entry@) {
        st.1.push(leading_terminals(views(f@).skip(2)))
    } else {
        st.1
    });
    if f.len() > 0 && eq_ignore_case_exec(f[0].as_str(), ".ends") {
        if scope.len() == 0 {
            return Err(
                error("KES-C017", owned("external library has an unmatched or mismatched .ENDS"), Some(model_name), "entry"),
            );
        }
        let last = scope.len() - 1;
        if f.len() > 1 && !eq_ignore_case_exec(f[1].as_str(), scope[last].as_str()) {
            return Err(
                error("KES-C017", owned("external library has an unmatched or mismatched .ENDS"), Some(model_name), "entry"),
            );
        }
        if eq_ignore_case_exec(scope[last].as_str(), entry) && (f.len() <= 1 || eq_ignore_case_exec(
            f[1].as_str(),
            entry,
        )) {
            *ends = *ends + 1;
        }
        scope.pop();
        assert(views(scope@) =~= scope1.drop_last());
    }
    Ok(())
}


proof fn lemma_external_stops(lines: Seq<Seq<char>>, entry: Seq<char>, k: int)
    requires
        0 <= k < lines.len(),
        external_scan(lines.take(k + 1), entry) is Err,
    ensures
        external_scan(lines, entry) == external_scan(lines.take(k + 1), entry),
    decreases lines.len() - k,
{
    if k + 1 < lines.len() {
        assert(lines.drop_last().take(k + 1) =~= lines.take(k + 1));
        lemma_external_stops(lines.drop_last(), entry, k);
    } else {
        assert(lines.take(k + 1) =~= lines);
    }
}

fn bad_terminal_exec(ts: &Vec<String>) -> (r: bool)
    ensures
        r == bad_terminal(views(ts@)),
{
    let ghost tv = views(ts@);
    let mut i: usize = 0;
    while i < ts.len()
        invariant
            i <= ts.len(),
            tv == views(ts@),
            forall|j: int| 0 <= j < i ==> !(crate::text::starts_with(#[trigger] tv[j], "params:"@)
                || crate::text::contains_char(tv[j], '=') || crate::text::has_control_char(tv[j])),
        decreases ts.len() - i,
    {
        let t = ts[i].as_str();
        if crate::text::starts_with_exec(t, "params:") || crate::text::has_char(t, '=') || crate::text::has_control_exec(t) {
            assert(tv[i as int] == ts@[i as int]@);
            return true;
        }
        i = i + 1;
    }
    false
}

/// Checks that an external library is self-contained and holds exactly one
/// definition of `entry`, closed once, declaring `expected_pin_count`
/// positional terminals.
pub fn validate_external_subcircuit_text(
    text: &str,
    entry: &str,
    expected_pin_count: usize,
    model_name: &str,
) -> (r: Result<(), SemanticDiagnostic>)
    ensures
        match external_text_spec(text@, entry@, expected_pin_count as nat) {
            Ok(()) => r is Ok,
            Err(e) => r matches Err(d) && model_error(d, e.0, e.1, Some(model_name@), e.2),
        },
{
    let lines = match crate::model_resources::library_statements(text) {
        Err(m) => {
            return Err(error("KES-C017", m, Some(model_name), "file"));
        },
        Ok(v) => v,
    };
    let ghost lv = views(lines@);
    let mut scope: Vec<String> = Vec::new();
    let mut decls: Vec<Vec<String>> = Vec::new();
    let mut ends: usize = 0;
    let mut k: usize = 0;
    assert(views(scope@) =~= Seq::<Seq<char>>::empty());
    assert(decl_views(decls@) =~= Seq::<Seq<Seq<char>>>::empty());
    assert(lv.take(0) =~= Seq::<Seq<char>>::empty());
    while k < lines.len()
        invariant
            k <= lines.len(),
            lv == views(lines@),
            ends <= k,
            crate::model_resources::library_statements_spec(text@) == Ok::<Seq<Seq<char>>, Seq<char>>(lv),
            external_scan(lv.take(k as int), entry@) == Ok::<ExternalScan, ModelFailure>(
                (views(scope@), decl_views(decls@), ends as nat),
            ),
        decreases lines.len() - k,
    {
        assert(lv.take(k + 1).drop_last() =~= lv.take(k as int));
        assert(lv.take(k + 1).last() == lines@[k as int]@);
        match external_line(&mut scope, &mut decls, &mut ends, &lines[k], entry, model_name) {
            Err(d) => {
                proof {
                    lemma_external_stops(lv, entry@, k as int);
                }
                return Err(d);
            },
            Ok(()) => {},
        }
        k = k + 1;
    }
    assert(lv.take(k as int) =~= lv);
    if decls.len() != 1 || ends != 1 || scope.len() > 0 {
        let mut m = owned("external model must contain exactly one '.SUBCKT ");
        append_str(&mut m, entry);
        append_str(&mut m, "' and one matching '.ENDS ");
        append_str(&mut m, entry);
        append_str(&mut m, "'");
        return Err(error("KES-C017", m, Some(model_name), "entry"));
    }
    assert(decl_views(decls@)[0] == views(decls@[0]@));
    if decls[0].len() != expected_pin_count || bad_terminal_exec(&decls[0]) {
        let mut m = owned("external subcircuit '");
        append_str(&mut m, entry);
        append_str(&mut m, "' declares ");
        append_str(&mut m, crate::text::usize_text(decls[0].len()).as_str());
        append_str(&mut m, " positional terminals; expected ");
        append_str(&mut m, crate::text::usize_text(expected_pin_count).as_str());
        return Err(error("KES-C012", m, Some(model_name), "pins"));
    }
    Ok(())
}


// ---------------------------------------------------------------------------
// External subcircuit declarations.

/// The component kind an external declaration names, ignoring ASCII case.
pub open spec fn external_kind(k: Seq<char>) -> Option<ComponentKind> {
    let l = crate::text::lower(k);
    if l == "opamp"@ {
        Some(ComponentKind::OpAmp)
    } else if l == "comparator"@ {
        Some(ComponentKind::ExternalDevice(ExternalDeviceFamily::Comparator))
    } else if l == "two_terminal"@ {
        Some(ComponentKind::ExternalDevice(ExternalDeviceFamily::TwoTerminal))
    } else {
        None
    }
}

pub open spec fn external_field_allowed(k: Seq<char>) -> bool {
    k == "file"@ || k == "entry"@ || k == "sha256"@ || k == "version"@ || k == "license"@ || k == "source"@
        || k == "simulator"@ || k == "redistribution"@
}

/// The value of the first field with exactly this key.
pub open spec fn exact_value(fs: Seq<(Seq<char>, Seq<char>)>, key: Seq<char>) -> Option<Seq<char>>
    decreases fs.len(),
{
    if fs.len() == 0 {
        None
    } else if fs[0].0 == key {
        Some(fs[0].1)
    } else {
        exact_value(fs.drop_first(), key)
    }
}

/// The fields of a declaration under their lower-cased names, or the first
/// unknown or repeated field as (message, field).
pub open spec fn external_fields(ps: Seq<(Seq<char>, Seq<char>)>) -> Result<
    Seq<(Seq<char>, Seq<char>)>,
    (Seq<char>, Seq<char>),
>
    decreases ps.len(),
{
    if ps.len() == 0 {
        Ok(seq![])
    } else {
        match external_fields(ps.drop_last()) {
            Err(e) => Err(e),
            Ok(fs) => {
                let n = ps.last().0;
                let key = crate::text::lower(n);
                if !external_field_allowed(key) {
                    Err(
                        (
                            "unsupported external subcircuit field '"@ + n
                                + "'; allowed fields: file, entry, sha256, version, license, source, simulator, redistribution"@,
                            n,
                        ),
                    )
                } else if exact_value(fs, key) is Some {
                    Err(("duplicate external subcircuit field '"@ + n + "'"@, n))
                } else {
                    Ok(fs.push((key, ps.last().1)))
                }
            },
        }
    }
}

pub open spec fn required_message(f: Seq<char>) -> Seq<char> {
    "external subcircuit requires "@ + f + " metadata"@
}

pub open spec fn simulator_mode(l: Seq<char>) -> Option<SimulatorCompatibility> {
    if l == "ngspice"@ {
        Some(SimulatorCompatibility::Ngspice)
    } else if l == "ngspice_ps"@ {
        Some(SimulatorCompatibility::NgspicePs)
    } else {
        None
    }
}

pub open spec fn redistribution_mode(l: Seq<char>) -> Option<RedistributionPolicy> {
    if l == "permitted"@ {
        Some(RedistributionPolicy::Permitted)
    } else if l == "prohibited"@ {
        Some(RedistributionPolicy::Prohibited)
    } else {
        None
    }
}

/// The required fields: file, entry, lower-cased sha256, version, license,
/// source, simulator mode and redistribution policy.
pub type ExternalFields = (
    Seq<char>,
    Seq<char>,
    Seq<char>,
    Seq<char>,
    Seq<char>,
    Seq<char>,
    SimulatorCompatibility,
    RedistributionPolicy,
);

pub open spec fn missing_required(f: Seq<char>) -> ModelFailure {
    ("KES-C014"@, required_message(f), f)
}

pub open spec fn external_required(fs: Seq<(Seq<char>, Seq<char>)>) -> Result<ExternalFields, ModelFailure> {
    match exact_value(fs, "file"@) {
        None => Err(missing_required("file"@)),
        Some(file) => match exact_value(fs, "entry"@) {
            None => Err(missing_required("entry"@)),
            Some(entry) => match exact_value(fs, "sha256"@) {
                None => Err(missing_required("sha256"@)),
                Some(h) => match exact_value(fs, "version"@) {
                    None => Err(missing_required("version"@)),
                    Some(version) => match exact_value(fs, "license"@) {
                        None => Err(missing_required("license"@)),
                        Some(license) => match exact_value(fs, "source"@) {
                            None => Err(missing_required("source"@)),
                            Some(source) => match exact_value(fs, "simulator"@) {
                                None => Err(missing_required("simulator"@)),
                                Some(sv) => match simulator_mode(crate::text::lower(sv)) {
                                    None => Err(
                                        (
                                            "KES-C014"@,
                                            "unsupported external simulator mode '"@ + crate::text::lower(sv)
                                                + "'; expected ngspice or ngspice_ps"@,
                                            "simulator"@,
                                        ),
                                    ),
                                    Some(sim) => match exact_value(fs, "redistribution"@) {
                                        None => Err(missing_required("redistribution"@)),
                                        Some(rv) => match redistribution_mode(crate::text::lower(rv)) {
                                            None => Err(
                                                (
                                                    "KES-C014"@,
                                                    "unsupported redistribution policy '"@ + crate::text::lower(rv)
                                                        + "'; expected permitted or prohibited"@,
                                                    "redistribution"@,
                                                ),
                                            ),
                                            Some(red) => Ok(
                                                (file, entry, crate::text::lower(h), version, license, source, sim, red),
                                            ),
                                        },
                                    },
                                },
                            },
                        },
                    },
                },
            },
        },
    }
}

/// Metadata that is empty, longer than 1024 bytes, or holds a control
/// character or a quote.
pub open spec fn unsafe_metadata(v: Seq<char>) -> bool {
    v.len() == 0 || utf8_len(v) > 1024 || exists|i: int|
        0 <= i < v.len() && (crate::text::is_control(#[trigger] v[i]) || v[i] == '"' || v[i] == '\'')
}

/// Exactly 64 hexadecimal digits.
pub open spec fn hex64(h: Seq<char>) -> bool {
    h.len() == 64 && forall|i: int| 0 <= i < h.len() ==> crate::text::is_ascii_hex(#[trigger] h[i])
}

pub open spec fn reference_reason() -> Seq<char> {
    "file must be a source-relative forward-slash path without traversal or control characters"@
}

pub open spec fn external_metadata_check(x: ExternalFields) -> Result<(), ModelFailure> {
    if !valid_reference(x.0) {
        Err(("KES-C014"@, "invalid external model file reference '"@ + x.0 + "': "@ + reference_reason(), "file"@))
    } else if !safe_identifier(x.1) {
        Err(("KES-C014"@, "invalid external subcircuit entry '"@ + x.1 + "'"@, "entry"@))
    } else if !hex64(x.2) {
        Err(("KES-C014"@, "external subcircuit sha256 must contain exactly 64 hexadecimal characters"@, "sha256"@))
    } else if unsafe_metadata(x.3) {
        Err(("KES-C014"@, "unsafe or invalid external version metadata"@, "version"@))
    } else if unsafe_metadata(x.4) {
        Err(("KES-C014"@, "unsafe or invalid external license metadata"@, "license"@))
    } else if unsafe_metadata(x.5) {
        Err(("KES-C014"@, "unsafe or invalid external source metadata"@, "source"@))
    } else {
        Ok(())
    }
}

/// The bound file is present, at most 16 MiB, has the declared digest, is
/// UTF-8, and defines the entry with `pins` terminals; the digest it has.
pub open spec fn external_resource_check(
    x: ExternalFields,
    res: Seq<(Seq<char>, Seq<u8>)>,
    pins: nat,
    name: Seq<char>,
) -> Result<Seq<char>, ModelFailure> {
    match bound_bytes(res, x.0) {
        None => Err(("KES-C015"@, "external model resource '"@ + x.0 + "' was not supplied"@, "file"@)),
        Some(b) => if b.len() > MAX_EXTERNAL_MODEL_BYTES {
            Err(("KES-C015"@, "external model resource '"@ + x.0 + "' exceeds the 16777216 byte limit"@, "file"@))
        } else if sha256_hex_spec(b) != x.2 {
            Err(
                (
                    "KES-C016"@,
                    "external model resource '"@ + x.0 + "' hash mismatch: expected sha256:"@ + x.2 + ", got sha256:"@
                        + sha256_hex_spec(b),
                    "sha256"@,
                ),
            )
        } else if !vstd::utf8::valid_utf8(b) {
            Err(("KES-C017"@, "external model resource '"@ + x.0 + "' is not valid UTF-8"@, "file"@))
        } else {
            match external_text_spec(vstd::utf8::decode_utf8(b), x.1, pins) {
                Err(e) => Err(e),
                Ok(()) => Ok(sha256_hex_spec(b)),
            }
        },
    }
}

/// What compiling an external subcircuit declaration (kind, name, pins,
/// fields) against the bound files gives: its kind, required fields and the
/// digest of its file.
pub open spec fn compile_external_spec(
    d: (Seq<char>, Seq<char>, Seq<Seq<char>>, Seq<(Seq<char>, Seq<char>)>),
    res: Seq<(Seq<char>, Seq<u8>)>,
) -> Result<(ComponentKind, ExternalFields, Seq<char>), ModelFailure> {
    match external_kind(d.0) {
        None => Err(("KES-C014"@, "unsupported external subcircuit kind '"@ + d.0 + "'"@, "kind"@)),
        Some(kind) => if d.2 != pin_names(kind) {
            Err(
                (
                    "KES-C012"@,
                    "external device '"@ + d.1 + "' pins "@ + debug_list_spec(d.2) + " must exactly match catalog order "@
                        + debug_list_spec(pin_names(kind)),
                    "pins"@,
                ),
            )
        } else {
            match external_fields(d.3) {
                Err(e) => Err(("KES-C014"@, e.0, e.1)),
                Ok(fs) => match external_required(fs) {
                    Err(e) => Err(e),
                    Ok(x) => match external_metadata_check(x) {
                        Err(e) => Err(e),
                        Ok(()) => match external_resource_check(x, res, pin_names(kind).len(), d.1) {
                            Err(e) => Err(e),
                            Ok(digest) => Ok((kind, x, digest)),
                        },
                    },
                },
            }
        },
    }
}

pub open spec fn simulator_text(s: SimulatorCompatibility) -> Seq<char> {
    match s {
        SimulatorCompatibility::Ngspice => "ngspice"@,
        SimulatorCompatibility::NgspicePs => "ngspice_ps"@,
    }
}

/// `m` is the external model `name` built from these parts.
pub open spec fn is_external_model(m: ModelRef, name: Seq<char>, kind: ComponentKind, x: ExternalFields, digest: Seq<char>) -> bool {
    &&& m.name@ == name
    &&& m.kind == kind
    &&& m.source == ModelSource::External
    &&& m.definition matches ModelDefinition::ExternalSubcircuit { metadata } && metadata.resource@ == x.0
        && metadata.entry@ == x.1 && views(metadata.pins@) == pin_names(kind) && metadata.simulator == x.6
        && metadata.redistribution == x.7 && metadata.instance_parameters@.len() == 0
    &&& m.provenance.version@ == x.3
    &&& m.provenance.license@ == x.4
    &&& m.provenance.source@ == x.5
    &&& m.provenance.content_hash@ == "sha256:"@ + digest
    &&& m.provenance.simulator@ == simulator_text(x.6)
}


pub type ExternalFieldsExec = (String, String, String, String, String, String, SimulatorCompatibility, RedistributionPolicy);

pub open spec fn fields_view(y: ExternalFieldsExec) -> ExternalFields {
    (y.0@, y.1@, y.2@, y.3@, y.4@, y.5@, y.6, y.7)
}

fn external_kind_exec(k: &str) -> (r: Option<ComponentKind>)
    ensures
        r == external_kind(k@),
{
    let l = crate::text::to_lower(k);
    let ls = l.as_str();
    if text_is(ls, "opamp") {
        Some(ComponentKind::OpAmp)
    } else if text_is(ls, "comparator") {
        Some(ComponentKind::ExternalDevice(ExternalDeviceFamily::Comparator))
    } else if text_is(ls, "two_terminal") {
        Some(ComponentKind::ExternalDevice(ExternalDeviceFamily::TwoTerminal))
    } else {
        None
    }
}

fn exact_lookup(fs: &Vec<(String, String)>, key: &str) -> (r: Option<String>)
    ensures
        match exact_value(pair_views(fs@), key@) {
            Some(v) => r matches Some(x) && x@ == v,
            None => r is None,
        },
{
    let ghost pv = pair_views(fs@);
    let mut i: usize = 0;
    assert(pv.skip(0) =~= pv);
    while i < fs.len()
        invariant
            i <= fs.len(),
            pv == pair_views(fs@),
            exact_value(pv, key@) == exact_value(pv.skip(i as int), key@),
        decreases fs.len() - i,
    {
        assert(pv.skip(i as int)[0] == (fs@[i as int].0@, fs@[i as int].1@));
        assert(pv.skip(i as int).drop_first() =~= pv.skip(i + 1));
        if text_is(fs[i].0.as_str(), key) {
            return Some(owned(fs[i].1.as_str()));
        }
        i = i + 1;
    }
    assert(pv.skip(i as int) =~= Seq::<(Seq<char>, Seq<char>)>::empty());
    None
}

proof fn lemma_fields_stop(ps: Seq<(Seq<char>, Seq<char>)>, k: int)
    requires
        0 <= k < ps.len(),
        external_fields(ps.take(k + 1)) is Err,
    ensures
        external_fields(ps) == external_fields(ps.take(k + 1)),
    decreases ps.len() - k,
{
    if k + 1 < ps.len() {
        assert(ps.drop_last().take(k + 1) =~= ps.take(k + 1));
        lemma_fields_stop(ps.drop_last(), k);
    } else {
        assert(ps.take(k + 1) =~= ps);
    }
}

fn external_field_allowed_exec(k: &str) -> (r: bool)
    ensures
        r == external_field_allowed(k@),
{
    text_is(k, "file") || text_is(k, "entry") || text_is(k, "sha256") || text_is(k, "version") || text_is(k, "license")
        || text_is(k, "source") || text_is(k, "simulator") || text_is(k, "redistribution")
}

fn collect_fields(ps: &Vec<crate::ast::NamedValue>) -> (r: Result<Vec<(String, String)>, (String, String)>)
    ensures
        match external_fields(crate::ast::named_views(ps@)) {
            Ok(fs) => r matches Ok(x) && pair_views(x@) == fs,
            Err(e) => r matches Err(x) && (x.0@, x.1@) == e,
        },
{
    let ghost pv = crate::ast::named_views(ps@);
    let mut fs: Vec<(String, String)> = Vec::new();
    let mut k: usize = 0;
    assert(pv.take(0) =~= Seq::<(Seq<char>, Seq<char>)>::empty());
    assert(pair_views(fs@) =~= Seq::<(Seq<char>, Seq<char>)>::empty());
    while k < ps.len()
        invariant
            k <= ps.len(),
            pv == crate::ast::named_views(ps@),
            external_fields(pv.take(k as int)) == Ok::<Seq<(Seq<char>, Seq<char>)>, (Seq<char>, Seq<char>)>(
                pair_views(fs@),
            ),
        decreases ps.len() - k,
    {
        assert(pv.take(k + 1).drop_last() =~= pv.take(k as int));
        assert(pv.take(k + 1).last() == (ps@[k as int].name@, ps@[k as int].value@));
        let n = &ps[k].name;
        let key = crate::text::to_lower(n.as_str());
        if !external_field_allowed_exec(key.as_str()) {
            let mut m = owned("unsupported external subcircuit field '");
            append_str(&mut m, n.as_str());
            append_str(
                &mut m,
                "'; allowed fields: file, entry, sha256, version, license, source, simulator, redistribution",
            );
            proof {
                lemma_fields_stop(pv, k as int);
            }
            return Err((m, owned(n.as_str())));
        }
        if exact_lookup(&fs, key.as_str()).is_some() {
            let mut m = owned("duplicate external subcircuit field '");
            append_str(&mut m, n.as_str());
            append_str(&mut m, "'");
            proof {
                lemma_fields_stop(pv, k as int);
            }
            return Err((m, owned(n.as_str())));
        }
        let ghost before = pair_views(fs@);
        fs.push((key, owned(ps[k].value.as_str())));
        assert(pair_views(fs@) =~= before.push((crate::text::lower(pv[k as int].0), pv[k as int].1)));
        k = k + 1;
    }
    assert(pv.take(k as int) =~= pv);
    Ok(fs)
}

fn required_field(fs: &Vec<(String, String)>, key: &str, name: &str) -> (r: Result<String, SemanticDiagnostic>)
    ensures
        match exact_value(pair_views(fs@), key@) {
            Some(v) => r matches Ok(x) && x@ == v,
            None => r matches Err(d) && model_error(d, "KES-C014"@, required_message(key@), Some(name@), key@),
        },
{
    match exact_lookup(fs, key) {
        Some(v) => Ok(v),
        None => {
            let mut m = owned("external subcircuit requires ");
            append_str(&mut m, key);
            append_str(&mut m, " metadata");
            Err(error("KES-C014", m, Some(name), key))
        },
    }
}

fn external_required_exec(fs: &Vec<(String, String)>, name: &str) -> (r: Result<ExternalFieldsExec, SemanticDiagnostic>)
    ensures
        match external_required(pair_views(fs@)) {
            Ok(x) => r matches Ok(y) && fields_view(y) == x,
            Err(e) => r matches Err(d) && model_error(d, e.0, e.1, Some(name@), e.2),
        },
{
    let file = match required_field(fs, "file", name) {
        Err(d) => {
            return Err(d);
        },
        Ok(v) => v,
    };
    let entry = match required_field(fs, "entry", name) {
        Err(d) => {
            return Err(d);
        },
        Ok(v) => v,
    };
    let hash = match required_field(fs, "sha256", name) {
        Err(d) => {
            return Err(d);
        },
        Ok(v) => crate::text::to_lower(v.as_str()),
    };
    let version = match required_field(fs, "version", name) {
        Err(d) => {
            return Err(d);
        },
        Ok(v) => v,
    };
    let license = match required_field(fs, "license", name) {
        Err(d) => {
            return Err(d);
        },
        Ok(v) => v,
    };
    let source = match required_field(fs, "source", name) {
        Err(d) => {
            return Err(d);
        },
        Ok(v) => v,
    };
    let sv = match required_field(fs, "simulator", name) {
        Err(d) => {
            return Err(d);
        },
        Ok(v) => crate::text::to_lower(v.as_str()),
    };
    let sim = if text_is(sv.as_str(), "ngspice") {
        SimulatorCompatibility::Ngspice
    } else if text_is(sv.as_str(), "ngspice_ps") {
        SimulatorCompatibility::NgspicePs
    } else {
        let mut m = owned("unsupported external simulator mode '");
        append_str(&mut m, sv.as_str());
        append_str(&mut m, "'; expected ngspice or ngspice_ps");
        return Err(error("KES-C014", m, Some(name), "simulator"));
    };
    let rv = match required_field(fs, "redistribution", name) {
        Err(d) => {
            return Err(d);
        },
        Ok(v) => crate::text::to_lower(v.as_str()),
    };
    let red = if text_is(rv.as_str(), "permitted") {
        RedistributionPolicy::Permitted
    } else if text_is(rv.as_str(), "prohibited") {
        RedistributionPolicy::Prohibited
    } else {
        let mut m = owned("unsupported redistribution policy '");
        append_str(&mut m, rv.as_str());
        append_str(&mut m, "'; expected permitted or prohibited");
        return Err(error("KES-C014", m, Some(name), "redistribution"));
    };
    Ok((file, entry, hash, version, license, source, sim, red))
}

fn unsafe_metadata_exec(v: &String) -> (r: bool)
    ensures
        r == unsafe_metadata(v@),
{
    let cs = chars_of(v.as_str());
    if cs.len() == 0 {
        return true;
    }
    if crate::text::byte_len_capped(&cs, 1024) > 1024 {
        return true;
    }
    let mut i: usize = 0;
    while i < cs.len()
        invariant
            i <= cs.len(),
            cs@ == v@,
            forall|j: int| 0 <= j < i ==> !(crate::text::is_control(#[trigger] cs@[j]) || cs@[j] == '"' || cs@[j] == '\''),
        decreases cs.len() - i,
    {
        let c = cs[i];
        if crate::text::is_control_exec(c) || c == '"' || c == '\'' {
            return true;
        }
        i = i + 1;
    }
    false
}

fn hex64_exec(h: &String) -> (r: bool)
    ensures
        r == hex64(h@),
{
    let cs = chars_of(h.as_str());
    if cs.len() != 64 {
        return false;
    }
    let mut i: usize = 0;
    while i < cs.len()
        invariant
            i <= cs.len(),
            cs@ == h@,
            forall|j: int| 0 <= j < i ==> crate::text::is_ascii_hex(#[trigger] cs@[j]),
        decreases cs.len() - i,
    {
        if !crate::text::is_hex_exec(cs[i]) {
            return false;
        }
        i = i + 1;
    }
    true
}

fn metadata_check_exec(x: &ExternalFieldsExec, name: &str) -> (r: Result<(), SemanticDiagnostic>)
    ensures
        match external_metadata_check(fields_view(*x)) {
            Ok(()) => r is Ok,
            Err(e) => r matches Err(d) && model_error(d, e.0, e.1, Some(name@), e.2),
        },
{
    match validate_external_resource_reference(x.0.as_str()) {
        Err(reason) => {
            let mut m = owned("invalid external model file reference '");
            append_str(&mut m, x.0.as_str());
            append_str(&mut m, "': ");
            append_str(&mut m, reason.as_str());
            return Err(error("KES-C014", m, Some(name), "file"));
        },
        Ok(()) => {},
    }
    if !is_safe_identifier(x.1.as_str()) {
        let mut m = owned("invalid external subcircuit entry '");
        append_str(&mut m, x.1.as_str());
        append_str(&mut m, "'");
        return Err(error("KES-C014", m, Some(name), "entry"));
    }
    if !hex64_exec(&x.2) {
        return Err(
            error(
                "KES-C014",
                owned("external subcircuit sha256 must contain exactly 64 hexadecimal characters"),
                Some(name),
                "sha256",
            ),
        );
    }
    if unsafe_metadata_exec(&x.3) {
        return Err(error("KES-C014", owned("unsafe or invalid external version metadata"), Some(name), "version"));
    }
    if unsafe_metadata_exec(&x.4) {
        return Err(error("KES-C014", owned("unsafe or invalid external license metadata"), Some(name), "license"));
    }
    if unsafe_metadata_exec(&x.5) {
        return Err(error("KES-C014", owned("unsafe or invalid external source metadata"), Some(name), "source"));
    }
    Ok(())
}


/// Compiles an external subcircuit declaration: a supported kind with the
/// catalog's pins, exactly the known metadata fields, a safe file reference
/// and entry, and a bound file with the declared SHA-256 digest whose text
/// defines the entry with the right number of terminals.
pub fn compile_external_subcircuit(
    declaration: &crate::ast::ExternalSubcircuitDecl,
    resources: &ExternalModelResources,
) -> (r: Result<ModelRef, SemanticDiagnostic>)
    ensures
        match compile_external_spec(
            (declaration.kind@, declaration.name@, views(declaration.pins@), crate::ast::named_views(declaration.parameters@)),
            resources@,
        ) {
            Ok((kind, x, digest)) => r matches Ok(m) && is_external_model(m, declaration.name@, kind, x, digest),
            Err(e) => r matches Err(d) && model_error(d, e.0, e.1, Some(declaration.name@), e.2),
        },
{
    let name = declaration.name.as_str();
    let kind = match external_kind_exec(declaration.kind.as_str()) {
        None => {
            let mut m = owned("unsupported external subcircuit kind '");
            append_str(&mut m, declaration.kind.as_str());
            append_str(&mut m, "'");
            return Err(error("KES-C014", m, Some(name), "kind"));
        },
        Some(k) => k,
    };
    let expected = catalog_pin_names(&kind);
    if !same_text_lists(&declaration.pins, &expected) {
        let mut m = owned("external device '");
        append_str(&mut m, name);
        append_str(&mut m, "' pins ");
        append_str(&mut m, debug_list(&declaration.pins).as_str());
        append_str(&mut m, " must exactly match catalog order ");
        append_str(&mut m, debug_list(&expected).as_str());
        return Err(error("KES-C012", m, Some(name), "pins"));
    }
    let fs = match collect_fields(&declaration.parameters) {
        Err((m, f)) => {
            return Err(error("KES-C014", m, Some(name), f.as_str()));
        },
        Ok(v) => v,
    };
    let x = match external_required_exec(&fs, name) {
        Err(d) => {
            return Err(d);
        },
        Ok(v) => v,
    };
    match metadata_check_exec(&x, name) {
        Err(d) => {
            return Err(d);
        },
        Ok(()) => {},
    }
    let bytes = match resources.get(x.0.as_str()) {
        None => {
            let mut m = owned("external model resource '");
            append_str(&mut m, x.0.as_str());
            append_str(&mut m, "' was not supplied");
            return Err(error("KES-C015", m, Some(name), "file"));
        },
        Some(b) => b,
    };
    if bytes.len() > MAX_EXTERNAL_MODEL_BYTES {
        let mut m = owned("external model resource '");
        append_str(&mut m, x.0.as_str());
        append_str(&mut m, "' exceeds the 16777216 byte limit");
        return Err(error("KES-C015", m, Some(name), "file"));
    }
    let actual = sha256_hex(bytes.as_slice());
    if !text_is(actual.as_str(), x.2.as_str()) {
        let mut m = owned("external model resource '");
        append_str(&mut m, x.0.as_str());
        append_str(&mut m, "' hash mismatch: expected sha256:");
        append_str(&mut m, x.2.as_str());
        append_str(&mut m, ", got sha256:");
        append_str(&mut m, actual.as_str());
        return Err(error("KES-C016", m, Some(name), "sha256"));
    }
    let text = match crate::text::utf8_text(bytes.as_slice()) {
        None => {
            let mut m = owned("external model resource '");
            append_str(&mut m, x.0.as_str());
            append_str(&mut m, "' is not valid UTF-8");
            return Err(error("KES-C017", m, Some(name), "file"));
        },
        Some(t) => t,
    };
    proof {
        vstd::utf8::encode_utf8_decode_utf8(text@);
        vstd::utf8::encode_utf8_valid_utf8(text@);
    }
    match validate_external_subcircuit_text(text, x.1.as_str(), expected.len(), name) {
        Err(d) => {
            return Err(d);
        },
        Ok(()) => {},
    }
    let mut content_hash = owned("sha256:");
    append_str(&mut content_hash, actual.as_str());
    let simulator = match x.6 {
        SimulatorCompatibility::Ngspice => owned("ngspice"),
        SimulatorCompatibility::NgspicePs => owned("ngspice_ps"),
    };
    let metadata = ExternalModelMetadata {
        resource: x.0,
        entry: x.1,
        pins: expected,
        simulator: x.6,
        redistribution: x.7,
        instance_parameters: Vec::new(),
    };
    Ok(
        ModelRef {
            name: owned(name),
            kind,
            source: ModelSource::External,
            definition: ModelDefinition::ExternalSubcircuit { metadata },
            provenance: ModelProvenance { source: x.5, license: x.4, version: x.3, content_hash, simulator },
        },
    )
}


// ---------------------------------------------------------------------------
// Packages and user model metadata.

/// The opamp of the `kessetsu_analog` package: gain 500000 and a
/// bandwidth of 2 MHz, so a pole capacitance of 500000 / (2π · 2e6).
pub open spec fn package_entry() -> BuiltinEntry {
    (
        "KESSETSU_PACKAGE_OPAMP"@,
        ComponentKind::OpAmp,
        ModelSource::Package,
        opamp_directive("KESSETSU_PACKAGE_OPAMP"@, "500000"@, "0.039788735772974"@),
        true,
        "Kessetsu kessetsu_analog package"@,
        "Apache-2.0"@,
        "1.0.0"@,
    )
}

pub open spec fn unavailable_package(name: Seq<char>, version: Seq<char>) -> Seq<char> {
    "unavailable model package '"@ + name + "@"@ + version + "'; supported package is kessetsu_analog@1.0.0"@
}

/// The package record and models of the one available package,
/// `kessetsu_analog` version `1.0.0`.
pub fn resolve_package(name: &str, version: &str) -> (r: Result<(ResolvedModelPackage, Vec<ModelRef>), SemanticDiagnostic>)
    ensures
        if name@ == "kessetsu_analog"@ && version@ == "1.0.0"@ {
            r matches Ok((p, ms)) && p.name@ == "kessetsu_analog"@ && p.version@ == "1.0.0"@ && p.license@
                == "Apache-2.0"@ && p.content_hash@ == content_hash_spec(package_entry().3) && ms@.len() == 1
                && is_builtin(ms@[0], package_entry())
        } else {
            r matches Err(d) && model_error(d, "KES-C011"@, unavailable_package(name@, version@), None, "model_include"@)
        },
{
    if !text_is(name, "kessetsu_analog") || !text_is(version, "1.0.0") {
        let mut m = owned("unavailable model package '");
        append_str(&mut m, name);
        append_str(&mut m, "@");
        append_str(&mut m, version);
        append_str(&mut m, "'; supported package is kessetsu_analog@1.0.0");
        return Err(error("KES-C011", m, None, "model_include"));
    }
    let model = opamp_model(
        "KESSETSU_PACKAGE_OPAMP",
        ModelSource::Package,
        "Kessetsu kessetsu_analog package",
        "Apache-2.0",
        "1.0.0",
        "500000",
        "0.039788735772974",
    );
    let hash = match &model.definition {
        ModelDefinition::Subcircuit { directive, .. } => content_hash(directive.as_str()),
        ModelDefinition::Device { directive } => content_hash(directive.as_str()),
        ModelDefinition::ExternalSubcircuit { .. } => owned(""),
    };
    let package = ResolvedModelPackage {
        name: owned("kessetsu_analog"),
        version: owned("1.0.0"),
        license: owned("Apache-2.0"),
        content_hash: hash,
    };
    let mut models: Vec<ModelRef> = Vec::new();
    models.push(model);
    Ok((package, models))
}

/// Version, license and source of a user model or subcircuit.
#[derive(Debug, Clone)]
pub struct ModelMetadata {
    pub version: String,
    pub license: String,
    pub source: String,
}

pub open spec fn metadata_key(k: Seq<char>) -> bool {
    k == "version"@ || k == "license"@ || k == "source"@
}

/// The metadata fields under lower-cased names and the other fields, in
/// order, or the first repeated metadata field.
pub open spec fn metadata_split(ps: Seq<(Seq<char>, Seq<char>)>) -> Result<
    (Seq<(Seq<char>, Seq<char>)>, Seq<(Seq<char>, Seq<char>)>),
    Seq<char>,
>
    decreases ps.len(),
{
    if ps.len() == 0 {
        Ok((seq![], seq![]))
    } else {
        match metadata_split(ps.drop_last()) {
            Err(n) => Err(n),
            Ok((meta, rest)) => {
                let key = crate::text::lower(ps.last().0);
                if metadata_key(key) {
                    if exact_value(meta, key) is Some {
                        Err(ps.last().0)
                    } else {
                        Ok((meta.push((key, ps.last().1)), rest))
                    }
                } else {
                    Ok((meta, rest.push(ps.last())))
                }
            },
        }
    }
}

/// A metadata character: ASCII letters and digits, `.`, space, `_`, `+`, `-`, `/`.
pub open spec fn metadata_char(c: char) -> bool {
    crate::text::is_ascii_alnum(c) || c == '.' || c == ' ' || c == '_' || c == '+' || c == '-' || c == '/'
}

pub open spec fn plain_metadata(v: Seq<char>) -> bool {
    v.len() > 0 && forall|i: int| 0 <= i < v.len() ==> metadata_char(#[trigger] v[i])
}

/// What splitting a user declaration's fields gives: (version, license,
/// source) and the remaining fields, or a failure.
pub open spec fn split_metadata_spec(ps: Seq<(Seq<char>, Seq<char>)>) -> Result<
    ((Seq<char>, Seq<char>, Seq<char>), Seq<(Seq<char>, Seq<char>)>),
    ModelFailure,
> {
    match metadata_split(ps) {
        Err(n) => Err(("KES-C010"@, "duplicate metadata field '"@ + n + "'"@, n)),
        Ok((meta, rest)) => match exact_value(meta, "version"@) {
            None => Err(("KES-C010"@, "user model/subcircuit requires version metadata"@, "version"@)),
            Some(version) => match exact_value(meta, "license"@) {
                None => Err(("KES-C010"@, "user model/subcircuit requires license metadata"@, "license"@)),
                Some(license) => {
                    let source = match exact_value(meta, "source"@) {
                        Some(v) => v,
                        None => "user-defined"@,
                    };
                    if !plain_metadata(version) {
                        Err(("KES-C010"@, "unsafe or invalid version metadata '"@ + version + "'"@, "version"@))
                    } else if !plain_metadata(license) {
                        Err(("KES-C010"@, "unsafe or invalid license metadata '"@ + license + "'"@, "license"@))
                    } else if !plain_metadata(source) {
                        Err(("KES-C010"@, "unsafe or invalid source metadata '"@ + source + "'"@, "source"@))
                    } else {
                        Ok(((version, license, source), rest))
                    }
                },
            },
        },
    }
}

proof fn lemma_split_stops(ps: Seq<(Seq<char>, Seq<char>)>, k: int)
    requires
        0 <= k < ps.len(),
        metadata_split(ps.take(k + 1)) is Err,
    ensures
        metadata_split(ps) == metadata_split(ps.take(k + 1)),
    decreases ps.len() - k,
{
    if k + 1 < ps.len() {
        assert(ps.drop_last().take(k + 1) =~= ps.take(k + 1));
        lemma_split_stops(ps.drop_last(), k);
    } else {
        assert(ps.take(k + 1) =~= ps);
    }
}

fn plain_metadata_exec(v: &String) -> (r: bool)
    ensures
        r == plain_metadata(v@),
{
    let cs = chars_of(v.as_str());
    if cs.len() == 0 {
        return false;
    }
    let mut i: usize = 0;
    while i < cs.len()
        invariant
            i <= cs.len(),
            cs@ == v@,
            forall|j: int| 0 <= j < i ==> metadata_char(#[trigger] cs@[j]),
        decreases cs.len() - i,
    {
        let c = cs[i];
        if !(crate::text::is_alnum_exec(c) || c == '.' || c == ' ' || c == '_' || c == '+' || c == '-' || c == '/') {
            return false;
        }
        i = i + 1;
    }
    true
}

fn copy_named(v: &crate::ast::NamedValue) -> (r: crate::ast::NamedValue)
    ensures
        r.name@ == v.name@,
        r.value@ == v.value@,
{
    crate::ast::NamedValue { name: owned(v.name.as_str()), value: owned(v.value.as_str()) }
}

/// Separates the version, license and source metadata of a user model or
/// subcircuit from its electrical fields; the source defaults to
/// `user-defined`, and each value must be plain text.
pub fn split_metadata(values: &Vec<crate::ast::NamedValue>, model_name: &str) -> (r: Result<
    (ModelMetadata, Vec<crate::ast::NamedValue>),
    SemanticDiagnostic,
>)
    ensures
        match split_metadata_spec(crate::ast::named_views(values@)) {
            Ok((m, rest)) => r matches Ok((x, y)) && (x.version@, x.license@, x.source@) == m
                && crate::ast::named_views(y@) == rest,
            Err(e) => r matches Err(d) && model_error(d, e.0, e.1, Some(model_name@), e.2),
        },
{
    let ghost pv = crate::ast::named_views(values@);
    let mut meta: Vec<(String, String)> = Vec::new();
    let mut rest: Vec<crate::ast::NamedValue> = Vec::new();
    let mut k: usize = 0;
    assert(pv.take(0) =~= Seq::<(Seq<char>, Seq<char>)>::empty());
    assert(pair_views(meta@) =~= Seq::<(Seq<char>, Seq<char>)>::empty());
    assert(crate::ast::named_views(rest@) =~= Seq::<(Seq<char>, Seq<char>)>::empty());
    while k < values.len()
        invariant
            k <= values.len(),
            pv == crate::ast::named_views(values@),
            metadata_split(pv.take(k as int)) == Ok::<
                (Seq<(Seq<char>, Seq<char>)>, Seq<(Seq<char>, Seq<char>)>),
                Seq<char>,
            >((pair_views(meta@), crate::ast::named_views(rest@))),
        decreases values.len() - k,
    {
        assert(pv.take(k + 1).drop_last() =~= pv.take(k as int));
        assert(pv.take(k + 1).last() == (values@[k as int].name@, values@[k as int].value@));
        let v = &values[k];
        let key = crate::text::to_lower(v.name.as_str());
        let ks = key.as_str();
        if text_is(ks, "version") || text_is(ks, "license") || text_is(ks, "source") {
            if exact_lookup(&meta, ks).is_some() {
                let mut m = owned("duplicate metadata field '");
                append_str(&mut m, v.name.as_str());
                append_str(&mut m, "'");
                proof {
                    lemma_split_stops(pv, k as int);
                }
                return Err(error("KES-C010", m, Some(model_name), v.name.as_str()));
            }
            let ghost before = pair_views(meta@);
            meta.push((key, owned(v.value.as_str())));
            assert(pair_views(meta@) =~= before.push((crate::text::lower(pv[k as int].0), pv[k as int].1)));
        } else {
            let ghost before = crate::ast::named_views(rest@);
            rest.push(copy_named(v));
            assert(crate::ast::named_views(rest@) =~= before.push(pv[k as int]));
        }
        k = k + 1;
    }
    assert(pv.take(k as int) =~= pv);
    let version = match exact_lookup(&meta, "version") {
        None => {
            return Err(error("KES-C010", owned("user model/subcircuit requires version metadata"), Some(model_name), "version"));
        },
        Some(v) => v,
    };
    let license = match exact_lookup(&meta, "license") {
        None => {
            return Err(error("KES-C010", owned("user model/subcircuit requires license metadata"), Some(model_name), "license"));
        },
        Some(v) => v,
    };
    let source = match exact_lookup(&meta, "source") {
        None => owned("user-defined"),
        Some(v) => v,
    };
    if !plain_metadata_exec(&version) {
        let mut m = owned("unsafe or invalid version metadata '");
        append_str(&mut m, version.as_str());
        append_str(&mut m, "'");
        return Err(error("KES-C010", m, Some(model_name), "version"));
    }
    if !plain_metadata_exec(&license) {
        let mut m = owned("unsafe or invalid license metadata '");
        append_str(&mut m, license.as_str());
        append_str(&mut m, "'");
        return Err(error("KES-C010", m, Some(model_name), "license"));
    }
    if !plain_metadata_exec(&source) {
        let mut m = owned("unsafe or invalid source metadata '");
        append_str(&mut m, source.as_str());
        append_str(&mut m, "'");
        return Err(error("KES-C010", m, Some(model_name), "source"));
    }
    Ok((ModelMetadata { version, license, source }, rest))
}


// ---------------------------------------------------------------------------
// User models and subcircuits.

/// How the value text of a field reads as a number: the SPICE text of the
/// number and whether it lies above zero.
#[derive(Debug, Clone)]
pub struct ValueReading {
    pub text: String,
    pub positive: bool,
}

/// A field's reading: SPICE text and sign, or why the value is no number.
pub type Reading = Result<(Seq<char>, bool), Seq<char>>;

pub open spec fn reading_view(r: Result<ValueReading, String>) -> Reading {
    match r {
        Ok(v) => Ok((v.text@, v.positive)),
        Err(e) => Err(e@),
    }
}

pub open spec fn readings_view(rs: Seq<Result<ValueReading, String>>) -> Seq<Reading> {
    rs.map_values(|r: Result<ValueReading, String>| reading_view(r))
}

/// The fields that are not metadata, in order, each with its reading
/// (the readings run along all the fields).
pub open spec fn electrical(ps: Seq<(Seq<char>, Seq<char>)>, rd: Seq<Reading>) -> Seq<(Seq<char>, Reading)>
    decreases ps.len(),
{
    if ps.len() == 0 {
        seq![]
    } else {
        let prev = electrical(ps.drop_last(), rd);
        if metadata_key(crate::text::lower(ps.last().0)) {
            prev
        } else {
            prev.push((ps.last().0, rd[ps.len() - 1]))
        }
    }
}

/// The reading kept under a lower-cased field name.
pub open spec fn reading_at(kv: Seq<(Seq<char>, (Seq<char>, bool))>, key: Seq<char>) -> Option<(Seq<char>, bool)>
    decreases kv.len(),
{
    if kv.len() == 0 {
        None
    } else if kv.last().0 == key {
        Some(kv.last().1)
    } else {
        reading_at(kv.drop_last(), key)
    }
}

/// The electrical fields taken in order: each lower-cased name is allowed,
/// each value reads as a number, and no name comes twice. A refusal is a
/// message and the field it names.
pub open spec fn canonical(
    fs: Seq<(Seq<char>, Reading)>,
    allowed: Seq<Seq<char>>,
    allowed_text: Seq<char>,
    model: Seq<char>,
) -> Result<Seq<(Seq<char>, (Seq<char>, bool))>, (Seq<char>, Seq<char>)>
    decreases fs.len(),
{
    if fs.len() == 0 {
        Ok(seq![])
    } else {
        match canonical(fs.drop_last(), allowed, allowed_text, model) {
            Err(e) => Err(e),
            Ok(kv) => {
                let f = fs.last();
                let key = crate::text::lower(f.0);
                if !allowed.contains(key) {
                    Err(
                        (
                            "unsupported parameter '"@ + f.0 + "' for '"@ + model + "'; allowed parameters: "@
                                + allowed_text,
                            f.0,
                        ),
                    )
                } else {
                    match f.1 {
                        Err(reason) => Err(("invalid typed parameter '"@ + f.0 + "': "@ + reason, f.0)),
                        Ok(v) => if reading_at(kv, key) is Some {
                            Err(("duplicate parameter '"@ + f.0 + "'"@, f.0))
                        } else {
                            Ok(kv.push((key, v)))
                        },
                    }
                }
            },
        }
    }
}

/// `name=value` for each kept field, taken in the given order of names,
/// separated by single spaces.
pub open spec fn model_body(kv: Seq<(Seq<char>, (Seq<char>, bool))>, order: Seq<Seq<char>>) -> Seq<char>
    decreases order.len(),
{
    if order.len() == 0 {
        seq![]
    } else {
        let prev = model_body(kv, order.drop_last());
        match reading_at(kv, order.last()) {
            None => prev,
            Some(v) => if prev.len() == 0 {
                order.last() + "="@ + v.0
            } else {
                prev + " "@ + order.last() + "="@ + v.0
            },
        }
    }
}

pub open spec fn diode_fields() -> Seq<Seq<char>> {
    seq!["is"@, "rs"@, "n"@, "cjo"@, "m"@, "vj"@, "tt"@]
}

pub open spec fn bjt_fields() -> Seq<Seq<char>> {
    seq!["is"@, "bf"@, "vaf"@, "cje"@, "cjc"@, "tf"@, "tr"@]
}

pub open spec fn mosfet_fields() -> Seq<Seq<char>> {
    seq!["vto"@, "kp"@, "lambda"@, "rd"@, "rs"@, "cgd"@, "cgs"@]
}

/// A user model's component kind, SPICE type word, allowed fields (as
/// declared, as listed in messages, and in ascending order), or why its
/// polarity is refused (message and field).
pub open spec fn user_model_kind(kind: ModelDeclKind, polarity: Option<Seq<char>>) -> Result<
    (ComponentKind, Seq<char>, Seq<Seq<char>>, Seq<char>, Seq<Seq<char>>),
    (Seq<char>, Seq<char>),
> {
    match kind {
        ModelDeclKind::Diode => if polarity is Some {
            Err(("diode models do not accept polarity"@, "polarity"@))
        } else {
            Ok(
                (
                    ComponentKind::Diode,
                    "D"@,
                    diode_fields(),
                    "is, rs, n, cjo, m, vj, tt"@,
                    seq!["cjo"@, "is"@, "m"@, "n"@, "rs"@, "tt"@, "vj"@],
                ),
            )
        },
        ModelDeclKind::BJT => match polarity {
            None => Err(("BJT model requires npn or pnp polarity"@, "polarity"@)),
            Some(p) => {
                let order = seq!["bf"@, "cjc"@, "cje"@, "is"@, "tf"@, "tr"@, "vaf"@];
                let text = "is, bf, vaf, cje, cjc, tf, tr"@;
                if eq_ignore_case(p, "npn"@) {
                    Ok((ComponentKind::BJT(BJTPolarity::NPN), "NPN"@, bjt_fields(), text, order))
                } else if eq_ignore_case(p, "pnp"@) {
                    Ok((ComponentKind::BJT(BJTPolarity::PNP), "PNP"@, bjt_fields(), text, order))
                } else {
                    Err(("invalid BJT polarity '"@ + p + "'"@, "polarity"@))
                }
            },
        },
        ModelDeclKind::MOSFET => match polarity {
            None => Err(("MOSFET model requires nmos or pmos polarity"@, "polarity"@)),
            Some(p) => {
                let order = seq!["cgd"@, "cgs"@, "kp"@, "lambda"@, "rd"@, "rs"@, "vto"@];
                let text = "vto, kp, lambda, rd, rs, cgd, cgs"@;
                if eq_ignore_case(p, "nmos"@) {
                    Ok((ComponentKind::MOSFET(FETPolarity::NMOS), "NMOS"@, mosfet_fields(), text, order))
                } else if eq_ignore_case(p, "pmos"@) {
                    Ok((ComponentKind::MOSFET(FETPolarity::PMOS), "PMOS"@, mosfet_fields(), text, order))
                } else {
                    Err(("invalid MOSFET polarity '"@ + p + "'"@, "polarity"@))
                }
            },
        },
    }
}

/// Compiling a user model: its metadata, then its polarity, then its
/// electrical fields, of which it needs one at least. It becomes a
/// `.model` card whose fields come in ascending order of name.
pub open spec fn user_model_spec(
    name: Seq<char>,
    kind: ModelDeclKind,
    polarity: Option<Seq<char>>,
    ps: Seq<(Seq<char>, Seq<char>)>,
    rd: Seq<Reading>,
) -> Result<BuiltinEntry, ModelFailure> {
    match split_metadata_spec(ps) {
        Err(e) => Err(e),
        Ok((meta, _rest)) => match user_model_kind(kind, polarity) {
            Err((m, f)) => Err(("KES-C010"@, m, f)),
            Ok((ck, word, allowed, text, order)) => match canonical(electrical(ps, rd), allowed, text, name) {
                Err((m, f)) => Err(("KES-C010"@, m, f)),
                Ok(kv) => if kv.len() == 0 {
                    Err(("KES-C010"@, "user model requires at least one typed electrical parameter"@, "parameters"@))
                } else {
                    Ok(
                        (
                            name,
                            ck,
                            ModelSource::UserDefined,
                            ".model "@ + name + " "@ + word + " ("@ + model_body(kv, order) + ")"@,
                            false,
                            meta.2,
                            meta.1,
                            meta.0,
                        ),
                    )
                },
            },
        },
    }
}

/// Compiling a user opamp subcircuit: its kind, its pins in catalog order,
/// its metadata, then a positive gain and bandwidth. `pole` is the SPICE
/// text of its pole capacitance, gain / (2π · bandwidth).
pub open spec fn user_subcircuit_spec(
    kind: Seq<char>,
    name: Seq<char>,
    pins: Seq<Seq<char>>,
    ps: Seq<(Seq<char>, Seq<char>)>,
    rd: Seq<Reading>,
    pole: Seq<char>,
) -> Result<BuiltinEntry, ModelFailure> {
    if !eq_ignore_case(kind, "opamp"@) {
        Err(("KES-C012"@, "unsupported subcircuit kind '"@ + kind + "'"@, "kind"@))
    } else if pins != opamp_pins() {
        Err(
            (
                "KES-C012"@,
                "opamp subcircuit '"@ + name + "' pins "@ + debug_list_spec(pins) + " must exactly match catalog order "@
                    + debug_list_spec(opamp_pins()),
                "pins"@,
            ),
        )
    } else {
        match split_metadata_spec(ps) {
            Err(e) => Err(e),
            Ok((meta, _rest)) => match canonical(
                electrical(ps, rd),
                seq!["gain"@, "bandwidth"@],
                "gain, bandwidth"@,
                name,
            ) {
                Err((m, f)) => Err(("KES-C010"@, m, f)),
                Ok(kv) => match reading_at(kv, "gain"@) {
                    None => Err(("KES-C012"@, "opamp subcircuit requires gain"@, "gain"@)),
                    Some(g) => match reading_at(kv, "bandwidth"@) {
                        None => Err(("KES-C012"@, "opamp subcircuit requires bandwidth"@, "bandwidth"@)),
                        Some(b) => if !g.1 || !b.1 {
                            Err(("KES-C012"@, "opamp gain and bandwidth must be positive"@, "parameters"@))
                        } else {
                            Ok(
                                (
                                    name,
                                    ComponentKind::OpAmp,
                                    ModelSource::UserDefined,
                                    opamp_directive(name, g.0, pole),
                                    true,
                                    meta.2,
                                    meta.1,
                                    meta.0,
                                ),
                            )
                        },
                    },
                },
            },
        }
    }
}

proof fn lemma_canonical_stops(
    ps: Seq<(Seq<char>, Seq<char>)>,
    rd: Seq<Reading>,
    allowed: Seq<Seq<char>>,
    text: Seq<char>,
    model: Seq<char>,
    k: int,
)
    requires
        0 <= k < ps.len(),
        canonical(electrical(ps.take(k + 1), rd), allowed, text, model) is Err,
    ensures
        canonical(electrical(ps, rd), allowed, text, model) == canonical(electrical(ps.take(k + 1), rd), allowed, text, model),
    decreases ps.len() - k,
{
    if k + 1 < ps.len() {
        assert(ps.drop_last().take(k + 1) =~= ps.take(k + 1));
        lemma_canonical_stops(ps.drop_last(), rd, allowed, text, model, k);
        let prev = electrical(ps.drop_last(), rd);
        if !metadata_key(crate::text::lower(ps.last().0)) {
            assert(electrical(ps, rd).drop_last() =~= prev);
        }
    } else {
        assert(ps.take(k + 1) =~= ps);
    }
}

pub open spec fn kept_view(kv: Seq<(String, ValueReading)>) -> Seq<(Seq<char>, (Seq<char>, bool))> {
    kv.map_values(|e: (String, ValueReading)| (e.0@, (e.1.text@, e.1.positive)))
}

fn reading_lookup(kv: &Vec<(String, ValueReading)>, key: &str) -> (r: Option<usize>)
    ensures
        match reading_at(kept_view(kv@), key@) {
            None => r is None,
            Some(v) => r matches Some(j) && j < kv@.len() && (kv@[j as int].1.text@, kv@[j as int].1.positive) == v,
        },
{
    let ghost kvv = kept_view(kv@);
    let mut found: Option<usize> = None;
    let mut i: usize = 0;
    assert(kvv.take(0) =~= Seq::<(Seq<char>, (Seq<char>, bool))>::empty());
    while i < kv.len()
        invariant
            i <= kv.len(),
            kvv == kept_view(kv@),
            match reading_at(kvv.take(i as int), key@) {
                None => found is None,
                Some(v) => found matches Some(j) && j < i && (kv@[j as int].1.text@, kv@[j as int].1.positive) == v,
            },
        decreases kv.len() - i,
    {
        assert(kvv.take(i + 1).drop_last() =~= kvv.take(i as int));
        if text_is(kv[i].0.as_str(), key) {
            found = Some(i);
        }
        i = i + 1;
    }
    assert(kvv.take(i as int) =~= kvv);
    found
}

fn word_list7(a: &str, b: &str, c: &str, d: &str, e: &str, f: &str, g: &str) -> (r: Vec<String>)
    ensures
        views(r@) == seq![a@, b@, c@, d@, e@, f@, g@],
{
    let mut r: Vec<String> = Vec::new();
    r.push(owned(a));
    r.push(owned(b));
    r.push(owned(c));
    r.push(owned(d));
    r.push(owned(e));
    r.push(owned(f));
    r.push(owned(g));
    assert(views(r@) =~= seq![a@, b@, c@, d@, e@, f@, g@]);
    r
}

fn copy_reading(v: &ValueReading) -> (r: ValueReading)
    ensures
        r.text@ == v.text@,
        r.positive == v.positive,
{
    ValueReading { text: owned(v.text.as_str()), positive: v.positive }
}

/// Checks the electrical fields of a user declaration in order.
fn canonical_exec(
    values: &Vec<crate::ast::NamedValue>,
    readings: &Vec<Result<ValueReading, String>>,
    allowed: &Vec<String>,
    allowed_text: &str,
    model_name: &str,
) -> (r: Result<Vec<(String, ValueReading)>, SemanticDiagnostic>)
    requires
        readings@.len() == values@.len(),
    ensures
        match canonical(
            electrical(crate::ast::named_views(values@), readings_view(readings@)),
            views(allowed@),
            allowed_text@,
            model_name@,
        ) {
            Ok(kv) => r matches Ok(x) && kept_view(x@) == kv,
            Err((m, f)) => r matches Err(d) && model_error(d, "KES-C010"@, m, Some(model_name@), f),
        },
{
    let ghost pv = crate::ast::named_views(values@);
    let ghost rdv = readings_view(readings@);
    let ghost av = views(allowed@);
    let mut kv: Vec<(String, ValueReading)> = Vec::new();
    let mut k: usize = 0;
    assert(pv.take(0) =~= Seq::<(Seq<char>, Seq<char>)>::empty());
    assert(kept_view(kv@) =~= Seq::<(Seq<char>, (Seq<char>, bool))>::empty());
    while k < values.len()
        invariant
            k <= values.len(),
            readings@.len() == values@.len(),
            pv == crate::ast::named_views(values@),
            rdv == readings_view(readings@),
            av == views(allowed@),
            canonical(electrical(pv.take(k as int), rdv), av, allowed_text@, model_name@) == Ok::<
                Seq<(Seq<char>, (Seq<char>, bool))>,
                (Seq<char>, Seq<char>),
            >(kept_view(kv@)),
        decreases values.len() - k,
    {
        assert(pv.take(k + 1).drop_last() =~= pv.take(k as int));
        assert(pv.take(k + 1).last() == (values@[k as int].name@, values@[k as int].value@));
        assert(rdv[k as int] == reading_view(readings@[k as int]));
        let v = &values[k];
        let key = crate::text::to_lower(v.name.as_str());
        let ks = key.as_str();
        if text_is(ks, "version") || text_is(ks, "license") || text_is(ks, "source") {
            k = k + 1;
            continue;
        }
        let ghost fs = electrical(pv.take(k + 1), rdv);
        assert(fs.drop_last() == electrical(pv.take(k as int), rdv));
        assert(fs.last() == (values@[k as int].name@, rdv[k as int]));
        if !crate::model_resources::has_name(allowed, &key) {
            let mut m = owned("unsupported parameter '");
            append_str(&mut m, v.name.as_str());
            append_str(&mut m, "' for '");
            append_str(&mut m, model_name);
            append_str(&mut m, "'; allowed parameters: ");
            append_str(&mut m, allowed_text);
            proof {
                lemma_canonical_stops(pv, rdv, av, allowed_text@, model_name@, k as int);
            }
            return Err(error("KES-C010", m, Some(model_name), v.name.as_str()));
        }
        match &readings[k] {
            Err(reason) => {
                let mut m = owned("invalid typed parameter '");
                append_str(&mut m, v.name.as_str());
                append_str(&mut m, "': ");
                append_str(&mut m, reason.as_str());
                proof {
                    lemma_canonical_stops(pv, rdv, av, allowed_text@, model_name@, k as int);
                }
                return Err(error("KES-C010", m, Some(model_name), v.name.as_str()));
            },
            Ok(reading) => {
                if reading_lookup(&kv, ks).is_some() {
                    let mut m = owned("duplicate parameter '");
                    append_str(&mut m, v.name.as_str());
                    append_str(&mut m, "'");
                    proof {
                        lemma_canonical_stops(pv, rdv, av, allowed_text@, model_name@, k as int);
                    }
                    return Err(error("KES-C010", m, Some(model_name), v.name.as_str()));
                }
                let ghost before = kept_view(kv@);
                kv.push((key, copy_reading(reading)));
                assert(kept_view(kv@) =~= before.push((crate::text::lower(values@[k as int].name@), (reading.text@, reading.positive))));
            },
        }
        k = k + 1;
    }
    assert(pv.take(k as int) =~= pv);
    Ok(kv)
}

fn body_exec(kv: &Vec<(String, ValueReading)>, order: &Vec<String>) -> (r: String)
    ensures
        r@ == model_body(kept_view(kv@), views(order@)),
{
    let ghost ov = views(order@);
    let mut body = String::new();
    let mut started = false;
    let mut t: usize = 0;
    assert(ov.take(0) =~= Seq::<Seq<char>>::empty());
    while t < order.len()
        invariant
            t <= order.len(),
            ov == views(order@),
            body@ == model_body(kept_view(kv@), ov.take(t as int)),
            started == (body@.len() > 0),
        decreases order.len() - t,
    {
        assert(ov.take(t + 1).drop_last() =~= ov.take(t as int));
        assert(ov.take(t + 1).last() == order@[t as int]@);
        match reading_lookup(kv, order[t].as_str()) {
            None => {},
            Some(j) => {
                if started {
                    append_str(&mut body, " ");
                }
                append_str(&mut body, order[t].as_str());
                append_str(&mut body, "=");
                append_str(&mut body, kv[j].1.text.as_str());
                proof {
                    reveal_strlit("=");
                }
                started = true;
            },
        }
        t = t + 1;
    }
    assert(ov.take(t as int) =~= ov);
    body
}

/// Compiles a user `.model` declaration. `readings` holds, for each field
/// in order, how its value text reads as a number; metadata fields are
/// read as text and their readings are not looked at.
pub fn compile_user_model(
    declaration: &crate::ast::ModelDecl,
    readings: &Vec<Result<ValueReading, String>>,
) -> (r: Result<ModelRef, SemanticDiagnostic>)
    requires
        readings@.len() == declaration.parameters@.len(),
    ensures
        match user_model_spec(
            declaration.name@,
            declaration.kind,
            opt_view(declaration.polarity),
            crate::ast::named_views(declaration.parameters@),
            readings_view(readings@),
        ) {
            Ok(e) => r matches Ok(m) && is_builtin(m, e),
            Err(f) => r matches Err(d) && model_error(d, f.0, f.1, Some(declaration.name@), f.2),
        },
{
    let name = declaration.name.as_str();
    let meta = match split_metadata(&declaration.parameters, name) {
        Err(d) => {
            return Err(d);
        },
        Ok((meta, _rest)) => meta,
    };
    let (kind, word, allowed, text, order): (ComponentKind, &str, Vec<String>, &str, Vec<String>) = match declaration.kind {
        ModelDeclKind::Diode => {
            if declaration.polarity.is_some() {
                return Err(error("KES-C010", owned("diode models do not accept polarity"), Some(name), "polarity"));
            }
            (
                ComponentKind::Diode,
                "D",
                word_list7("is", "rs", "n", "cjo", "m", "vj", "tt"),
                "is, rs, n, cjo, m, vj, tt",
                word_list7("cjo", "is", "m", "n", "rs", "tt", "vj"),
            )
        },
        ModelDeclKind::BJT => {
            let p = match &declaration.polarity {
                None => {
                    return Err(error("KES-C010", owned("BJT model requires npn or pnp polarity"), Some(name), "polarity"));
                },
                Some(p) => p.as_str(),
            };
            let k = if eq_ignore_case_exec(p, "npn") {
                ComponentKind::BJT(BJTPolarity::NPN)
            } else if eq_ignore_case_exec(p, "pnp") {
                ComponentKind::BJT(BJTPolarity::PNP)
            } else {
                let mut m = owned("invalid BJT polarity '");
                append_str(&mut m, p);
                append_str(&mut m, "'");
                return Err(error("KES-C010", m, Some(name), "polarity"));
            };
            (
                k,
                if eq_ignore_case_exec(p, "npn") { "NPN" } else { "PNP" },
                word_list7("is", "bf", "vaf", "cje", "cjc", "tf", "tr"),
                "is, bf, vaf, cje, cjc, tf, tr",
                word_list7("bf", "cjc", "cje", "is", "tf", "tr", "vaf"),
            )
        },
        ModelDeclKind::MOSFET => {
            let p = match &declaration.polarity {
                None => {
                    return Err(error("KES-C010", owned("MOSFET model requires nmos or pmos polarity"), Some(name), "polarity"));
                },
                Some(p) => p.as_str(),
            };
            let k = if eq_ignore_case_exec(p, "nmos") {
                ComponentKind::MOSFET(FETPolarity::NMOS)
            } else if eq_ignore_case_exec(p, "pmos") {
                ComponentKind::MOSFET(FETPolarity::PMOS)
            } else {
                let mut m = owned("invalid MOSFET polarity '");
                append_str(&mut m, p);
                append_str(&mut m, "'");
                return Err(error("KES-C010", m, Some(name), "polarity"));
            };
            (
                k,
                if eq_ignore_case_exec(p, "nmos") { "NMOS" } else { "PMOS" },
                word_list7("vto", "kp", "lambda", "rd", "rs", "cgd", "cgs"),
                "vto, kp, lambda, rd, rs, cgd, cgs",
                word_list7("cgd", "cgs", "kp", "lambda", "rd", "rs", "vto"),
            )
        },
    };
    proof {
        let mk = user_model_kind(declaration.kind, opt_view(declaration.polarity));
        assert(mk matches Ok(x) && x == (kind, word@, views(allowed@), text@, views(order@)));
    }
    let kv = match canonical_exec(&declaration.parameters, readings, &allowed, text, name) {
        Err(d) => {
            return Err(d);
        },
        Ok(kv) => kv,
    };
    if kv.len() == 0 {
        return Err(error("KES-C010", owned("user model requires at least one typed electrical parameter"), Some(name), "parameters"));
    }
    let body = body_exec(&kv, &order);
    let mut directive = owned(".model ");
    append_str(&mut directive, name);
    append_str(&mut directive, " ");
    append_str(&mut directive, word);
    append_str(&mut directive, " (");
    append_str(&mut directive, body.as_str());
    append_str(&mut directive, ")");
    let card = directive.clone();
    Ok(
        make_model(
            name,
            kind,
            ModelSource::UserDefined,
            ModelDefinition::Device { directive },
            card.as_str(),
            meta.source.as_str(),
            meta.license.as_str(),
            meta.version.as_str(),
        ),
    )
}

fn word_list2(a: &str, b: &str) -> (r: Vec<String>)
    ensures
        views(r@) == seq![a@, b@],
{
    let mut r: Vec<String> = Vec::new();
    r.push(owned(a));
    r.push(owned(b));
    assert(views(r@) =~= seq![a@, b@]);
    r
}

/// Compiles a user opamp subcircuit declaration. `readings` holds, for
/// each field in order, how its value text reads as a number; `pole` is the
/// SPICE text of gain / (2π · bandwidth) from those readings.
pub fn compile_user_subcircuit(
    declaration: &crate::ast::SubcircuitDecl,
    readings: &Vec<Result<ValueReading, String>>,
    pole: &str,
) -> (r: Result<ModelRef, SemanticDiagnostic>)
    requires
        readings@.len() == declaration.parameters@.len(),
    ensures
        match user_subcircuit_spec(
            declaration.kind@,
            declaration.name@,
            views(declaration.pins@),
            crate::ast::named_views(declaration.parameters@),
            readings_view(readings@),
            pole@,
        ) {
            Ok(e) => r matches Ok(m) && is_builtin(m, e),
            Err(f) => r matches Err(d) && model_error(d, f.0, f.1, Some(declaration.name@), f.2),
        },
{
    let name = declaration.name.as_str();
    if !eq_ignore_case_exec(declaration.kind.as_str(), "opamp") {
        let mut m = owned("unsupported subcircuit kind '");
        append_str(&mut m, declaration.kind.as_str());
        append_str(&mut m, "'");
        return Err(error("KES-C012", m, Some(name), "kind"));
    }
    let expected = opamp_pin_names();
    if !same_text_lists(&declaration.pins, &expected) {
        let mut m = owned("opamp subcircuit '");
        append_str(&mut m, name);
        append_str(&mut m, "' pins ");
        let have = debug_list(&declaration.pins);
        append_str(&mut m, have.as_str());
        append_str(&mut m, " must exactly match catalog order ");
        let want = debug_list(&expected);
        append_str(&mut m, want.as_str());
        return Err(error("KES-C012", m, Some(name), "pins"));
    }
    let meta = match split_metadata(&declaration.parameters, name) {
        Err(d) => {
            return Err(d);
        },
        Ok((meta, _rest)) => meta,
    };
    let allowed = word_list2("gain", "bandwidth");
    let kv = match canonical_exec(&declaration.parameters, readings, &allowed, "gain, bandwidth", name) {
        Err(d) => {
            return Err(d);
        },
        Ok(kv) => kv,
    };
    let g = match reading_lookup(&kv, "gain") {
        None => {
            return Err(error("KES-C012", owned("opamp subcircuit requires gain"), Some(name), "gain"));
        },
        Some(j) => j,
    };
    let b = match reading_lookup(&kv, "bandwidth") {
        None => {
            return Err(error("KES-C012", owned("opamp subcircuit requires bandwidth"), Some(name), "bandwidth"));
        },
        Some(j) => j,
    };
    if !kv[g].1.positive || !kv[b].1.positive {
        return Err(error("KES-C012", owned("opamp gain and bandwidth must be positive"), Some(name), "parameters"));
    }
    Ok(
        opamp_model(
            name,
            ModelSource::UserDefined,
            meta.source.as_str(),
            meta.license.as_str(),
            meta.version.as_str(),
            kv[g].1.text.as_str(),
            pole,
        ),
    )
}


// ---------------------------------------------------------------------------
// The registry of a program.

proof fn lemma_upper_differs(a: Seq<char>, b: Seq<char>, k: int)
    requires
        0 <= k < a.len(),
        a.len() == b.len(),
        a[k] != b[k],
        !crate::text::is_ascii_lower(a[k]),
        !crate::text::is_ascii_lower(b[k]),
    ensures
        upper(a) != upper(b),
{
    assert(upper(a)[k] == a[k]);
    assert(upper(b)[k] == b[k]);
}

/// The built-in names stay distinct when upper-cased.
proof fn lemma_builtin_keys_distinct()
    ensures
        forall|i: int, j: int|
            0 <= i < j < builtin_catalog().len() ==> upper(#[trigger] builtin_catalog()[i].0) != upper(
                #[trigger] builtin_catalog()[j].0,
            ),
{
    reveal_strlit("2N3904");
    reveal_strlit("2N3906");
    reveal_strlit("2N2222");
    reveal_strlit("KESSETSU_POWER_NPN_V1");
    reveal_strlit("KESSETSU_POWER_PNP_V1");
    reveal_strlit("1N4148");
    reveal_strlit("1N4007");
    reveal_strlit("IRF540");
    reveal_strlit("KESSETSU_PMOS_V1");
    reveal_strlit("KESSETSU_OPAMP_V1");
    let c = builtin_catalog();
    let n0 = c[0].0;
    let n1 = c[1].0;
    let n2 = c[2].0;
    let n3 = c[3].0;
    let n4 = c[4].0;
    let n5 = c[5].0;
    let n6 = c[6].0;
    let n7 = c[7].0;
    let n8 = c[8].0;
    let n9 = c[9].0;
    lemma_upper_differs(n0, n1, 5);
    lemma_upper_differs(n0, n2, 2);
    lemma_upper_differs(n0, n5, 0);
    lemma_upper_differs(n0, n6, 0);
    lemma_upper_differs(n0, n7, 0);
    lemma_upper_differs(n1, n2, 2);
    lemma_upper_differs(n1, n5, 0);
    lemma_upper_differs(n1, n6, 0);
    lemma_upper_differs(n1, n7, 0);
    lemma_upper_differs(n2, n5, 0);
    lemma_upper_differs(n2, n6, 0);
    lemma_upper_differs(n2, n7, 0);
    lemma_upper_differs(n5, n6, 3);
    lemma_upper_differs(n5, n7, 0);
    lemma_upper_differs(n6, n7, 0);
    lemma_upper_differs(n3, n4, 15);
    assert forall|i: int, j: int| 0 <= i < j < c.len() implies upper(#[trigger] c[i].0) != upper(#[trigger] c[j].0) by {
        if upper(c[i].0).len() != upper(c[j].0).len() {
        }
    }
}

/// The registry of the built-in models alone.
fn builtin_library() -> (lib: ModelLibrary)
    ensures
        registry_ok(lib.models@),
        lib.models@.len() == builtin_catalog().len(),
        lib.packages@.len() == 0,
        forall|i: int| 0 <= i < lib.models@.len() ==> is_builtin(#[trigger] lib.models@[i].1, builtin_catalog()[i]),
{
    let ms = builtin_models();
    let mut models: Vec<(String, ModelRef)> = Vec::new();
    proof {
        lemma_builtin_keys_distinct();
    }
    let mut i: usize = 0;
    while i < ms.len()
        invariant
            i <= ms@.len() == builtin_catalog().len(),
            forall|k: int| 0 <= k < ms@.len() ==> is_builtin(#[trigger] ms@[k], builtin_catalog()[k]),
            forall|a: int, b: int|
                0 <= a < b < builtin_catalog().len() ==> upper(#[trigger] builtin_catalog()[a].0) != upper(
                    #[trigger] builtin_catalog()[b].0,
                ),
            models@.len() == i,
            registry_ok(models@),
            forall|k: int| 0 <= k < i ==> #[trigger] models@[k].0@ == upper(builtin_catalog()[k].0),
            forall|k: int| 0 <= k < i ==> is_builtin(#[trigger] models@[k].1, builtin_catalog()[k]),
        decreases ms.len() - i,
    {
        let m = copy_model(&ms[i]);
        let key = to_upper(m.name.as_str());
        let ghost before = models@;
        models.push((key, m));
        proof {
            assert(is_builtin(ms@[i as int], builtin_catalog()[i as int]));
            assert forall|a: int, b: int| 0 <= a < b < models@.len() implies (#[trigger] models@[a]).0@ != (
            #[trigger] models@[b]).0@ by {
                assert(models@[a].0@ == upper(builtin_catalog()[a].0));
                assert(models@[b].0@ == upper(builtin_catalog()[b].0));
            }
        }
        i = i + 1;
    }
    ModelLibrary { models, packages: Vec::new() }
}


/// What an added registry model is built from.
pub enum ModelOrigin {
    /// A packaged or user model, described like a built-in.
    Catalog(BuiltinEntry),
    /// A model as it stands.
    Given(ModelRef),
    /// An external subcircuit: name, kind, required fields and file digest.
    External(Seq<char>, ComponentKind, ExternalFields, Seq<char>),
}

pub open spec fn origin_name(o: ModelOrigin) -> Seq<char> {
    match o {
        ModelOrigin::Catalog(e) => e.0,
        ModelOrigin::Given(m) => m.name@,
        ModelOrigin::External(n, _, _, _) => n,
    }
}

pub open spec fn made_from(m: ModelRef, o: ModelOrigin) -> bool {
    match o {
        ModelOrigin::Catalog(e) => is_builtin(m, e),
        ModelOrigin::Given(g) => m == g,
        ModelOrigin::External(n, k, x, d) => is_external_model(m, n, k, x, d),
    }
}

/// Why resolving a program's models stopped.
pub enum ResolveFailure {
    /// A diagnostic: (code, message, field) and component.
    Own(ModelFailure, Option<Seq<char>>),
}

/// The registry keys so far, the models added to the built-ins in order,
/// and the package names included.
pub type ResolveState = (Seq<Seq<char>>, Seq<ModelOrigin>, Seq<Seq<char>>);

/// Registers a model under its upper-cased name unless the name is taken.
pub open spec fn add_origin(st: ResolveState, o: ModelOrigin) -> Result<ResolveState, ResolveFailure> {
    let n = origin_name(o);
    if st.0.contains(upper(n)) {
        Err(
            ResolveFailure::Own(
                ("KES-C013"@, "model/subcircuit name '"@ + n + "' is already defined"@, "name"@),
                Some(n),
            ),
        )
    } else {
        Ok((st.0.push(upper(n)), st.1.push(o), st.2))
    }
}

pub open spec fn include_step(st: ResolveState, inc: (Seq<char>, Seq<char>)) -> Result<ResolveState, ResolveFailure> {
    let key = crate::text::lower(inc.0);
    if st.2.contains(key) {
        Err(
            ResolveFailure::Own(
                ("KES-C013"@, "duplicate model package include '"@ + inc.0 + "'"@, "model_include"@),
                None,
            ),
        )
    } else if !(key == "kessetsu_analog"@ && inc.1 == "1.0.0"@) {
        Err(ResolveFailure::Own(("KES-C011"@, unavailable_package(key, inc.1), "model_include"@), None))
    } else {
        add_origin((st.0, st.1, st.2.push(key)), ModelOrigin::Catalog(package_entry()))
    }
}

pub open spec fn include_steps(st: ResolveState, incs: Seq<(Seq<char>, Seq<char>)>) -> Result<ResolveState, ResolveFailure>
    decreases incs.len(),
{
    if incs.len() == 0 {
        Ok(st)
    } else {
        match include_steps(st, incs.drop_last()) {
            Err(e) => Err(e),
            Ok(s) => include_step(s, incs.last()),
        }
    }
}

/// User declarations, each its name and what compiling it gives, added in order.
pub open spec fn given_steps(st: ResolveState, cs: Seq<(Seq<char>, Result<BuiltinEntry, ModelFailure>)>) -> Result<
    ResolveState,
    ResolveFailure,
>
    decreases cs.len(),
{
    if cs.len() == 0 {
        Ok(st)
    } else {
        match given_steps(st, cs.drop_last()) {
            Err(e) => Err(e),
            Ok(s) => match cs.last().1 {
                Err(f) => Err(ResolveFailure::Own(f, Some(cs.last().0))),
                Ok(e) => add_origin(s, ModelOrigin::Catalog(e)),
            },
        }
    }
}

pub open spec fn external_steps(
    st: ResolveState,
    ds: Seq<(Seq<char>, Seq<char>, Seq<Seq<char>>, Seq<(Seq<char>, Seq<char>)>)>,
    res: Seq<(Seq<char>, Seq<u8>)>,
) -> Result<ResolveState, ResolveFailure>
    decreases ds.len(),
{
    if ds.len() == 0 {
        Ok(st)
    } else {
        match external_steps(st, ds.drop_last(), res) {
            Err(e) => Err(e),
            Ok(s) => match compile_external_spec(ds.last(), res) {
                Err(f) => Err(ResolveFailure::Own(f, Some(ds.last().1))),
                Ok((kind, x, digest)) => add_origin(s, ModelOrigin::External(ds.last().1, kind, x, digest)),
            },
        }
    }
}

pub open spec fn builtin_keys() -> Seq<Seq<char>> {
    builtin_catalog().map_values(|e: BuiltinEntry| upper(e.0))
}

/// Resolving a program's models: the built-ins, then the included packages,
/// then the user models, the user subcircuits and the external subcircuits,
/// each compiled in turn and registered under a name not yet taken.
pub open spec fn resolve_spec(
    incs: Seq<(Seq<char>, Seq<char>)>,
    models: Seq<(Seq<char>, Result<BuiltinEntry, ModelFailure>)>,
    subcircuits: Seq<(Seq<char>, Result<BuiltinEntry, ModelFailure>)>,
    ds: Seq<(Seq<char>, Seq<char>, Seq<Seq<char>>, Seq<(Seq<char>, Seq<char>)>)>,
    res: Seq<(Seq<char>, Seq<u8>)>,
) -> Result<ResolveState, ResolveFailure> {
    match include_steps((builtin_keys(), seq![], seq![]), incs) {
        Err(e) => Err(e),
        Ok(s1) => match given_steps(s1, models) {
            Err(e) => Err(e),
            Ok(s2) => match given_steps(s2, subcircuits) {
                Err(e) => Err(e),
                Ok(s3) => external_steps(s3, ds, res),
            },
        },
    }
}

/// What the numbers of a program's user declarations read as: for each
/// user model and each user subcircuit one reading per field, in order, and
/// for each user subcircuit the SPICE text of its pole capacitance,
/// gain / (2π · bandwidth).
pub struct UserReadings {
    pub models: Vec<Vec<Result<ValueReading, String>>>,
    pub subcircuits: Vec<Vec<Result<ValueReading, String>>>,
    pub poles: Vec<String>,
}

/// The readings run along the program's user declarations and their fields.
pub open spec fn readings_fit(p: crate::ast::Program, u: UserReadings) -> bool {
    &&& u.models@.len() == p.models@.len()
    &&& forall|i: int| 0 <= i < p.models@.len() ==> (#[trigger] u.models@[i])@.len() == p.models@[i].parameters@.len()
    &&& u.subcircuits@.len() == p.subcircuits@.len()
    &&& u.poles@.len() == p.subcircuits@.len()
    &&& forall|i: int|
        0 <= i < p.subcircuits@.len() ==> (#[trigger] u.subcircuits@[i])@.len() == p.subcircuits@[i].parameters@.len()
}

/// Each user model's name and what compiling it gives.
pub open spec fn model_entries(p: crate::ast::Program, u: UserReadings) -> Seq<(Seq<char>, Result<BuiltinEntry, ModelFailure>)> {
    Seq::new(
        p.models@.len(),
        |i: int|
            (
                p.models@[i].name@,
                user_model_spec(
                    p.models@[i].name@,
                    p.models@[i].kind,
                    opt_view(p.models@[i].polarity),
                    crate::ast::named_views(p.models@[i].parameters@),
                    readings_view(u.models@[i]@),
                ),
            ),
    )
}

/// Each user subcircuit's name and what compiling it gives.
pub open spec fn subcircuit_entries(p: crate::ast::Program, u: UserReadings) -> Seq<
    (Seq<char>, Result<BuiltinEntry, ModelFailure>),
> {
    Seq::new(
        p.subcircuits@.len(),
        |i: int|
            (
                p.subcircuits@[i].name@,
                user_subcircuit_spec(
                    p.subcircuits@[i].kind@,
                    p.subcircuits@[i].name@,
                    views(p.subcircuits@[i].pins@),
                    crate::ast::named_views(p.subcircuits@[i].parameters@),
                    readings_view(u.subcircuits@[i]@),
                    u.poles@[i]@,
                ),
            ),
    )
}

/// The library holds the built-ins and then the added models, each under
/// its upper-cased name, and one record of the package per include.
pub open spec fn library_is(lib: ModelLibrary, st: ResolveState) -> bool {
    let e = lib.entries();
    let n = builtin_catalog().len();
    &&& registry_ok(e)
    &&& e.len() == n + st.1.len()
    &&& forall|i: int| 0 <= i < n ==> is_builtin(#[trigger] e[i].1, builtin_catalog()[i])
    &&& forall|j: int| 0 <= j < st.1.len() ==> made_from(#[trigger] e[n + j].1, st.1[j])
    &&& lib.package_list().len() == st.2.len()
    &&& forall|j: int| 0 <= j < lib.package_list().len() ==> {
        let p = #[trigger] lib.package_list()[j];
        p.name@ == "kessetsu_analog"@ && p.version@ == "1.0.0"@ && p.license@ == "Apache-2.0"@ && p.content_hash@
            == content_hash_spec(package_entry().3)
    }
}

pub open spec fn registry_keys(m: Seq<(String, ModelRef)>) -> Seq<Seq<char>> {
    m.map_values(|e: (String, ModelRef)| e.0@)
}

proof fn lemma_entry_index_keys(m: Seq<(String, ModelRef)>, k: Seq<char>)
    ensures
        entry_index(m, k) is Some <==> registry_keys(m).contains(k),
{
    if registry_keys(m).contains(k) {
        let i = choose|i: int| 0 <= i < registry_keys(m).len() && registry_keys(m)[i] == k;
        assert(m[i].0@ == k);
    }
    if entry_index(m, k) is Some {
        let i = choose|i: int| 0 <= i < m.len() && (#[trigger] m[i]).0@ == k;
        assert(registry_keys(m)[i] == k);
    }
}

/// Registers `m` in the library, as `add_origin` with origin `o` describes.
fn add_model(lib: &mut ModelLibrary, m: ModelRef, Ghost(st): Ghost<ResolveState>, Ghost(o): Ghost<ModelOrigin>) -> (r: Result<
    (),
    SemanticDiagnostic,
>)
    requires
        registry_ok(old(lib).models@),
        registry_keys(old(lib).models@) == st.0,
        made_from(m, o),
        origin_name(o) == m.name@,
    ensures
        final(lib).packages@ == old(lib).packages@,
        match add_origin(st, o) {
            Ok(s) => r is Ok && final(lib).models@ == old(lib).models@.push((final(lib).models@.last().0, m))
                && registry_ok(final(lib).models@) && registry_keys(final(lib).models@) == s.0,
            Err(ResolveFailure::Own(f, c)) => r matches Err(d) && model_error(d, f.0, f.1, c, f.2),
        },
{
    proof {
        lemma_entry_index_keys(lib.models@, upper(m.name@));
    }
    let ghost before = lib.models@;
    let r = insert_model(&mut lib.models, m);
    proof {
        if r is Ok {
            assert(registry_keys(lib.models@) =~= registry_keys(before).push(upper(origin_name(o))));
        }
    }
    r
}


proof fn lemma_includes_stop(st: ResolveState, incs: Seq<(Seq<char>, Seq<char>)>, k: int)
    requires
        0 <= k < incs.len(),
        include_steps(st, incs.take(k + 1)) is Err,
    ensures
        include_steps(st, incs) == include_steps(st, incs.take(k + 1)),
    decreases incs.len() - k,
{
    if k + 1 < incs.len() {
        assert(incs.drop_last().take(k + 1) =~= incs.take(k + 1));
        lemma_includes_stop(st, incs.drop_last(), k);
    } else {
        assert(incs.take(k + 1) =~= incs);
    }
}

proof fn lemma_given_stop(st: ResolveState, cs: Seq<(Seq<char>, Result<BuiltinEntry, ModelFailure>)>, k: int)
    requires
        0 <= k < cs.len(),
        given_steps(st, cs.take(k + 1)) is Err,
    ensures
        given_steps(st, cs) == given_steps(st, cs.take(k + 1)),
    decreases cs.len() - k,
{
    if k + 1 < cs.len() {
        assert(cs.drop_last().take(k + 1) =~= cs.take(k + 1));
        lemma_given_stop(st, cs.drop_last(), k);
    } else {
        assert(cs.take(k + 1) =~= cs);
    }
}

proof fn lemma_externals_stop(
    st: ResolveState,
    ds: Seq<(Seq<char>, Seq<char>, Seq<Seq<char>>, Seq<(Seq<char>, Seq<char>)>)>,
    res: Seq<(Seq<char>, Seq<u8>)>,
    k: int,
)
    requires
        0 <= k < ds.len(),
        external_steps(st, ds.take(k + 1), res) is Err,
    ensures
        external_steps(st, ds, res) == external_steps(st, ds.take(k + 1), res),
    decreases ds.len() - k,
{
    if k + 1 < ds.len() {
        assert(ds.drop_last().take(k + 1) =~= ds.take(k + 1));
        lemma_externals_stop(st, ds.drop_last(), res, k);
    } else {
        assert(ds.take(k + 1) =~= ds);
    }
}

proof fn lemma_library_grows(lib0: ModelLibrary, lib1: ModelLibrary, st: ResolveState, m: ModelRef, o: ModelOrigin)
    requires
        library_is(lib0, st),
        lib1.packages@ == lib0.packages@,
        lib1.models@ == lib0.models@.push((lib1.models@.last().0, m)),
        registry_ok(lib1.models@),
        made_from(m, o),
    ensures
        library_is(lib1, (st.0.push(upper(origin_name(o))), st.1.push(o), st.2)),
{
    let n = builtin_catalog().len();
    let e = lib1.entries();
    assert forall|i: int| 0 <= i < n implies is_builtin(#[trigger] e[i].1, builtin_catalog()[i]) by {
        assert(e[i] == lib0.entries()[i]);
    }
    assert forall|j: int| 0 <= j < st.1.len() + 1 implies made_from(#[trigger] e[n + j].1, st.1.push(o)[j]) by {
        if j < st.1.len() {
            assert(e[n + j] == lib0.entries()[n + j]);
        }
    }
}

/// Resolves the models a program may use: the built-ins, the included
/// packages, the user models and subcircuits compiled with `readings`, and
/// the external subcircuits checked against the bound files.
pub fn resolve_program_models_with_resources(
    program: &crate::ast::Program,
    resources: &ExternalModelResources,
    readings: &UserReadings,
) -> (r: Result<ModelLibrary, SemanticDiagnostic>)
    requires
        readings_fit(*program, *readings),
    ensures
        match resolve_spec(
            crate::ast::include_views(program.model_includes@),
            model_entries(*program, *readings),
            subcircuit_entries(*program, *readings),
            crate::ast::external_views(program.external_subcircuits@),
            resources@,
        ) {
            Ok(st) => r matches Ok(lib) && library_is(lib, st),
            Err(ResolveFailure::Own(f, c)) => r matches Err(d) && model_error(d, f.0, f.1, c, f.2),
        },
{
    let mut lib = builtin_library();
    let ghost n = builtin_catalog().len();
    let ghost st0: ResolveState = (builtin_keys(), seq![], seq![]);
    let ghost mut st: ResolveState = st0;
    proof {
        assert(registry_keys(lib.models@) =~= builtin_keys()) by {
            assert forall|i: int| 0 <= i < n implies registry_keys(lib.models@)[i] == builtin_keys()[i] by {
                assert(is_builtin(lib.models@[i].1, builtin_catalog()[i]));
            }
        }
        assert(library_is(lib, st));
    }
    let incs = &program.model_includes;
    let ghost iv = crate::ast::include_views(incs@);
    let mut seen: Vec<String> = Vec::new();
    let mut k: usize = 0;
    assert(iv.take(0) =~= Seq::<(Seq<char>, Seq<char>)>::empty());
    assert(views(seen@) =~= Seq::<Seq<char>>::empty());
    while k < incs.len()
        invariant
            k <= incs.len(),
            st0 == (builtin_keys(), Seq::<ModelOrigin>::empty(), Seq::<Seq<char>>::empty()),
            incs@ == program.model_includes@,
            iv == crate::ast::include_views(incs@),
            include_steps(st0, iv.take(k as int)) == Ok::<ResolveState, ResolveFailure>(st),
            library_is(lib, st),
            registry_keys(lib.models@) == st.0,
            views(seen@) == st.2,
        decreases incs.len() - k,
    {
        assert(iv.take(k + 1).drop_last() =~= iv.take(k as int));
        assert(iv.take(k + 1).last() == (incs@[k as int].package@, incs@[k as int].version@));
        let key = crate::text::to_lower(incs[k].package.as_str());
        if crate::model_resources::has_name(&seen, &key) {
            let mut m = owned("duplicate model package include '");
            append_str(&mut m, incs[k].package.as_str());
            append_str(&mut m, "'");
            let d = error("KES-C013", m, None, "model_include");
            proof {
                assert(st.2.contains(crate::text::lower(iv[k as int].0)));
                lemma_includes_stop(st0, iv, k as int);
            }
            return Err(d);
        }
        let (package, mut models) = match resolve_package(key.as_str(), incs[k].version.as_str()) {
            Err(d) => {
                proof {
                    lemma_includes_stop(st0, iv, k as int);
                }
                return Err(d);
            },
            Ok(x) => x,
        };
        let m = models.pop().unwrap();
        let ghost o = ModelOrigin::Catalog(package_entry());
        let ghost st_pushed: ResolveState = (st.0, st.1, st.2.push(key@));
        let ghost lib0 = lib;
        match add_model(&mut lib, m, Ghost(st_pushed), Ghost(o)) {
            Err(d) => {
                proof {
                    lemma_includes_stop(st0, iv, k as int);
                }
                return Err(d);
            },
            Ok(()) => {},
        }
        proof {
            lemma_library_grows(lib0, lib, st, m, o);
        }
        let ghost lib1 = lib;
        lib.packages.push(package);
        seen.push(key);
        proof {
            st = (st.0.push(upper(origin_name(o))), st.1.push(o), st.2.push(key@));
            assert(lib.entries() == lib1.entries());
            assert forall|j: int| 0 <= j < lib.package_list().len() implies {
                let p = #[trigger] lib.package_list()[j];
                p.name@ == "kessetsu_analog"@ && p.version@ == "1.0.0"@ && p.license@ == "Apache-2.0"@
                    && p.content_hash@ == content_hash_spec(package_entry().3)
            } by {
                if j < lib1.package_list().len() {
                    assert(lib.package_list()[j] == lib1.package_list()[j]);
                }
            }
            assert(views(seen@) =~= st.2);
        }
        k = k + 1;
    }
    assert(iv.take(k as int) =~= iv);
    let ghost st1 = st;
    let ghost mv = model_entries(*program, *readings);
    let ms = &program.models;
    let mut c: usize = 0;
    assert(mv.take(0) =~= Seq::<(Seq<char>, Result<BuiltinEntry, ModelFailure>)>::empty());
    while c < ms.len()
        invariant
            c <= ms.len(),
            ms@ == program.models@,
            readings_fit(*program, *readings),
            mv == model_entries(*program, *readings),
            st0 == (builtin_keys(), Seq::<ModelOrigin>::empty(), Seq::<Seq<char>>::empty()),
            iv == crate::ast::include_views(program.model_includes@),
            given_steps(st1, mv.take(c as int)) == Ok::<ResolveState, ResolveFailure>(st),
            include_steps(st0, iv) == Ok::<ResolveState, ResolveFailure>(st1),
            library_is(lib, st),
            registry_keys(lib.models@) == st.0,
        decreases ms.len() - c,
    {
        assert(mv.take(c + 1).drop_last() =~= mv.take(c as int));
        assert(mv.take(c + 1).last() == mv[c as int]);
        assert(readings.models@[c as int]@.len() == ms@[c as int].parameters@.len());
        let m = match compile_user_model(&ms[c], &readings.models[c]) {
            Err(d) => {
                proof {
                    lemma_given_stop(st1, mv, c as int);
                }
                return Err(d);
            },
            Ok(m) => m,
        };
        let ghost o = ModelOrigin::Catalog(mv[c as int].1->Ok_0);
        let ghost lib0 = lib;
        match add_model(&mut lib, m, Ghost(st), Ghost(o)) {
            Err(d) => {
                proof {
                    lemma_given_stop(st1, mv, c as int);
                }
                return Err(d);
            },
            Ok(()) => {},
        }
        proof {
            lemma_library_grows(lib0, lib, st, m, o);
            st = (st.0.push(upper(origin_name(o))), st.1.push(o), st.2);
        }
        c = c + 1;
    }
    assert(mv.take(c as int) =~= mv);
    let ghost st15 = st;
    let ghost sv = subcircuit_entries(*program, *readings);
    let ss = &program.subcircuits;
    let mut c: usize = 0;
    assert(sv.take(0) =~= Seq::<(Seq<char>, Result<BuiltinEntry, ModelFailure>)>::empty());
    while c < ss.len()
        invariant
            c <= ss.len(),
            ss@ == program.subcircuits@,
            readings_fit(*program, *readings),
            mv == model_entries(*program, *readings),
            sv == subcircuit_entries(*program, *readings),
            st0 == (builtin_keys(), Seq::<ModelOrigin>::empty(), Seq::<Seq<char>>::empty()),
            iv == crate::ast::include_views(program.model_includes@),
            given_steps(st15, sv.take(c as int)) == Ok::<ResolveState, ResolveFailure>(st),
            given_steps(st1, mv) == Ok::<ResolveState, ResolveFailure>(st15),
            include_steps(st0, iv) == Ok::<ResolveState, ResolveFailure>(st1),
            library_is(lib, st),
            registry_keys(lib.models@) == st.0,
        decreases ss.len() - c,
    {
        assert(sv.take(c + 1).drop_last() =~= sv.take(c as int));
        assert(sv.take(c + 1).last() == sv[c as int]);
        assert(readings.subcircuits@[c as int]@.len() == ss@[c as int].parameters@.len());
        let m = match compile_user_subcircuit(&ss[c], &readings.subcircuits[c], readings.poles[c].as_str()) {
            Err(d) => {
                proof {
                    lemma_given_stop(st15, sv, c as int);
                }
                return Err(d);
            },
            Ok(m) => m,
        };
        let ghost o = ModelOrigin::Catalog(sv[c as int].1->Ok_0);
        let ghost lib0 = lib;
        match add_model(&mut lib, m, Ghost(st), Ghost(o)) {
            Err(d) => {
                proof {
                    lemma_given_stop(st15, sv, c as int);
                }
                return Err(d);
            },
            Ok(()) => {},
        }
        proof {
            lemma_library_grows(lib0, lib, st, m, o);
            st = (st.0.push(upper(origin_name(o))), st.1.push(o), st.2);
        }
        c = c + 1;
    }
    assert(sv.take(c as int) =~= sv);
    let ghost st2 = st;
    let ds = &program.external_subcircuits;
    let ghost dv = crate::ast::external_views(ds@);
    let mut e: usize = 0;
    assert(dv.take(0) =~= Seq::<(Seq<char>, Seq<char>, Seq<Seq<char>>, Seq<(Seq<char>, Seq<char>)>)>::empty());
    while e < ds.len()
        invariant
            e <= ds.len(),
            st0 == (builtin_keys(), Seq::<ModelOrigin>::empty(), Seq::<Seq<char>>::empty()),
            iv == crate::ast::include_views(program.model_includes@),
            mv == model_entries(*program, *readings),
            sv == subcircuit_entries(*program, *readings),
            ds@ == program.external_subcircuits@,
            dv == crate::ast::external_views(ds@),
            external_steps(st2, dv.take(e as int), resources@) == Ok::<ResolveState, ResolveFailure>(st),
            include_steps(st0, iv) == Ok::<ResolveState, ResolveFailure>(st1),
            given_steps(st15, sv) == Ok::<ResolveState, ResolveFailure>(st2),
            given_steps(st1, mv) == Ok::<ResolveState, ResolveFailure>(st15),
            library_is(lib, st),
            registry_keys(lib.models@) == st.0,
        decreases ds.len() - e,
    {
        assert(dv.take(e + 1).drop_last() =~= dv.take(e as int));
        assert(dv.take(e + 1).last() == dv[e as int]);
        assert(dv[e as int] == (ds@[e as int].kind@, ds@[e as int].name@, views(ds@[e as int].pins@),
            crate::ast::named_views(ds@[e as int].parameters@)));
        let m = match compile_external_subcircuit(&ds[e], resources) {
            Err(d) => {
                proof {
                    lemma_externals_stop(st2, dv, resources@, e as int);
                }
                return Err(d);
            },
            Ok(m) => m,
        };
        let ghost o = match compile_external_spec(dv[e as int], resources@) {
            Ok((kind, x, digest)) => ModelOrigin::External(dv[e as int].1, kind, x, digest),
            Err(_) => ModelOrigin::Given(m),
        };
        let ghost lib0 = lib;
        match add_model(&mut lib, m, Ghost(st), Ghost(o)) {
            Err(d) => {
                proof {
                    lemma_externals_stop(st2, dv, resources@, e as int);
                }
                return Err(d);
            },
            Ok(()) => {},
        }
        proof {
            lemma_library_grows(lib0, lib, st, m, o);
            st = (st.0.push(upper(origin_name(o))), st.1.push(o), st.2);
        }
        e = e + 1;
    }
    assert(dv.take(e as int) =~= dv);
    Ok(lib)
}

/// Resolves a program's models with no local model files bound.
pub fn resolve_program_models(
    program: &crate::ast::Program,
    readings: &UserReadings,
) -> (r: Result<ModelLibrary, SemanticDiagnostic>)
    requires
        readings_fit(*program, *readings),
    ensures
        match resolve_spec(
            crate::ast::include_views(program.model_includes@),
            model_entries(*program, *readings),
            subcircuit_entries(*program, *readings),
            crate::ast::external_views(program.external_subcircuits@),
            Seq::empty(),
        ) {
            Ok(st) => r matches Ok(lib) && library_is(lib, st),
            Err(ResolveFailure::Own(f, c)) => r matches Err(d) && model_error(d, f.0, f.1, c, f.2),
        },
{
    let none = ExternalModelResources::new();
    resolve_program_models_with_resources(program, &none, readings)
}


// ---------------------------------------------------------------------------
// The manifest of the models a circuit uses.

/// The upper-cased names of the used models, each once, in ascending order.
pub open spec fn used_names(used: Seq<ModelRef>) -> Seq<Seq<char>>
    decreases used.len(),
{
    if used.len() == 0 {
        seq![]
    } else {
        let rest = used_names(used.drop_last());
        let k = upper(used.last().name@);
        if rest.contains(k) {
            rest
        } else {
            crate::model_resources::insert_sorted(rest, k)
        }
    }
}

/// The registry positions of those of `names` that the registry holds, in order.
pub open spec fn listed_entries(e: Seq<(String, ModelRef)>, names: Seq<Seq<char>>) -> Seq<int>
    decreases names.len(),
{
    if names.len() == 0 {
        seq![]
    } else {
        let rest = listed_entries(e, names.drop_last());
        match entry_index(e, names.last()) {
            Some(i) => rest.push(i),
            None => rest,
        }
    }
}

/// A manifest entry recording model `m`: its identity, provenance and, for an
/// external subcircuit, its binding.
pub open spec fn manifest_entry_of(x: ModelManifestEntry, m: ModelRef) -> bool {
    &&& x.name@ == m.name@
    &&& x.kind == m.kind
    &&& x.source == m.source
    &&& same_provenance(x.provenance, m.provenance)
    &&& match (x.external, m.definition) {
        (Some(a), ModelDefinition::ExternalSubcircuit { metadata }) => same_metadata(a, metadata),
        (None, ModelDefinition::ExternalSubcircuit { .. }) => false,
        (None, _) => true,
        (Some(_), _) => false,
    }
}

pub open spec fn same_package(a: ResolvedModelPackage, b: ResolvedModelPackage) -> bool {
    a.name@ == b.name@ && a.version@ == b.version@ && a.license@ == b.license@ && a.content_hash@ == b.content_hash@
}

impl ModelLibrary {
    /// The manifest of the models that a circuit's components use: each
    /// registered one once, in ascending order of upper-cased name, with the
    /// library's packages.
    pub fn manifest(&self, used: &Vec<ModelRef>) -> (m: ModelManifest)
        ensures
            m.schema_version@ == MODEL_MANIFEST_SCHEMA_VERSION@,
            m.packages@.len() == self.package_list().len(),
            forall|i: int| 0 <= i < m.packages@.len() ==> same_package(#[trigger] m.packages@[i], self.package_list()[i]),
            ({
                let ix = listed_entries(self.entries(), used_names(used@));
                &&& m.models@.len() == ix.len()
                &&& forall|i: int| 0 <= i < ix.len() ==> manifest_entry_of(#[trigger] m.models@[i], self.entries()[ix[i]].1)
            }),
    {
        let mut names: Vec<String> = Vec::new();
        let mut i: usize = 0;
        assert(views(names@) =~= Seq::<Seq<char>>::empty());
        while i < used.len()
            invariant
                i <= used.len(),
                views(names@) == used_names(used@.take(i as int)),
            decreases used.len() - i,
        {
            proof {
                assert(used@.take(i + 1).drop_last() =~= used@.take(i as int));
                assert(used@.take(i + 1).last() == used@[i as int]);
            }
            let key = to_upper(used[i].name.as_str());
            if !crate::model_resources::has_name(&names, &key) {
                crate::model_resources::insert_name_sorted(&mut names, key);
            }
            i = i + 1;
        }
        assert(used@.take(used.len() as int) =~= used@);
        let ghost nv = views(names@);
        let ghost e = self.entries();
        let ghost mut ix: Seq<int> = seq![];
        let mut models: Vec<ModelManifestEntry> = Vec::new();
        let mut j: usize = 0;
        while j < names.len()
            invariant
                j <= names.len(),
                nv == views(names@),
                e == self.entries(),
                e == self.models@,
                ix == listed_entries(e, nv.take(j as int)),
                models@.len() == ix.len(),
                forall|k: int| 0 <= k < ix.len() ==> 0 <= #[trigger] ix[k] < e.len(),
                forall|k: int| 0 <= k < ix.len() ==> manifest_entry_of(#[trigger] models@[k], e[ix[k]].1),
            decreases names.len() - j,
        {
            proof {
                assert(nv.take(j + 1).drop_last() =~= nv.take(j as int));
                assert(nv.take(j + 1).last() == names@[j as int]@);
            }
            match find_entry(&self.models, names[j].as_str()) {
                Some(p) => {
                    let c = copy_model(&self.models[p].1);
                    let external = match c.definition {
                        ModelDefinition::ExternalSubcircuit { metadata } => Some(metadata),
                        _ => None,
                    };
                    let x = ModelManifestEntry {
                        name: c.name,
                        kind: c.kind,
                        source: c.source,
                        provenance: c.provenance,
                        external,
                    };
                    assert(manifest_entry_of(x, e[p as int].1));
                    let ghost before = models@;
                    models.push(x);
                    proof {
                        ix = ix.push(p as int);
                        assert forall|k: int| 0 <= k < ix.len() implies manifest_entry_of(#[trigger] models@[k], e[ix[k]].1) by {
                            if k < before.len() {
                                assert(models@[k] == before[k]);
                            }
                        }
                    }
                },
                None => {},
            }
            j = j + 1;
        }
        assert(nv.take(names.len() as int) =~= nv);
        let mut packages: Vec<ResolvedModelPackage> = Vec::new();
        let mut q: usize = 0;
        while q < self.packages.len()
            invariant
                q <= self.packages.len(),
                self.packages@ == self.package_list(),
                packages@.len() == q,
                forall|k: int| 0 <= k < q ==> same_package(#[trigger] packages@[k], self.package_list()[k]),
            decreases self.packages.len() - q,
        {
            let src = &self.packages[q];
            packages.push(
                ResolvedModelPackage {
                    name: owned(src.name.as_str()),
                    version: owned(src.version.as_str()),
                    license: owned(src.license.as_str()),
                    content_hash: owned(src.content_hash.as_str()),
                },
            );
            q = q + 1;
        }
        ModelManifest { schema_version: owned(MODEL_MANIFEST_SCHEMA_VERSION), packages, models }
    }
}


// ---------------------------------------------------------------------------
// Lookup ignores ASCII case.

proof fn lemma_least_entry(m: Seq<(String, ModelRef)>, key: Seq<char>, w: int)
    requires
        0 <= w < m.len(),
        m[w].0@ == key,
    ensures
        exists|i: int| 0 <= i < m.len() && (#[trigger] m[i]).0@ == key && forall|j: int| 0 <= j < i ==> m[j].0@ != key,
    decreases w,
{
    if exists|j: int| 0 <= j < w && (#[trigger] m[j]).0@ == key {
        let j = choose|j: int| 0 <= j < w && (#[trigger] m[j]).0@ == key;
        lemma_least_entry(m, key, j);
    } else {
        assert(forall|j: int| 0 <= j < w ==> (#[trigger] m[j]).0@ != key);
    }
}

pub proof fn lemma_entry_index_valid(m: Seq<(String, ModelRef)>, key: Seq<char>)
    ensures
        entry_index(m, key) matches Some(i) ==> 0 <= i < m.len() && m[i].0@ == key,
{
    if exists|w: int| 0 <= w < m.len() && (#[trigger] m[w]).0@ == key {
        let w = choose|w: int| 0 <= w < m.len() && (#[trigger] m[w]).0@ == key;
        lemma_least_entry(m, key, w);
    }
}


proof fn lemma_case_chars(c: char)
    ensures
        ascii_upper_char(ascii_lower_char(c)) == ascii_upper_char(c),
        ascii_lower_char(ascii_upper_char(c)) == ascii_lower_char(c),
        ascii_upper_char(ascii_upper_char(c)) == ascii_upper_char(c),
{
    if crate::text::is_ascii_upper(c) {
        assert((((c as u32) + 32) as char) as u32 == (c as u32) + 32);
        assert(((((c as u32) + 32) as char) as u32 - 32) as char == c);
    }
    if crate::text::is_ascii_lower(c) {
        assert((((c as u32) - 32) as char) as u32 == (c as u32) - 32);
        assert(((((c as u32) - 32) as char) as u32 + 32) as char == c);
    }
}

/// Texts that agree but for ASCII case have one upper-cased form, and then
/// one lower-cased form.
pub proof fn lemma_case_forms(a: Seq<char>)
    ensures
        upper(crate::text::lower(a)) == upper(a),
        upper(upper(a)) == upper(a),
        forall|b: Seq<char>| upper(a) == upper(b) ==> #[trigger] crate::text::eq_ignore_case(a, b),
{
    assert forall|i: int| 0 <= i < a.len() implies upper(crate::text::lower(a))[i] == upper(a)[i] && upper(upper(a))[i]
        == upper(a)[i] by {
        lemma_case_chars(a[i]);
    }
    assert(upper(crate::text::lower(a)) =~= upper(a));
    assert(upper(upper(a)) =~= upper(a));
    assert forall|b: Seq<char>| upper(a) == upper(b) implies #[trigger] crate::text::eq_ignore_case(a, b) by {
        assert(a.len() == upper(a).len() && b.len() == upper(b).len());
        assert forall|i: int| 0 <= i < a.len() implies crate::text::lower(a)[i] == crate::text::lower(b)[i] by {
            lemma_case_chars(a[i]);
            lemma_case_chars(b[i]);
            assert(upper(a)[i] == upper(b)[i]);
        }
        assert(crate::text::lower(a) =~= crate::text::lower(b));
    }
}

/// Registration keeps the keys it started from, in their places.
proof fn lemma_include_keys_kept(st: ResolveState, incs: Seq<(Seq<char>, Seq<char>)>)
    requires
        include_steps(st, incs) is Ok,
    ensures
        include_steps(st, incs)->Ok_0.0.len() >= st.0.len(),
        forall|j: int| 0 <= j < st.0.len() ==> include_steps(st, incs)->Ok_0.0[j] == st.0[j],
    decreases incs.len(),
{
    if incs.len() > 0 {
        lemma_include_keys_kept(st, incs.drop_last());
    }
}

/// Each user declaration that registration takes compiled and had a name
/// whose upper-cased form was not yet a key.
proof fn lemma_given_fresh(st: ResolveState, cs: Seq<(Seq<char>, Result<BuiltinEntry, ModelFailure>)>)
    requires
        given_steps(st, cs) is Ok,
    ensures
        given_steps(st, cs)->Ok_0.0.len() >= st.0.len(),
        forall|j: int| 0 <= j < st.0.len() ==> given_steps(st, cs)->Ok_0.0[j] == st.0[j],
        forall|j: int|
            0 <= j < cs.len() ==> (#[trigger] cs[j]).1 is Ok && !st.0.contains(upper(cs[j].1->Ok_0.0)),
    decreases cs.len(),
{
    if cs.len() > 0 {
        let prev = cs.drop_last();
        lemma_given_fresh(st, prev);
        let s = given_steps(st, prev)->Ok_0;
        assert forall|j: int| 0 <= j < cs.len() implies (#[trigger] cs[j]).1 is Ok && !st.0.contains(
            upper(cs[j].1->Ok_0.0),
        ) by {
            if j < cs.len() - 1 {
                assert(prev[j] == cs[j]);
            } else {
                let key = upper(cs[j].1->Ok_0.0);
                if st.0.contains(key) {
                    let k = choose|k: int| 0 <= k < st.0.len() && st.0[k] == key;
                    assert(s.0[k] == st.0[k]);
                    assert(s.0.contains(key));
                }
            }
        }
    }
}

/// What compiling a user model or subcircuit gives carries its name.
proof fn lemma_entries_named(p: crate::ast::Program, u: UserReadings)
    ensures
        forall|i: int|
            0 <= i < p.models@.len() && (#[trigger] model_entries(p, u)[i]).1 is Ok ==> model_entries(p, u)[i].1->Ok_0.0
                == p.models@[i].name@,
        forall|i: int|
            0 <= i < p.subcircuits@.len() && (#[trigger] subcircuit_entries(p, u)[i]).1 is Ok
                ==> subcircuit_entries(p, u)[i].1->Ok_0.0 == p.subcircuits@[i].name@,
{
}

/// No user model or subcircuit takes a built-in model's name, in any ASCII
/// case: where resolving a program succeeds, the upper-cased name of each of
/// its user declarations is no built-in's.
pub proof fn lemma_user_names_avoid_builtins(
    p: crate::ast::Program,
    u: UserReadings,
    res: Seq<(Seq<char>, Seq<u8>)>,
)
    requires
        readings_fit(p, u),
        resolve_spec(
            crate::ast::include_views(p.model_includes@),
            model_entries(p, u),
            subcircuit_entries(p, u),
            crate::ast::external_views(p.external_subcircuits@),
            res,
        ) is Ok,
    ensures
        forall|i: int| 0 <= i < p.models@.len() ==> !builtin_keys().contains(upper(#[trigger] p.models@[i].name@)),
        forall|i: int|
            0 <= i < p.subcircuits@.len() ==> !builtin_keys().contains(upper(#[trigger] p.subcircuits@[i].name@)),
{
    let st0: ResolveState = (builtin_keys(), seq![], seq![]);
    let iv = crate::ast::include_views(p.model_includes@);
    let mv = model_entries(p, u);
    let sv = subcircuit_entries(p, u);
    lemma_include_keys_kept(st0, iv);
    let s1 = include_steps(st0, iv)->Ok_0;
    lemma_given_fresh(s1, mv);
    let s2 = given_steps(s1, mv)->Ok_0;
    lemma_given_fresh(s2, sv);
    lemma_entries_named(p, u);
    assert forall|i: int| 0 <= i < p.models@.len() implies !builtin_keys().contains(
        upper(#[trigger] p.models@[i].name@),
    ) by {
        assert(mv[i].1 is Ok);
        let key = upper(p.models@[i].name@);
        if builtin_keys().contains(key) {
            let k = choose|k: int| 0 <= k < builtin_keys().len() && builtin_keys()[k] == key;
            assert(s1.0[k] == st0.0[k]);
            assert(s1.0.contains(key));
        }
    }
    assert forall|i: int| 0 <= i < p.subcircuits@.len() implies !builtin_keys().contains(
        upper(#[trigger] p.subcircuits@[i].name@),
    ) by {
        assert(sv[i].1 is Ok);
        let key = upper(p.subcircuits@[i].name@);
        if builtin_keys().contains(key) {
            let k = choose|k: int| 0 <= k < builtin_keys().len() && builtin_keys()[k] == key;
            assert(s1.0[k] == st0.0[k]);
            assert(s2.0[k] == s1.0[k]);
            assert(s2.0.contains(key));
        }
    }
}

/// In a well-formed registry a name resolves as its lower- and upper-cased
/// forms do, and to a model whose name equals it but for ASCII case.
pub proof fn lemma_resolve_ignores_case(lib: ModelLibrary, name: Seq<char>)
    requires
        registry_ok(lib.entries()),
    ensures
        entry_index(lib.entries(), upper(crate::text::lower(name))) == entry_index(lib.entries(), upper(name)),
        entry_index(lib.entries(), upper(upper(name))) == entry_index(lib.entries(), upper(name)),
        entry_index(lib.entries(), upper(name)) matches Some(i) ==> 0 <= i < lib.entries().len()
            && crate::text::eq_ignore_case(lib.entries()[i].1.name@, name),
{
    lemma_case_forms(name);
    let e = lib.entries();
    lemma_entry_index_valid(e, upper(name));
    if let Some(i) = entry_index(e, upper(name)) {
        lemma_case_forms(e[i].1.name@);
        assert(upper(e[i].1.name@) == upper(name));
    }
}

} // verus!
