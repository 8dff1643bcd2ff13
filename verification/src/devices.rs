//! The kind of each declared component and, for the semiconductor, op-amp
//! and external device types, the registered model that it names.
use crate::ast::{ComponentDecl, ComponentType};
use crate::component::pin_names;
use crate::ir::{opt_view, BJTPolarity, ComponentKind, ModelRef, SemanticDiagnostic};
use crate::models::{
    debug_list_spec, declared_pins, entry_index, kind_debug_text, model_error, same_model,
    validate_component_model_pins, ModelLibrary,
};
use crate::text::{append_str, eq_ignore_case, eq_ignore_case_exec, owned, upper};
use vstd::prelude::*;

verus! {

/// The kind of the types whose kind does not depend on a model.
pub open spec fn fixed_kind(t: ComponentType) -> Option<ComponentKind> {
    match t {
        ComponentType::Resistor => Some(ComponentKind::Resistor),
        ComponentType::Capacitor => Some(ComponentKind::Capacitor),
        ComponentType::Inductor => Some(ComponentKind::Inductor),
        ComponentType::Source => Some(ComponentKind::VoltageSource),
        ComponentType::CurrentSource => Some(ComponentKind::CurrentSource),
        ComponentType::ModulePort => Some(ComponentKind::ModulePort),
        _ => None,
    }
}

/// The types whose value is a number, and so may be an expression.
pub open spec fn numeric_type(t: ComponentType) -> bool {
    t == ComponentType::Resistor || t == ComponentType::Capacitor || t == ComponentType::Inductor || t
        == ComponentType::Source || t == ComponentType::CurrentSource
}

/// The polarity a transistor's subtype asks for: PNP when it reads `pnp`
/// in any case, else NPN.
pub open spec fn polarity_hint(subtype: Option<Seq<char>>) -> Option<BJTPolarity> {
    match subtype {
        Some(s) => Some(if eq_ignore_case(s, "pnp"@) { BJTPolarity::PNP } else { BJTPolarity::NPN }),
        None => None,
    }
}

/// The model a declaration names: its value, or the type's default model
/// where the value is empty.
pub open spec fn requested_model(t: ComponentType, subtype: Option<Seq<char>>, value: Seq<char>) -> Seq<char> {
    if value.len() > 0 {
        value
    } else {
        match t {
            ComponentType::Transistor => if polarity_hint(subtype) == Some(BJTPolarity::PNP) {
                "2N3906"@
            } else {
                "2N3904"@
            },
            ComponentType::Mosfet => "IRF540"@,
            ComponentType::Diode => "1N4148"@,
            ComponentType::OpAmp => "KESSETSU_OPAMP_V1"@,
            _ => value,
        }
    }
}

pub open spec fn unsupported_message(t: ComponentType, name: Seq<char>, req: Seq<char>) -> Seq<char> {
    match t {
        ComponentType::Transistor => "unsupported BJT model '"@ + req
            + "'; user-defined models are not yet declared by the language"@,
        ComponentType::Mosfet => "unsupported MOSFET model '"@ + req
            + "'; user-defined models are not yet declared by the language"@,
        ComponentType::Diode => "unsupported diode model '"@ + req
            + "'; user-defined models are not yet declared by the language"@,
        ComponentType::OpAmp => "unsupported op-amp model '"@ + req + "'"@,
        _ => "device '"@ + name + "' requires a declared external device model"@,
    }
}

pub open spec fn polarity_text(p: BJTPolarity) -> Seq<char> {
    match p {
        BJTPolarity::NPN => "NPN"@,
        BJTPolarity::PNP => "PNP"@,
    }
}

/// Whether a subcircuit model lists the kind's catalog pins in order.
pub open spec fn pins_ok(kind: ComponentKind, m: ModelRef) -> bool {
    match declared_pins(m.definition) {
        Some(p) => p == pin_names(kind),
        None => true,
    }
}

/// The pin check's message for a model whose pins do not match.
pub open spec fn pins_message(m: ModelRef, kind: ComponentKind) -> Seq<char> {
    "subcircuit '"@ + m.name@ + "' pin order "@ + debug_list_spec(declared_pins(m.definition)->0)
        + " does not match "@ + kind_debug_text(kind) + " catalog order "@ + debug_list_spec(pin_names(kind))
}

/// Why a declaration has no kind and model.
pub enum DeviceFailure {
    /// Code, message and field, about the declared component.
    Own(Seq<char>, Seq<char>, Seq<char>),
    /// The model at this registry position does not list the kind's pins.
    Pins(int, ComponentKind),
}

pub open spec fn not_kind(req: Seq<char>, what: Seq<char>) -> DeviceFailure {
    DeviceFailure::Own("KES-C004"@, "model '"@ + req + "' is not "@ + what, "model"@)
}

/// The kind, and the registry position of the model, of the resolved model
/// `m` at position `i` for a declaration of a model-backed type.
pub open spec fn checked_model(
    t: ComponentType,
    subtype: Option<Seq<char>>,
    value: Seq<char>,
    req: Seq<char>,
    i: int,
    m: ModelRef,
) -> Result<(ComponentKind, Option<int>), DeviceFailure> {
    match t {
        ComponentType::Transistor => match m.kind {
            ComponentKind::BJT(p) => match polarity_hint(subtype) {
                Some(h) => if h != p {
                    Err(
                        DeviceFailure::Own(
                            "KES-C004"@,
                            "BJT polarity "@ + polarity_text(h) + " conflicts with model '"@ + req + "' ("@
                                + polarity_text(p) + ")"@,
                            "model"@,
                        ),
                    )
                } else {
                    Ok((ComponentKind::BJT(p), Some(i)))
                },
                None => Ok((ComponentKind::BJT(p), Some(i))),
            },
            _ => Err(not_kind(req, "a BJT model"@)),
        },
        ComponentType::Mosfet => match m.kind {
            ComponentKind::MOSFET(p) => Ok((ComponentKind::MOSFET(p), Some(i))),
            _ => Err(not_kind(req, "a MOSFET model"@)),
        },
        ComponentType::Diode => if m.kind == ComponentKind::Diode {
            Ok((ComponentKind::Diode, Some(i)))
        } else {
            Err(not_kind(req, "a diode model"@))
        },
        ComponentType::OpAmp => if m.kind != ComponentKind::OpAmp {
            Err(not_kind(req, "an op-amp subcircuit"@))
        } else if !pins_ok(ComponentKind::OpAmp, m) {
            Err(DeviceFailure::Pins(i, ComponentKind::OpAmp))
        } else {
            Ok((ComponentKind::OpAmp, Some(i)))
        },
        _ => match m.kind {
            ComponentKind::ExternalDevice(_) => if !pins_ok(m.kind, m) {
                Err(DeviceFailure::Pins(i, m.kind))
            } else {
                Ok((m.kind, Some(i)))
            },
            _ => Err(not_kind(value, "an external device interface"@)),
        },
    }
}

/// The kind of a declaration and, for a model-backed type, the registry
/// position of the model it names.
pub open spec fn device_spec(
    t: ComponentType,
    name: Seq<char>,
    subtype: Option<Seq<char>>,
    value: Seq<char>,
    has_expression: bool,
    entries: Seq<(String, ModelRef)>,
) -> Result<(ComponentKind, Option<int>), DeviceFailure> {
    if has_expression && !numeric_type(t) {
        Err(
            DeviceFailure::Own(
                "KES-C022"@,
                "Expressions are only accepted in numeric component fields, not model names"@,
                "value"@,
            ),
        )
    } else {
        match fixed_kind(t) {
            Some(k) => Ok((k, None)),
            None => {
                let req = requested_model(t, subtype, value);
                match entry_index(entries, upper(req)) {
                    None => Err(DeviceFailure::Own("KES-C003"@, unsupported_message(t, name, req), "model"@)),
                    Some(i) => checked_model(t, subtype, value, req, i, entries[i].1),
                }
            },
        }
    }
}

pub open spec fn value_text(v: Option<String>) -> Seq<char> {
    match v {
        Some(s) => s@,
        None => Seq::empty(),
    }
}

fn polarity_name(p: BJTPolarity) -> (s: &'static str)
    ensures
        s@ == polarity_text(p),
{
    match p {
        BJTPolarity::NPN => "NPN",
        BJTPolarity::PNP => "PNP",
    }
}

fn own_error(code: &str, message: String, name: &str, field: &str) -> (d: SemanticDiagnostic)
    ensures
        model_error(d, code@, message@, Some(name@), field@),
{
    crate::ir::semantic_error(code, message, Some(name), Some(field))
}

fn not_kind_error(req: &str, what: &str, name: &str) -> (d: SemanticDiagnostic)
    ensures
        model_error(d, "KES-C004"@, "model '"@ + req@ + "' is not "@ + what@, Some(name@), "model"@),
{
    let mut m = owned("model '");
    append_str(&mut m, req);
    append_str(&mut m, "' is not ");
    append_str(&mut m, what);
    own_error("KES-C004", m, name, "model")
}

proof fn lemma_same_pins(a: ModelRef, b: ModelRef)
    requires
        same_model(a, b),
    ensures
        declared_pins(a.definition) == declared_pins(b.definition),
        a.name@ == b.name@,
        a.kind == b.kind,
{
}

/// The kind of a declared component and, for the semiconductor, op-amp and
/// external device types, a copy of the registered model that it names,
/// checked against the type (and, for subcircuits, against the catalog
/// pins).
pub fn component_kind_and_model(decl: &ComponentDecl, library: &ModelLibrary) -> (r: Result<
    (ComponentKind, Option<ModelRef>),
    SemanticDiagnostic,
>)
    ensures
        match device_spec(
            decl.comp_type,
            decl.name@,
            opt_view(decl.subtype),
            value_text(decl.value),
            decl.value_expression is Some,
            library.entries(),
        ) {
            Ok((k, None)) => r matches Ok((k2, None)) && k2 == k,
            Ok((k, Some(i))) => r matches Ok((k2, Some(m))) && k2 == k && same_model(m, library.entries()[i].1),
            Err(DeviceFailure::Own(code, message, field)) => r matches Err(d) && model_error(
                d,
                code,
                message,
                Some(decl.name@),
                field,
            ),
            Err(DeviceFailure::Pins(i, kind)) => r matches Err(d) && model_error(
                d,
                "KES-C012"@,
                pins_message(library.entries()[i].1, kind),
                Some(library.entries()[i].1.name@),
                "pins"@,
            ),
        },
{
    let t = decl.comp_type;
    let name = decl.name.as_str();
    let numeric = match t {
        ComponentType::Resistor | ComponentType::Capacitor | ComponentType::Inductor | ComponentType::Source
        | ComponentType::CurrentSource => true,
        _ => false,
    };
    if decl.value_expression.is_some() && !numeric {
        return Err(
            own_error(
                "KES-C022",
                owned("Expressions are only accepted in numeric component fields, not model names"),
                name,
                "value",
            ),
        );
    }
    match t {
        ComponentType::Resistor => return Ok((ComponentKind::Resistor, None)),
        ComponentType::Capacitor => return Ok((ComponentKind::Capacitor, None)),
        ComponentType::Inductor => return Ok((ComponentKind::Inductor, None)),
        ComponentType::Source => return Ok((ComponentKind::VoltageSource, None)),
        ComponentType::CurrentSource => return Ok((ComponentKind::CurrentSource, None)),
        ComponentType::ModulePort => return Ok((ComponentKind::ModulePort, None)),
        _ => {},
    }
    let value: &str = match &decl.value {
        Some(v) => v.as_str(),
        None => "",
    };
    proof {
        reveal_strlit("");
    }
    assert(value@ == value_text(decl.value));
    let hint: Option<BJTPolarity> = match &decl.subtype {
        Some(s) => Some(if eq_ignore_case_exec(s.as_str(), "pnp") { BJTPolarity::PNP } else { BJTPolarity::NPN }),
        None => None,
    };
    assert(hint == polarity_hint(opt_view(decl.subtype)));
    let value_chars = crate::text::chars_of(value);
    let requested: &str = if value_chars.len() > 0 {
        value
    } else {
        match t {
            ComponentType::Transistor => if hint == Some(BJTPolarity::PNP) {
                "2N3906"
            } else {
                "2N3904"
            },
            ComponentType::Mosfet => "IRF540",
            ComponentType::Diode => "1N4148",
            ComponentType::OpAmp => "KESSETSU_OPAMP_V1",
            _ => value,
        }
    };
    assert(requested@ == requested_model(t, opt_view(decl.subtype), value@));
    let ghost entries = library.entries();
    let model = match library.resolve(requested) {
        Some(m) => m,
        None => {
            let m = match t {
                ComponentType::Transistor => {
                    let mut m = owned("unsupported BJT model '");
                    append_str(&mut m, requested);
                    append_str(&mut m, "'; user-defined models are not yet declared by the language");
                    m
                },
                ComponentType::Mosfet => {
                    let mut m = owned("unsupported MOSFET model '");
                    append_str(&mut m, requested);
                    append_str(&mut m, "'; user-defined models are not yet declared by the language");
                    m
                },
                ComponentType::Diode => {
                    let mut m = owned("unsupported diode model '");
                    append_str(&mut m, requested);
                    append_str(&mut m, "'; user-defined models are not yet declared by the language");
                    m
                },
                ComponentType::OpAmp => {
                    let mut m = owned("unsupported op-amp model '");
                    append_str(&mut m, requested);
                    append_str(&mut m, "'");
                    m
                },
                _ => {
                    let mut m = owned("device '");
                    append_str(&mut m, name);
                    append_str(&mut m, "' requires a declared external device model");
                    m
                },
            };
            return Err(own_error("KES-C003", m, name, "model"));
        },
    };
    let ghost i = entry_index(entries, upper(requested@))->0;
    proof {
        lemma_same_pins(model, entries[i].1);
    }
    match t {
        ComponentType::Transistor => {
            let p = match model.kind {
                ComponentKind::BJT(p) => p,
                _ => return Err(not_kind_error(requested, "a BJT model", name)),
            };
            if let Some(h) = hint {
                if h != p {
                    let mut m = owned("BJT polarity ");
                    append_str(&mut m, polarity_name(h));
                    append_str(&mut m, " conflicts with model '");
                    append_str(&mut m, requested);
                    append_str(&mut m, "' (");
                    append_str(&mut m, polarity_name(p));
                    append_str(&mut m, ")");
                    return Err(own_error("KES-C004", m, name, "model"));
                }
            }
            Ok((ComponentKind::BJT(p), Some(model)))
        },
        ComponentType::Mosfet => match model.kind {
            ComponentKind::MOSFET(p) => Ok((ComponentKind::MOSFET(p), Some(model))),
            _ => Err(not_kind_error(requested, "a MOSFET model", name)),
        },
        ComponentType::Diode => match model.kind {
            ComponentKind::Diode => Ok((ComponentKind::Diode, Some(model))),
            _ => Err(not_kind_error(requested, "a diode model", name)),
        },
        ComponentType::OpAmp => match model.kind {
            ComponentKind::OpAmp => {
                match validate_component_model_pins(&ComponentKind::OpAmp, &model) {
                    Err(d) => Err(d),
                    Ok(()) => Ok((ComponentKind::OpAmp, Some(model))),
                }
            },
            _ => Err(not_kind_error(requested, "an op-amp subcircuit", name)),
        },
        _ => match model.kind {
            ComponentKind::ExternalDevice(f) => {
                match validate_component_model_pins(&model.kind, &model) {
                    Err(d) => Err(d),
                    Ok(()) => Ok((ComponentKind::ExternalDevice(f), Some(model))),
                }
            },
            _ => Err(not_kind_error(value, "an external device interface", name)),
        },
    }
}


proof fn lemma_checked_kind(
    t: ComponentType,
    subtype: Option<Seq<char>>,
    value: Seq<char>,
    req: Seq<char>,
    i: int,
    m: ModelRef,
)
    requires
        checked_model(t, subtype, value, req, i, m) is Ok,
    ensures
        checked_model(t, subtype, value, req, i, m)->Ok_0 == (m.kind, Some(i)),
{
}

/// A component that takes a model has the model's kind, and only the
/// semiconductor, op-amp and external device types take one.
pub proof fn lemma_component_has_model_kind(
    t: ComponentType,
    name: Seq<char>,
    subtype: Option<Seq<char>>,
    value: Seq<char>,
    has_expression: bool,
    entries: Seq<(String, ModelRef)>,
)
    requires
        device_spec(t, name, subtype, value, has_expression, entries) is Ok,
    ensures
        match device_spec(t, name, subtype, value, has_expression, entries)->Ok_0 {
            (k, Some(i)) => 0 <= i < entries.len() && entries[i].1.kind == k && fixed_kind(t) is None,
            (k, None) => fixed_kind(t) == Some(k),
        },
{
    if !(has_expression && !numeric_type(t)) && fixed_kind(t) is None {
        let req = requested_model(t, subtype, value);
        crate::models::lemma_entry_index_valid(entries, upper(req));
        let i = entry_index(entries, upper(req))->0;
        lemma_checked_kind(t, subtype, value, req, i, entries[i].1);
    }
}

} // verus!
