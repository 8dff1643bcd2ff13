//! The component catalog: symbol, SPICE prefix, footprint and ordered pins of
//! each component kind, and the conduction path through each two-sided device.
use crate::ir::{BJTPolarity, ComponentKind, ExternalDeviceFamily};
use crate::text::chars_of;
use vstd::prelude::*;

verus! {

#[derive(Debug, Clone, Copy, PartialEq, Eq, Structural)]
pub enum PinSide {
    Left,
    Right,
    Top,
    Bottom,
}

#[derive(Debug, Clone, Copy, PartialEq, Eq, Structural)]
pub enum CatalogSymbol {
    Resistor,
    Capacitor,
    Inductor,
    Diode,
    Bjt,
    Mosfet,
    OpAmp,
    VoltageSource,
    CurrentSource,
    ModulePort,
    ExternalDevice,
}

#[derive(Debug, Clone, Copy, PartialEq, Eq, Structural)]
pub enum PinFlow {
    Passive,
    Input,
    Output,
    Power,
    Reference,
    Conduction,
}

#[derive(Debug, Clone, Copy, PartialEq, Eq)]
pub struct PinDefinition {
    pub name: &'static str,
    pub x: i32,
    pub y: i32,
    pub is_signal: bool,
    pub flow: PinFlow,
    pub side: PinSide,
}

#[derive(Debug, Clone, PartialEq, Eq)]
pub struct ComponentDefinition {
    pub symbol: CatalogSymbol,
    pub display_name: &'static str,
    pub spice_prefix: Option<&'static str>,
    pub width: i32,
    pub height: i32,
    pub pins: Vec<PinDefinition>,
}

/// A catalog pin: name, grid position, signal flag, flow and side.
pub type PinSpec = (Seq<char>, int, int, bool, PinFlow, PinSide);

pub open spec fn pin_view(p: PinDefinition) -> PinSpec {
    (p.name@, p.x as int, p.y as int, p.is_signal, p.flow, p.side)
}

pub open spec fn two_pin_spec() -> Seq<PinSpec> {
    seq![
        ("p1"@, 0, 0, false, PinFlow::Passive, PinSide::Left),
        ("p2"@, 2, 0, false, PinFlow::Passive, PinSide::Right),
    ]
}

pub open spec fn source_pin_spec() -> Seq<PinSpec> {
    seq![
        ("plus"@, 0, 0, false, PinFlow::Output, PinSide::Left),
        ("minus"@, 2, 0, false, PinFlow::Reference, PinSide::Right),
    ]
}

pub open spec fn npn_pin_spec() -> Seq<PinSpec> {
    seq![
        ("c"@, 2, 0, false, PinFlow::Conduction, PinSide::Top),
        ("b"@, 0, 1, true, PinFlow::Input, PinSide::Left),
        ("e"@, 2, 2, false, PinFlow::Conduction, PinSide::Bottom),
    ]
}

pub open spec fn pnp_pin_spec() -> Seq<PinSpec> {
    seq![
        ("c"@, 2, 2, false, PinFlow::Conduction, PinSide::Bottom),
        ("b"@, 0, 1, true, PinFlow::Input, PinSide::Left),
        ("e"@, 2, 0, false, PinFlow::Conduction, PinSide::Top),
    ]
}

pub open spec fn mosfet_pin_spec() -> Seq<PinSpec> {
    seq![
        ("d"@, 2, 0, false, PinFlow::Conduction, PinSide::Top),
        ("g"@, 0, 1, true, PinFlow::Input, PinSide::Left),
        ("s"@, 2, 2, false, PinFlow::Conduction, PinSide::Bottom),
    ]
}

pub open spec fn opamp_pin_spec() -> Seq<PinSpec> {
    seq![
        ("in_p"@, 0, 0, true, PinFlow::Input, PinSide::Left),
        ("in_n"@, 0, 2, true, PinFlow::Input, PinSide::Left),
        ("vcc"@, 1, -1, false, PinFlow::Power, PinSide::Top),
        ("vee"@, 1, 3, false, PinFlow::Power, PinSide::Bottom),
        ("out"@, 3, 1, false, PinFlow::Output, PinSide::Right),
    ]
}

/// Symbol, display name, SPICE prefix, size and pins of each kind.
pub open spec fn catalog(kind: ComponentKind) -> (
    CatalogSymbol,
    Seq<char>,
    Option<Seq<char>>,
    int,
    int,
    Seq<PinSpec>,
) {
    match kind {
        ComponentKind::Resistor => (
            CatalogSymbol::Resistor,
            "Resistor"@,
            Some("R"@),
            2,
            1,
            two_pin_spec(),
        ),
        ComponentKind::Capacitor => (
            CatalogSymbol::Capacitor,
            "Capacitor"@,
            Some("C"@),
            2,
            1,
            two_pin_spec(),
        ),
        ComponentKind::Inductor => (
            CatalogSymbol::Inductor,
            "Inductor"@,
            Some("L"@),
            2,
            1,
            two_pin_spec(),
        ),
        ComponentKind::Diode => (CatalogSymbol::Diode, "Diode"@, Some("D"@), 2, 1, two_pin_spec()),
        ComponentKind::BJT(BJTPolarity::NPN) => (
            CatalogSymbol::Bjt,
            "Transistor"@,
            Some("Q"@),
            3,
            3,
            npn_pin_spec(),
        ),
        ComponentKind::BJT(BJTPolarity::PNP) => (
            CatalogSymbol::Bjt,
            "Transistor"@,
            Some("Q"@),
            3,
            3,
            pnp_pin_spec(),
        ),
        ComponentKind::MOSFET(_) => (
            CatalogSymbol::Mosfet,
            "Mosfet"@,
            Some("M"@),
            3,
            3,
            mosfet_pin_spec(),
        ),
        ComponentKind::OpAmp => (CatalogSymbol::OpAmp, "OpAmp"@, Some("X"@), 3, 3, opamp_pin_spec()),
        ComponentKind::ExternalDevice(ExternalDeviceFamily::Comparator) => (
            CatalogSymbol::ExternalDevice,
            "Comparator"@,
            Some("X"@),
            3,
            3,
            opamp_pin_spec(),
        ),
        ComponentKind::ExternalDevice(ExternalDeviceFamily::TwoTerminal) => (
            CatalogSymbol::ExternalDevice,
            "TwoTerminal"@,
            Some("X"@),
            2,
            1,
            two_pin_spec(),
        ),
        ComponentKind::VoltageSource => (
            CatalogSymbol::VoltageSource,
            "Source"@,
            Some("V"@),
            2,
            1,
            source_pin_spec(),
        ),
        ComponentKind::CurrentSource => (
            CatalogSymbol::CurrentSource,
            "CurrentSource"@,
            Some("I"@),
            2,
            1,
            source_pin_spec(),
        ),
        ComponentKind::ModulePort => (
            CatalogSymbol::ModulePort,
            "ModulePort"@,
            None,
            2,
            2,
            seq![],
        ),
    }
}

/// The ordered catalog pin names of a kind.
pub open spec fn pin_names(kind: ComponentKind) -> Seq<Seq<char>> {
    catalog(kind).5.map_values(|p: PinSpec| p.0)
}

pub open spec fn definition_matches(d: ComponentDefinition, kind: ComponentKind) -> bool {
    let c = catalog(kind);
    &&& d.symbol == c.0
    &&& d.display_name@ == c.1
    &&& match (d.spice_prefix, c.2) {
        (Some(a), Some(b)) => a@ == b,
        (None, None) => true,
        _ => false,
    }
    &&& d.width == c.3
    &&& d.height == c.4
    &&& d.pins@.map_values(|p: PinDefinition| pin_view(p)) == c.5
}

fn pin(
    name: &'static str,
    x: i32,
    y: i32,
    is_signal: bool,
    flow: PinFlow,
    side: PinSide,
) -> (p: PinDefinition)
    ensures
        pin_view(p) == (name@, x as int, y as int, is_signal, flow, side),
{
    PinDefinition { name, x, y, is_signal, flow, side }
}

fn two_pin() -> (v: Vec<PinDefinition>)
    ensures
        v@.map_values(|p: PinDefinition| pin_view(p)) == two_pin_spec(),
{
    let v = vec![
        pin("p1", 0, 0, false, PinFlow::Passive, PinSide::Left),
        pin("p2", 2, 0, false, PinFlow::Passive, PinSide::Right),
    ];
    assert(v@.map_values(|p: PinDefinition| pin_view(p)) =~= two_pin_spec());
    v
}

fn source_pins() -> (v: Vec<PinDefinition>)
    ensures
        v@.map_values(|p: PinDefinition| pin_view(p)) == source_pin_spec(),
{
    let v = vec![
        pin("plus", 0, 0, false, PinFlow::Output, PinSide::Left),
        pin("minus", 2, 0, false, PinFlow::Reference, PinSide::Right),
    ];
    assert(v@.map_values(|p: PinDefinition| pin_view(p)) =~= source_pin_spec());
    v
}

fn npn_pins() -> (v: Vec<PinDefinition>)
    ensures
        v@.map_values(|p: PinDefinition| pin_view(p)) == npn_pin_spec(),
{
    let v = vec![
        pin("c", 2, 0, false, PinFlow::Conduction, PinSide::Top),
        pin("b", 0, 1, true, PinFlow::Input, PinSide::Left),
        pin("e", 2, 2, false, PinFlow::Conduction, PinSide::Bottom),
    ];
    assert(v@.map_values(|p: PinDefinition| pin_view(p)) =~= npn_pin_spec());
    v
}

fn pnp_pins() -> (v: Vec<PinDefinition>)
    ensures
        v@.map_values(|p: PinDefinition| pin_view(p)) == pnp_pin_spec(),
{
    let v = vec![
        pin("c", 2, 2, false, PinFlow::Conduction, PinSide::Bottom),
        pin("b", 0, 1, true, PinFlow::Input, PinSide::Left),
        pin("e", 2, 0, false, PinFlow::Conduction, PinSide::Top),
    ];
    assert(v@.map_values(|p: PinDefinition| pin_view(p)) =~= pnp_pin_spec());
    v
}

fn mosfet_pins() -> (v: Vec<PinDefinition>)
    ensures
        v@.map_values(|p: PinDefinition| pin_view(p)) == mosfet_pin_spec(),
{
    let v = vec![
        pin("d", 2, 0, false, PinFlow::Conduction, PinSide::Top),
        pin("g", 0, 1, true, PinFlow::Input, PinSide::Left),
        pin("s", 2, 2, false, PinFlow::Conduction, PinSide::Bottom),
    ];
    assert(v@.map_values(|p: PinDefinition| pin_view(p)) =~= mosfet_pin_spec());
    v
}

fn opamp_pins() -> (v: Vec<PinDefinition>)
    ensures
        v@.map_values(|p: PinDefinition| pin_view(p)) == opamp_pin_spec(),
{
    let v = vec![
        pin("in_p", 0, 0, true, PinFlow::Input, PinSide::Left),
        pin("in_n", 0, 2, true, PinFlow::Input, PinSide::Left),
        pin("vcc", 1, -1, false, PinFlow::Power, PinSide::Top),
        pin("vee", 1, 3, false, PinFlow::Power, PinSide::Bottom),
        pin("out", 3, 1, false, PinFlow::Output, PinSide::Right),
    ];
    assert(v@.map_values(|p: PinDefinition| pin_view(p)) =~= opamp_pin_spec());
    v
}

fn definition(
    symbol: CatalogSymbol,
    display_name: &'static str,
    spice_prefix: &'static str,
    width: i32,
    height: i32,
    pins: Vec<PinDefinition>,
) -> (d: ComponentDefinition)
    ensures
        d.symbol == symbol,
        d.display_name == display_name,
        d.spice_prefix == Some(spice_prefix),
        d.width == width,
        d.height == height,
        d.pins == pins,
{
    ComponentDefinition { symbol, display_name, spice_prefix: Some(spice_prefix), width, height, pins }
}

/// The catalog entry of a component kind.
pub fn component_definition(kind: &ComponentKind) -> (d: ComponentDefinition)
    ensures
        definition_matches(d, *kind),
{
    match kind {
        ComponentKind::Resistor => definition(
            CatalogSymbol::Resistor,
            "Resistor",
            "R",
            2,
            1,
            two_pin(),
        ),
        ComponentKind::Capacitor => definition(
            CatalogSymbol::Capacitor,
            "Capacitor",
            "C",
            2,
            1,
            two_pin(),
        ),
        ComponentKind::Inductor => definition(
            CatalogSymbol::Inductor,
            "Inductor",
            "L",
            2,
            1,
            two_pin(),
        ),
        ComponentKind::Diode => definition(CatalogSymbol::Diode, "Diode", "D", 2, 1, two_pin()),
        ComponentKind::BJT(BJTPolarity::NPN) => definition(
            CatalogSymbol::Bjt,
            "Transistor",
            "Q",
            3,
            3,
            npn_pins(),
        ),
        ComponentKind::BJT(BJTPolarity::PNP) => definition(
            CatalogSymbol::Bjt,
            "Transistor",
            "Q",
            3,
            3,
            pnp_pins(),
        ),
        ComponentKind::MOSFET(_) => definition(
            CatalogSymbol::Mosfet,
            "Mosfet",
            "M",
            3,
            3,
            mosfet_pins(),
        ),
        ComponentKind::OpAmp => definition(CatalogSymbol::OpAmp, "OpAmp", "X", 3, 3, opamp_pins()),
        ComponentKind::ExternalDevice(ExternalDeviceFamily::Comparator) => definition(
            CatalogSymbol::ExternalDevice,
            "Comparator",
            "X",
            3,
            3,
            opamp_pins(),
        ),
        ComponentKind::ExternalDevice(ExternalDeviceFamily::TwoTerminal) => definition(
            CatalogSymbol::ExternalDevice,
            "TwoTerminal",
            "X",
            2,
            1,
            two_pin(),
        ),
        ComponentKind::VoltageSource => definition(
            CatalogSymbol::VoltageSource,
            "Source",
            "V",
            2,
            1,
            source_pins(),
        ),
        ComponentKind::CurrentSource => definition(
            CatalogSymbol::CurrentSource,
            "CurrentSource",
            "I",
            2,
            1,
            source_pins(),
        ),
        ComponentKind::ModulePort => {
            let d = ComponentDefinition {
                symbol: CatalogSymbol::ModulePort,
                display_name: "ModulePort",
                spice_prefix: None,
                width: 2,
                height: 2,
                pins: Vec::new(),
            };
            assert(d.pins@.map_values(|p: PinDefinition| pin_view(p)) =~= Seq::<PinSpec>::empty());
            d
        },
    }
}

/// The pin on the other side of a device's conduction path, for the pin a
/// path enters by.
pub open spec fn through_spec(kind: ComponentKind, entry: Seq<char>) -> Option<Seq<char>> {
    match kind {
        ComponentKind::Resistor | ComponentKind::Capacitor | ComponentKind::Inductor
        | ComponentKind::Diode => if entry == "p1"@ {
            Some("p2"@)
        } else if entry == "p2"@ {
            Some("p1"@)
        } else {
            None
        },
        ComponentKind::VoltageSource | ComponentKind::CurrentSource => if entry == "plus"@ {
            Some("minus"@)
        } else if entry == "minus"@ {
            Some("plus"@)
        } else {
            None
        },
        ComponentKind::BJT(_) => if entry == "c"@ {
            Some("e"@)
        } else if entry == "e"@ {
            Some("c"@)
        } else if entry == "b"@ {
            Some("e"@)
        } else {
            None
        },
        ComponentKind::MOSFET(_) => if entry == "d"@ {
            Some("s"@)
        } else if entry == "s"@ {
            Some("d"@)
        } else if entry == "g"@ {
            Some("s"@)
        } else {
            None
        },
        ComponentKind::OpAmp => if entry == "vcc"@ {
            Some("vee"@)
        } else if entry == "vee"@ {
            Some("vcc"@)
        } else if entry == "in_p"@ || entry == "in_n"@ || entry == "out"@ {
            Some("out"@)
        } else {
            None
        },
        ComponentKind::ExternalDevice(_) => None,
        ComponentKind::ModulePort => None,
    }
}

pub fn through_pin(kind: &ComponentKind, entry_pin: &str) -> (r: Option<&'static str>)
    ensures
        match (r, through_spec(*kind, entry_pin@)) {
            (Some(a), Some(b)) => a@ == b,
            (None, None) => true,
            _ => false,
        },
{
    let e = chars_of(entry_pin);
    match kind {
        ComponentKind::Resistor | ComponentKind::Capacitor | ComponentKind::Inductor
        | ComponentKind::Diode => if crate::text::eq_str(&e, "p1") {
            Some("p2")
        } else if crate::text::eq_str(&e, "p2") {
            Some("p1")
        } else {
            None
        },
        ComponentKind::VoltageSource | ComponentKind::CurrentSource => if crate::text::eq_str(
            &e,
            "plus",
        ) {
            Some("minus")
        } else if crate::text::eq_str(&e, "minus") {
            Some("plus")
        } else {
            None
        },
        ComponentKind::BJT(_) => if crate::text::eq_str(&e, "c") {
            Some("e")
        } else if crate::text::eq_str(&e, "e") {
            Some("c")
        } else if crate::text::eq_str(&e, "b") {
            Some("e")
        } else {
            None
        },
        ComponentKind::MOSFET(_) => if crate::text::eq_str(&e, "d") {
            Some("s")
        } else if crate::text::eq_str(&e, "s") {
            Some("d")
        } else if crate::text::eq_str(&e, "g") {
            Some("s")
        } else {
            None
        },
        ComponentKind::OpAmp => if crate::text::eq_str(&e, "vcc") {
            Some("vee")
        } else if crate::text::eq_str(&e, "vee") {
            Some("vcc")
        } else if crate::text::eq_str(&e, "in_p") || crate::text::eq_str(&e, "in_n")
            || crate::text::eq_str(&e, "out") {
            Some("out")
        } else {
            None
        },
        ComponentKind::ExternalDevice(_) => None,
        ComponentKind::ModulePort => None,
    }
}

/// A module port accepts any pin name; other kinds accept their catalog pins.
pub fn is_valid_pin(kind: &ComponentKind, pin: &str) -> (r: bool)
    ensures
        r == (*kind == ComponentKind::ModulePort || pin_names(*kind).contains(pin@)),
{
    if *kind == ComponentKind::ModulePort {
        return true;
    }
    let d = component_definition(kind);
    let p = chars_of(pin);
    let ghost names = pin_names(*kind);
    let mut i: usize = 0;
    while i < d.pins.len()
        invariant
            i <= d.pins.len(),
            definition_matches(d, *kind),
            names == pin_names(*kind),
            p@ == pin@,
            forall|j: int| 0 <= j < i ==> names[j] != pin@,
        decreases d.pins.len() - i,
    {
        assert(names[i as int] == d.pins@[i as int].name@);
        if crate::text::eq_str(&p, d.pins[i].name) {
            assert(names[i as int] == pin@);
            return true;
        }
        i = i + 1;
    }
    false
}

/// Whether the kind has a catalog pin of that name that carries a signal input.
pub fn is_signal_pin(kind: &ComponentKind, pin: &str) -> (r: bool)
    ensures
        r == exists|i: int|
            0 <= i < catalog(*kind).5.len() && catalog(*kind).5[i].0 == pin@ && catalog(
                *kind,
            ).5[i].3,
{
    let d = component_definition(kind);
    let p = chars_of(pin);
    let ghost t = catalog(*kind).5;
    let mut i: usize = 0;
    while i < d.pins.len()
        invariant
            i <= d.pins.len(),
            definition_matches(d, *kind),
            t == catalog(*kind).5,
            p@ == pin@,
            forall|j: int| 0 <= j < i ==> !(t[j].0 == pin@ && t[j].3),
        decreases d.pins.len() - i,
    {
        assert(t[i as int] == pin_view(d.pins@[i as int]));
        if crate::text::eq_str(&p, d.pins[i].name) && d.pins[i].is_signal {
            return true;
        }
        i = i + 1;
    }
    false
}

} // verus!
