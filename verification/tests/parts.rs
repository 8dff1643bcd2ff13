use kessetsu::graph::TopologyComponent;
use kessetsu::ir::{ComponentKind, PartRatingKind, SIUnit, SemanticDiagnostic};
use kessetsu::parts::{
    compile_physical_parts, parse_physical_pin_map, rating_limit_text, rating_unit, LimitReading,
    LimitReadings, PartAssignmentDecl, PartField, PhysicalPartManifest,
};

fn component(id: &str, kind: ComponentKind) -> TopologyComponent {
    TopologyComponent { id: id.to_string(), kind, module_pins: None }
}

fn circuit() -> Vec<TopologyComponent> {
    vec![
        component("V1", ComponentKind::VoltageSource),
        component("R1", ComponentKind::Resistor),
        component("R2", ComponentKind::Resistor),
        component("P1", ComponentKind::ModulePort),
    ]
}

fn decl(component: &str, fields: &[(&str, &str)], line: usize) -> PartAssignmentDecl {
    PartAssignmentDecl {
        component: component.to_string(),
        fields: fields
            .iter()
            .map(|(name, value)| PartField { name: name.to_string(), value: value.to_string() })
            .collect(),
        line,
        column: 5,
    }
}

fn accepted() -> LimitReadings {
    LimitReadings {
        peak_voltage: LimitReading::Accepted,
        peak_current: LimitReading::Accepted,
        average_dissipation: LimitReading::Accepted,
    }
}

fn compile(decls: &[PartAssignmentDecl]) -> Result<PhysicalPartManifest, SemanticDiagnostic> {
    let readings = decls.iter().map(|_| accepted()).collect();
    compile_physical_parts(&decls.to_vec(), &circuit(), &readings)
}

fn refusal(decls: &[PartAssignmentDecl]) -> (String, String, String) {
    let d = compile(decls).expect_err("refused");
    assert_eq!(d.code, "KES-C024");
    (d.message, d.component.unwrap(), d.field.unwrap())
}

fn pins(v: &[(&str, &str)]) -> Vec<(String, String)> {
    v.iter().map(|(a, b)| (a.to_string(), b.to_string())).collect()
}

#[test]
fn full_assignment_compiles() {
    let m = compile(&[decl(
        "R1",
        &[
            ("Manufacturer", "Yageo"),
            ("mpn", "RC0603FR-0710KL"),
            ("footprint", "R_0603"),
            ("pin_map", " p2 : 2 , p1:1"),
            ("peak_voltage_limit", "50V"),
            ("peak_voltage_conditions", "25 C"),
            ("rating_source", "datasheet"),
        ],
        3,
    )])
    .expect("compiles");
    assert_eq!(m.schema_version, "kessetsu.physical-parts.v2");
    assert_eq!(m.assignments.len(), 1);
    let a = &m.assignments[0];
    assert_eq!(a.component, "R1");
    assert_eq!(a.manufacturer.as_deref(), Some("Yageo"));
    assert_eq!(a.mpn.as_deref(), Some("RC0603FR-0710KL"));
    assert_eq!(a.footprint.as_deref(), Some("R_0603"));
    assert_eq!(a.note, None);
    assert_eq!(a.pin_map, pins(&[("p1", "1"), ("p2", "2")]));
    assert_eq!(a.ratings.len(), 1);
    assert_eq!(a.ratings[0].kind, PartRatingKind::PeakVoltage);
    assert_eq!(a.ratings[0].limit, "50V");
    assert_eq!(a.ratings[0].conditions, "25 C");
    assert_eq!(a.ratings[0].source.as_deref(), Some("datasheet"));
}

#[test]
fn assignments_come_out_by_component() {
    let m = compile(&[decl("R2", &[("mpn", "B")], 1), decl("R1", &[("mpn", "A")], 2)]).expect("compiles");
    let order: Vec<&str> = m.assignments.iter().map(|a| a.component.as_str()).collect();
    assert_eq!(order, vec!["R1", "R2"]);
}

#[test]
fn second_assignment_names_the_first() {
    let r = refusal(&[decl("R1", &[("mpn", "A")], 3), decl("R1", &[("mpn", "B")], 9)]);
    assert_eq!(
        r,
        (
            "physical part for 'R1' is assigned more than once (first assignment at 3:5)".to_string(),
            "R1".to_string(),
            "part".to_string()
        )
    );
}

#[test]
fn targets_must_be_real_parts() {
    assert_eq!(refusal(&[decl("R9", &[], 1)]).0, "physical part target 'R9' is not a declared component");
    assert_eq!(
        refusal(&[decl("P1", &[], 1)]).0,
        "module interfaces are virtual and cannot receive a physical part"
    );
    assert_eq!(
        refusal(&[decl("V1", &[], 1)]).0,
        "independent simulation sources are abstract stimuli and cannot receive a physical part"
    );
}

#[test]
fn field_names_are_checked() {
    assert_eq!(
        refusal(&[decl("R1", &[("color", "red")], 1)]),
        (
            "unknown physical-part field 'color'; use identity/footprint fields or an explicit provided rating"
                .to_string(),
            "R1".to_string(),
            "color".to_string()
        )
    );
    assert_eq!(
        refusal(&[decl("R1", &[("MPN", "A"), ("mpn", "B")], 1)]),
        ("duplicate physical-part field 'mpn'".to_string(), "R1".to_string(), "mpn".to_string())
    );
}

#[test]
fn field_values_are_bounded() {
    assert_eq!(
        refusal(&[decl("R1", &[("note", "  ")], 1)]),
        (
            "physical-part field 'note' must be non-empty, control-free and at most 1024 bytes".to_string(),
            "R1".to_string(),
            "note".to_string()
        )
    );
    let long = "x".repeat(257);
    assert_eq!(
        refusal(&[decl("R1", &[("mpn", long.as_str())], 1)]).0,
        "physical-part field 'mpn' must be non-empty, control-free and at most 256 bytes"
    );
    assert_eq!(
        refusal(&[decl("R1", &[("peak_current_conditions", "a\tb"), ("manufacturer", "")], 1)]).0,
        "physical-part field 'manufacturer' must be non-empty, control-free and at most 256 bytes"
    );
    assert!(compile(&[decl("R1", &[("mpn", "x".repeat(256).as_str())], 1)]).is_ok());
}

#[test]
fn pin_map_needs_a_footprint() {
    assert_eq!(
        refusal(&[decl("R1", &[("pin_map", "p1:1,p2:2")], 1)]),
        ("pin_map requires an explicit footprint".to_string(), "R1".to_string(), "pin_map".to_string())
    );
}

#[test]
fn pin_map_entries_are_checked() {
    let read = |s: &str| parse_physical_pin_map("R1", s, &ComponentKind::Resistor).map_err(|d| d.message);
    assert_eq!(read("p2:B, p1:A"), Ok(pins(&[("p1", "A"), ("p2", "B")])));
    assert_eq!(read("p1-1,p2:2"), Err("invalid pin_map entry 'p1-1'; expected logical_pin:physical_pad".to_string()));
    assert_eq!(read("p3:1"), Err("pin_map names unknown logical pin 'p3'; expected p1, p2".to_string()));
    assert_eq!(
        read("p1:a b,p2:2"),
        Err("physical pad 'a b' must use letters, digits, '_', '-' or '.'".to_string())
    );
    assert_eq!(read("p1:1,p1:2"), Err("logical pin 'p1' is mapped more than once".to_string()));
    assert_eq!(read("p1:1,p2:1"), Err("physical pad '1' is assigned more than once".to_string()));
    assert_eq!(read("p1:1"), Err("pin_map is incomplete; add mappings for p2".to_string()));
    assert_eq!(read("p1:1,"), Err("invalid pin_map entry ''; expected logical_pin:physical_pad".to_string()));
    let bjt = parse_physical_pin_map("Q1", "c:1", &ComponentKind::BJT(kessetsu::ir::BJTPolarity::NPN))
        .expect_err("incomplete");
    assert_eq!(bjt.message, "pin_map is incomplete; add mappings for b, e");
    assert_eq!(bjt.component.as_deref(), Some("Q1"));
    assert_eq!(bjt.field.as_deref(), Some("pin_map"));
}

#[test]
fn ratings_need_both_halves() {
    assert_eq!(
        refusal(&[decl("R1", &[("peak_current_limit", "1A")], 1)]),
        (
            "peak_current_limit requires peak_current_conditions".to_string(),
            "R1".to_string(),
            "peak_current_conditions".to_string()
        )
    );
    assert_eq!(
        refusal(&[decl("R1", &[("average_dissipation_conditions", "still air")], 1)]),
        (
            "average_dissipation_conditions requires average_dissipation_limit".to_string(),
            "R1".to_string(),
            "average_dissipation_limit".to_string()
        )
    );
    assert_eq!(
        refusal(&[decl("R1", &[("rating_source", "datasheet")], 1)]),
        (
            "rating_source requires at least one provided rating limit".to_string(),
            "R1".to_string(),
            "rating_source".to_string()
        )
    );
}

#[test]
fn limit_readings_decide_the_limit() {
    let d = decl("R1", &[("peak_voltage_limit", "fast"), ("peak_voltage_conditions", "25 C")], 1);
    let unreadable = LimitReadings {
        peak_voltage: LimitReading::Unreadable("unknown suffix".to_string()),
        ..accepted()
    };
    let e = compile_physical_parts(&vec![d.clone()], &circuit(), &vec![unreadable]).expect_err("refused");
    assert_eq!(e.message, "invalid peak_voltage_limit: unknown suffix");
    assert_eq!(e.field.as_deref(), Some("peak_voltage_limit"));
    let negative = LimitReadings { peak_voltage: LimitReading::NotPositive, ..accepted() };
    let e = compile_physical_parts(&vec![d.clone()], &circuit(), &vec![negative]).expect_err("refused");
    assert_eq!(e.message, "peak_voltage_limit must be finite and greater than zero");
    assert_eq!(rating_limit_text(&d, PartRatingKind::PeakVoltage).as_deref(), Some("fast"));
    assert_eq!(rating_limit_text(&d, PartRatingKind::PeakCurrent), None);
    assert_eq!(rating_unit(PartRatingKind::PeakVoltage), SIUnit::Volt);
    assert_eq!(rating_unit(PartRatingKind::PeakCurrent), SIUnit::Ampere);
    assert_eq!(rating_unit(PartRatingKind::AverageDissipation), SIUnit::Watt);
}
