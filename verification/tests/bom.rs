use kessetsu::bom::{bom_rows, generate_bom_csv, DrawnComponent};
use kessetsu::ir::{ComponentKind, PartRatingKind};
use kessetsu::lowering::LoweredComponent;
use kessetsu::parts::{PhysicalPartAssignment, PhysicalPartManifest, ProvidedPartRating};

fn component(id: &str, kind: ComponentKind) -> LoweredComponent {
    LoweredComponent { id: id.to_string(), instance_path: vec![], kind, model: None, module_pins: None }
}

fn drawn(id: &str, reference: &str, label: Option<&str>) -> DrawnComponent {
    DrawnComponent { id: id.to_string(), reference: reference.to_string(), label: label.map(|l| l.to_string()) }
}

fn resistor_part(component: &str) -> PhysicalPartAssignment {
    PhysicalPartAssignment {
        component: component.to_string(),
        manufacturer: Some("Yageo".to_string()),
        mpn: Some("RC0603".to_string()),
        footprint: Some("R_0603".to_string()),
        pin_map: vec![("1".to_string(), "1".to_string()), ("2".to_string(), "2".to_string())],
        note: None,
        ratings: vec![ProvidedPartRating {
            kind: PartRatingKind::PeakVoltage,
            limit: "50V".to_string(),
            conditions: "25C".to_string(),
            source: Some("ds.pdf".to_string()),
        }],
    }
}

const HEADER: &str = "item,quantity,references,component_kind,electrical,manufacturer,mpn,footprint,pin_map,selection_status,eda_status,provided_ratings,rating_conditions,rating_sources,note\r\n";

#[test]
fn bom_groups_equal_parts_and_orders_rows_by_columns() {
    let components = vec![
        component("R2", ComponentKind::Resistor),
        component("V1", ComponentKind::VoltageSource),
        component("C1", ComponentKind::Capacitor),
        component("R1", ComponentKind::Resistor),
    ];
    let drawing = vec![drawn("R1", "R1", Some("10k")), drawn("R2", "R2", Some("10k")), drawn("C1", "C1", None)];
    let parts = PhysicalPartManifest {
        schema_version: "kessetsu.physical-parts.v2".to_string(),
        assignments: vec![resistor_part("R1"), resistor_part("R2")],
    };
    let limits = vec!["peak_voltage<=50 V".to_string(), "peak_voltage<=50 V".to_string()];
    let csv = String::from_utf8(generate_bom_csv(&components, &parts, &drawing, &limits)).unwrap();
    let expected = format!(
        "{HEADER}{}{}",
        "\"1\",\"1\",\"C1\",\"Capacitor\",\"\",\"\",\"\",\"\",\"\",\"unassigned\",\"no_footprint\",\"\",\"\",\"\",\"\"\r\n",
        "\"2\",\"2\",\"R1;R2\",\"Resistor\",\"10k\",\"Yageo\",\"RC0603\",\"R_0603\",\"1:1;2:2\",\"selected\",\"ready\",\"peak_voltage<=50 V\",\"peak_voltage:25C\",\"ds.pdf\",\"\"\r\n",
    );
    assert_eq!(csv, expected);
}

#[test]
fn bom_statuses_sources_and_quoting() {
    let components = vec![component("D1", ComponentKind::Diode), component("X9", ComponentKind::ModulePort)];
    let part = PhysicalPartAssignment {
        component: "D1".to_string(),
        manufacturer: Some("Vishay".to_string()),
        mpn: None,
        footprint: Some("SOD-123".to_string()),
        pin_map: vec![],
        note: Some("use \"A\" grade".to_string()),
        ratings: vec![
            ProvidedPartRating {
                kind: PartRatingKind::PeakCurrent,
                limit: "1A".to_string(),
                conditions: "pulse".to_string(),
                source: Some("b.pdf".to_string()),
            },
            ProvidedPartRating {
                kind: PartRatingKind::AverageDissipation,
                limit: "0.5W".to_string(),
                conditions: "still air".to_string(),
                source: Some("a.pdf".to_string()),
            },
            ProvidedPartRating {
                kind: PartRatingKind::PeakVoltage,
                limit: "100V".to_string(),
                conditions: "dc".to_string(),
                source: Some("b.pdf".to_string()),
            },
        ],
    };
    let parts = PhysicalPartManifest { schema_version: "kessetsu.physical-parts.v2".to_string(), assignments: vec![part] };
    let limits = vec!["given".to_string()];
    let csv = String::from_utf8(generate_bom_csv(&components, &parts, &vec![], &limits)).unwrap();
    let expected = format!(
        "{HEADER}{}",
        "\"1\",\"1\",\"D1\",\"Diode\",\"\",\"Vishay\",\"\",\"SOD-123\",\"\",\"incomplete\",\"pin_map_missing\",\"given\",\"peak_current:pulse;average_dissipation:still air;peak_voltage:dc\",\"a.pdf;b.pdf\",\"use \"\"A\"\" grade\"\r\n",
    );
    assert_eq!(csv, expected);
}

#[test]
fn bom_of_no_board_components_is_the_header() {
    let components = vec![component("V1", ComponentKind::VoltageSource), component("I1", ComponentKind::CurrentSource)];
    let parts = PhysicalPartManifest { schema_version: String::new(), assignments: vec![] };
    let rows = bom_rows(&components, &vec![], &parts.assignments, &vec![]);
    assert!(rows.is_empty());
    let csv = String::from_utf8(generate_bom_csv(&components, &parts, &vec![], &vec![])).unwrap();
    assert_eq!(csv, HEADER);
}

#[test]
fn bom_references_come_in_ascending_order_and_fall_back_to_ids() {
    let components = vec![
        component("R3", ComponentKind::Resistor),
        component("R1", ComponentKind::Resistor),
        component("R2", ComponentKind::Resistor),
    ];
    let drawing = vec![drawn("R1", "R10", None)];
    let parts = PhysicalPartManifest { schema_version: String::new(), assignments: vec![] };
    let rows = bom_rows(&components, &drawing, &parts.assignments, &vec![]);
    assert_eq!(rows.len(), 1);
    assert_eq!(rows[0].references, vec!["R10".to_string(), "R2".to_string(), "R3".to_string()]);
    assert_eq!(rows[0].key[6], "unassigned");
}
