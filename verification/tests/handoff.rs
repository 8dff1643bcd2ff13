use kessetsu::graph::TopologyComponent;
use kessetsu::handoff::{generate_handoff_manifest, included_in_bom, PART_STRESS_DISCLAIMER};
use kessetsu::ir::{
    ComponentKind, ExternalDeviceFamily, ExternalModelMetadata, ModelManifest, ModelManifestEntry, ModelProvenance,
    ModelSource, RedistributionPolicy, SimulatorCompatibility,
};
use kessetsu::parts::{
    compile_physical_parts, LimitReading, LimitReadings, PartAssignmentDecl, PartField, PhysicalPartManifest,
};
use sha2::{Digest, Sha256};

fn component(id: &str, kind: ComponentKind) -> TopologyComponent {
    TopologyComponent { id: id.to_string(), kind, module_pins: None }
}

fn circuit() -> Vec<TopologyComponent> {
    vec![
        component("V1", ComponentKind::VoltageSource),
        component("R1", ComponentKind::Resistor),
        component("R2", ComponentKind::Resistor),
        component("P1", ComponentKind::ModulePort),
    ]
}

fn provenance(hash: &str) -> ModelProvenance {
    ModelProvenance {
        source: "vendor".to_string(),
        license: "vendor".to_string(),
        version: "1".to_string(),
        content_hash: hash.to_string(),
        simulator: "ngspice".to_string(),
    }
}

fn manifest() -> ModelManifest {
    ModelManifest {
        schema_version: "kessetsu.models.v1".to_string(),
        packages: vec![],
        models: vec![
            ModelManifestEntry {
                name: "CMP".to_string(),
                kind: ComponentKind::ExternalDevice(ExternalDeviceFamily::Comparator),
                source: ModelSource::External,
                provenance: provenance("sha256:abc"),
                external: Some(ExternalModelMetadata {
                    resource: "models/cmp.lib".to_string(),
                    entry: "CMP".to_string(),
                    pins: vec![],
                    simulator: SimulatorCompatibility::Ngspice,
                    redistribution: RedistributionPolicy::Prohibited,
                    instance_parameters: vec![],
                }),
            },
            ModelManifestEntry {
                name: "1N4148".to_string(),
                kind: ComponentKind::Diode,
                source: ModelSource::Builtin,
                provenance: provenance("sha256:def"),
                external: None,
            },
        ],
    }
}

fn parts(fields: &[(&str, &str)]) -> PhysicalPartManifest {
    let decl = PartAssignmentDecl {
        component: "R2".to_string(),
        fields: fields.iter().map(|(n, v)| PartField { name: n.to_string(), value: v.to_string() }).collect(),
        line: 1,
        column: 1,
    };
    let readings = vec![LimitReadings {
        peak_voltage: LimitReading::Accepted,
        peak_current: LimitReading::Accepted,
        average_dissipation: LimitReading::Accepted,
    }];
    compile_physical_parts(&vec![decl], &circuit(), &readings).expect("parts")
}

#[test]
fn handoff_lists_dependencies_and_gaps() {
    let parts = parts(&[
        ("mpn", "RC0603"),
        ("footprint", "R_0603"),
        ("pin_map", "p1:1,p2:2"),
        ("peak_voltage_limit", "50V"),
        ("peak_voltage_conditions", "25 C"),
    ]);
    let json = b"{\"components\":[]}".to_vec();
    let m = generate_handoff_manifest(&circuit(), &manifest(), parts, "kessetsu.compile.v3", &json);
    assert_eq!(m.schema_version, "kessetsu.handoff.v2");
    assert_eq!(m.generator, "kessetsu-handoff");
    assert_eq!(m.generator_version, "0.1.0");
    assert_eq!(m.compile_schema_version, "kessetsu.compile.v3");
    assert_eq!(m.circuit_ir_sha256, format!("sha256:{:x}", Sha256::digest(&json)));
    assert_eq!(m.counts.electrical_components, 2);
    assert_eq!(m.counts.assigned_parts, 1);
    assert_eq!(m.counts.eda_ready_footprints, 1);
    assert_eq!(m.counts.external_model_dependencies, 1);
    assert_eq!(m.counts.provided_part_ratings, 1);
    assert_eq!(m.unresolved_components, vec!["R1".to_string()]);
    assert_eq!(m.footprints.len(), 1);
    assert_eq!(m.footprints[0].component, "R2");
    assert_eq!(m.footprints[0].footprint, "R_0603");
    assert!(m.footprints[0].eda_ready);
    assert_eq!(m.model_dependencies.len(), 1);
    let d = &m.model_dependencies[0];
    assert_eq!(
        (d.model.as_str(), d.resource.as_str(), d.entry.as_str(), d.sha256.as_str(), d.simulator.as_str(), d.redistribution.as_str()),
        ("CMP", "models/cmp.lib", "CMP", "sha256:abc", "ngspice", "prohibited")
    );
    assert_eq!(
        m.warnings,
        vec![
            "Unassigned electrical components remain; the BOM is not procurement-complete.".to_string(),
            "One or more external model bodies cannot be redistributed; provide the exact hash-bound files separately."
                .to_string(),
            PART_STRESS_DISCLAIMER.to_string(),
        ]
    );
    assert_eq!(m.physical_parts.assignments.len(), 1);
}

#[test]
fn footprint_without_pads_is_not_ready() {
    let m = generate_handoff_manifest(
        &circuit(),
        &ModelManifest { schema_version: "v".to_string(), packages: vec![], models: vec![] },
        parts(&[("footprint", "R_0603")]),
        "c",
        b"",
    );
    assert_eq!(m.counts.eda_ready_footprints, 0);
    assert!(!m.footprints[0].eda_ready);
    assert_eq!(
        m.warnings,
        vec![
            "Unassigned electrical components remain; the BOM is not procurement-complete.".to_string(),
            "A footprint without a complete pin map is recorded but not safe for automatic EDA attachment."
                .to_string(),
        ]
    );
    assert_eq!(m.circuit_ir_sha256, "sha256:e3b0c44298fc1c149afbf4c8996fb92427ae41e4649b934ca495991b7852b855");
}

#[test]
fn only_board_parts_enter_the_bom() {
    assert!(included_in_bom(&ComponentKind::Resistor));
    assert!(included_in_bom(&ComponentKind::OpAmp));
    assert!(!included_in_bom(&ComponentKind::VoltageSource));
    assert!(!included_in_bom(&ComponentKind::CurrentSource));
    assert!(!included_in_bom(&ComponentKind::ModulePort));
}
