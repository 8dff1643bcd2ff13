use kessetsu::capabilities::{capability_manifest, CAPABILITIES_SCHEMA_VERSION};
use kessetsu::experiment::MAX_CASES;
use kessetsu::exporter::export_capabilities;
use kessetsu::measurement::SUPPORTED_METRICS;

#[test]
fn manifest_uses_live_export_and_measurement_catalogs() {
    let manifest = capability_manifest("kessetsu.cli.v1");
    assert_eq!(manifest.schema_version, CAPABILITIES_SCHEMA_VERSION);
    assert_eq!(manifest.exports, export_capabilities());
    assert_eq!(
        manifest.language.measurement_metrics,
        SUPPORTED_METRICS
            .iter()
            .map(|metric| (*metric).to_string())
            .collect::<Vec<_>>()
    );
    assert!(
        manifest
            .commands
            .iter()
            .any(|command| command.name == "test")
    );
    assert_eq!(manifest.limits.experiment_cases, MAX_CASES);
}

#[test]
fn manifest_contracts_are_sorted_and_name_the_cli_schema() {
    let manifest = capability_manifest("kessetsu.cli.v9");
    let names: Vec<&str> = manifest.contracts.iter().map(|(name, _)| name.as_str()).collect();
    let mut sorted = names.clone();
    sorted.sort();
    assert_eq!(names, sorted);
    assert!(manifest
        .contracts
        .iter()
        .any(|(name, version)| name == "cli" && version == "kessetsu.cli.v9"));
    assert!(manifest
        .contracts
        .iter()
        .any(|(name, version)| name == "models" && version == "kessetsu.models.v2"));
    assert_eq!(manifest.commands.len(), 12);
    assert_eq!(manifest.commands[0].name, "capabilities");
    assert_eq!(manifest.calculators, vec!["divider".to_string(), "rc-lowpass".to_string()]);
    assert_eq!(manifest.limits.external_model_bytes, 16 * 1024 * 1024);
}

#[test]
fn only_the_cli_contract_follows_the_argument() {
    let a = capability_manifest("kessetsu.cli.v1");
    let b = capability_manifest("other.v2");
    assert_eq!(a.contracts[1], ("cli".to_string(), "kessetsu.cli.v1".to_string()));
    assert_eq!(b.contracts[1], ("cli".to_string(), "other.v2".to_string()));
    assert_eq!(a.contracts.len(), b.contracts.len());
    for i in 0..a.contracts.len() {
        if i != 1 {
            assert_eq!(a.contracts[i], b.contracts[i]);
        }
    }
    assert_eq!(a.commands.len(), b.commands.len());
    assert_eq!(a.boundaries, b.boundaries);
    assert_eq!(a.calculators, b.calculators);
}
