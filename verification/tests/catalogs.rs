use kessetsu::compiler::{has_errors, validate_inputs, CompileInputs, CompileOptions, ParameterInput};
use kessetsu::experiment::{csv_quote, escape, hash_bytes, unit_suffix, CaseStatus};
use kessetsu::exporter::{build_artifact, ExportFormat};
use kessetsu::ir::SIUnit;
use kessetsu::measurement::{parse_signal, require_count, spice_instance_name};

#[test]
fn export_formats_have_ids_extensions_and_capabilities() {
    assert_eq!(ExportFormat::SchematicJson.id(), "schematic-json");
    assert_eq!(ExportFormat::Kicad.extension(), "kicad_sch");
    assert_eq!(ExportFormat::Ltspice.extension(), "asc");
    assert_eq!(ExportFormat::Spice.mime_type(), "text/plain");
    assert_eq!(ExportFormat::Svg.mime_type(), "image/svg+xml");
    let png = ExportFormat::Png.capability();
    assert!(png.visual && !png.editable && png.preserves_connectivity && !png.machine_readable);
    assert!(ExportFormat::Spice.capability().preserves_analysis);
    assert!(!ExportFormat::Kicad.capability().preserves_models);
}

#[test]
fn export_format_names_parse_with_aliases() {
    assert_eq!("JSON".parse::<ExportFormat>(), Ok(ExportFormat::SchematicJson));
    assert_eq!(ExportFormat::parse("kicad-sch"), Ok(ExportFormat::Kicad));
    assert_eq!(ExportFormat::parse("cir"), Ok(ExportFormat::Spice));
    assert_eq!(
        ExportFormat::parse("gif"),
        Err("unsupported export format 'gif'; expected svg, png, pdf, schematic-json, spice, kicad, or ltspice".to_string())
    );
}

#[test]
fn every_format_id_parses_back_in_any_case() {
    let all = [
        ExportFormat::Svg,
        ExportFormat::Png,
        ExportFormat::Pdf,
        ExportFormat::SchematicJson,
        ExportFormat::Spice,
        ExportFormat::Kicad,
        ExportFormat::Ltspice,
    ];
    for f in all {
        assert_eq!(f.id().parse::<ExportFormat>(), Ok(f));
        assert_eq!(f.id().to_ascii_uppercase().parse::<ExportFormat>(), Ok(f));
    }
    assert_eq!("Svg".parse::<ExportFormat>(), Ok(ExportFormat::Svg));
    assert_eq!("LtSpice".parse::<ExportFormat>(), Ok(ExportFormat::Ltspice));
    assert_eq!(
        "gif".parse::<ExportFormat>(),
        Err("unsupported export format 'gif'; expected svg, png, pdf, schematic-json, spice, kicad, or ltspice".to_string())
    );
}

#[test]
fn artifact_records_digest_and_refuses_unverified_connectivity() {
    let artifact = build_artifact(ExportFormat::Spice, b"abc".to_vec(), true, vec![], vec![]).unwrap();
    assert_eq!(artifact.sha256, "ba7816bf8f01cfea414140de5dae2223b00361a396177a9cb410ff61f20015ad");
    assert_eq!(artifact.exporter, "kessetsu-spice");
    assert_eq!(artifact.label, "SPICE");
    assert_eq!(artifact.byte_length, 3);
    let refused = build_artifact(ExportFormat::Kicad, vec![1, 2], false, vec![], vec![]).unwrap_err();
    assert_eq!(refused.code, "KES-X003");
}

#[test]
fn compile_options_and_inputs() {
    let all = CompileOptions::all_outputs();
    assert!(all.include_ast && all.generate_spice && all.generate_layout && all.generate_kicad);
    let default = CompileOptions::default();
    assert!(default.generate_spice && !default.include_ast);
    assert!(validate_inputs(&CompileInputs::default()).is_ok());
    let wrong = CompileInputs { schema_version: "x".to_string(), parameters: vec![] };
    let error = validate_inputs(&wrong).unwrap_err();
    assert_eq!(error.code, "KES-C022");
    assert_eq!(error.message, "Unsupported compile input schema 'x'; expected 'kessetsu.inputs.v1'");
    let many = CompileInputs {
        schema_version: "kessetsu.inputs.v1".to_string(),
        parameters: (0..4097).map(|i| ParameterInput { name: format!("p{i}"), value: "1".to_string() }).collect(),
    };
    assert_eq!(validate_inputs(&many).unwrap_err().message, "Root parameter input count limit exceeded");
    assert!(!has_errors(&vec![]));
}

#[test]
fn study_text_helpers() {
    assert_eq!(unit_suffix(SIUnit::Ohm), "Ohm");
    assert_eq!(unit_suffix(SIUnit::Ratio), "");
    assert!(CaseStatus::Passed.reusable());
    assert!(!CaseStatus::Pending.reusable());
    assert!(!CaseStatus::Cancelled.reusable());
    assert_eq!(csv_quote("a\"b"), "\"a\"\"b\"");
    assert_eq!(csv_quote("  =SUM(A1)"), "\"'  =SUM(A1)\"");
    assert_eq!(escape("<a href='x'>&\"</a>"), "&lt;a href=&#39;x&#39;&gt;&amp;&quot;&lt;/a&gt;");
    assert_eq!(
        hash_bytes(b""),
        "sha256:e3b0c44298fc1c149afbf4c8996fb92427ae41e4649b934ca495991b7852b855"
    );
}

#[test]
fn measurement_primitives() {
    assert_eq!(parse_signal("v(out)"), Ok(("v".to_string(), "out".to_string())));
    assert_eq!(parse_signal("v()"), Err("measurement primitive 'v()' has an empty target".to_string()));
    assert_eq!(parse_signal("vout"), Err("invalid measurement primitive 'vout'".to_string()));
    assert_eq!(require_count("rms", 2, 2), Ok(()));
    assert_eq!(require_count("rms", 1, 2), Err("rms expects 2 arguments, got 1".to_string()));
    assert_eq!(spice_instance_name(&kessetsu::ir::ComponentKind::OpAmp, "U1"), "x_U1");
}
