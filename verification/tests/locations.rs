use kessetsu::compiler::{
    annotate_source_location, annotate_source_locations, compile_failure_exit_code, Diagnostic, DiagnosticSeverity, DiagnosticStage,
};

fn diagnostic(message: &str, component: Option<&str>, field: Option<&str>) -> Diagnostic {
    Diagnostic {
        code: "KES-E001".to_string(),
        severity: DiagnosticSeverity::Error,
        stage: DiagnosticStage::Erc,
        message: message.to_string(),
        component: component.map(str::to_string),
        pin: None,
        field: field.map(str::to_string),
        line: None,
        column: None,
    }
}

fn located(source: &str, d: Diagnostic) -> (Option<usize>, Option<usize>) {
    let mut d = d;
    annotate_source_location(source, &mut d);
    (d.line, d.column)
}

#[test]
fn component_is_found_ignoring_case() {
    let source = "resistor R1 1k\nresistor r2 2k\n";
    assert_eq!(located(source, diagnostic("bad value", Some("R2"), None)), (Some(2), Some(10)));
}

#[test]
fn field_is_used_without_component() {
    let source = "source V1 5V\nsimulate tran 1m\n";
    assert_eq!(located(source, diagnostic("bad analysis", None, Some("tran"))), (Some(2), Some(10)));
}

#[test]
fn first_message_word_found_in_source() {
    let source = "resistor R1 1k\nconnect R1.p2 to mid\n";
    let d = diagnostic("floating node 'mid'", None, None);
    assert_eq!(located(source, d), (Some(2), Some(18)));
}

#[test]
fn crlf_lines_and_byte_columns() {
    assert_eq!(located("a\r\nb x\r\n", diagnostic("m", Some("x"), None)), (Some(2), Some(3)));
    assert_eq!(located("\u{e9} R1", diagnostic("m", Some("r1"), None)), (Some(1), Some(4)));
}

#[test]
fn located_or_missing_subjects_are_left_alone() {
    let mut d = diagnostic("m", Some("R1"), None);
    d.line = Some(7);
    d.column = Some(3);
    assert_eq!(located("resistor R1 1k", d), (Some(7), Some(3)));
    assert_eq!(located("resistor R1 1k", diagnostic("m", Some("Q9"), None)), (None, None));
    assert_eq!(located("resistor R1 1k", diagnostic("no such words", None, None)), (None, None));
    assert_eq!(located("", diagnostic("m", Some("R1"), None)), (None, None));
}

#[test]
fn every_diagnostic_is_annotated() {
    let mut ds = vec![diagnostic("m", Some("R1"), None), diagnostic("m", Some("C1"), None)];
    annotate_source_locations("capacitor C1 1u\nresistor R1 1k", &mut ds);
    assert_eq!((ds[0].line, ds[0].column), (Some(2), Some(10)));
    assert_eq!((ds[1].line, ds[1].column), (Some(1), Some(11)));
    assert_eq!(ds[0].message, "m");
}

#[test]
fn parse_and_io_failures_exit_with_two() {
    let mut parse = diagnostic("m", None, None);
    parse.stage = DiagnosticStage::Parse;
    let mut io = diagnostic("m", None, None);
    io.stage = DiagnosticStage::Io;
    let erc = diagnostic("m", None, None);
    assert_eq!(compile_failure_exit_code(&vec![erc.clone(), parse]), 2);
    assert_eq!(compile_failure_exit_code(&vec![io]), 2);
    assert_eq!(compile_failure_exit_code(&vec![erc]), 1);
    assert_eq!(compile_failure_exit_code(&vec![]), 1);
}
