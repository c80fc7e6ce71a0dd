use icalfmt::parser::parse;
use icalfmt::{Diagnostic, Severity};

const HEAD: &str = "BEGIN:VCALENDAR\r\nVERSION:2.0\r\nPRODID:-//test//EN\r\n";
const TAIL: &str = "END:VCALENDAR\r\n";

fn with_event(body: &str) -> String {
    format!("{HEAD}BEGIN:VEVENT\r\nUID:1\r\n{body}END:VEVENT\r\n{TAIL}")
}

fn messages(ds: &[Diagnostic]) -> Vec<String> {
    ds.iter().map(|d| d.message.clone()).collect()
}

#[test]
fn bare_lf_is_an_error_in_strict_mode_with_its_line() {
    let input = "BEGIN:VCALENDAR\r\nVERSION:2.0\r\nPRODID:x\nBEGIN:VEVENT\r\nEND:VEVENT\r\nEND:VCALENDAR\r\n";
    let ds = parse(input, false).unwrap_err();
    assert_eq!(ds.len(), 1);
    assert_eq!(ds[0].severity, Severity::Error);
    assert_eq!(ds[0].line, 3);
    assert_eq!(ds[0].message, "line is terminated with a bare LF, RFC 5545 requires CRLF");
}

#[test]
fn bare_lf_is_accepted_in_lenient_mode() {
    let input = "BEGIN:VCALENDAR\nVERSION:2.0\nPRODID:x\nBEGIN:VEVENT\nEND:VEVENT\nEND:VCALENDAR\n";
    let outcome = parse(input, true).unwrap();
    assert!(outcome.diagnostics.is_empty());
    assert_eq!(outcome.calendar.children.len(), 1);
}

#[test]
fn every_bare_lf_is_reported() {
    let input = "a\nb\r\nc\n";
    let ds = parse(input, false).unwrap_err();
    let lines: Vec<usize> = ds
        .iter()
        .filter(|d| d.message.contains("bare LF"))
        .map(|d| d.line)
        .collect();
    assert_eq!(lines, vec![1, 3]);
}

#[test]
fn orphan_continuation_is_an_error() {
    let input = format!(" X:1\r\n{HEAD}BEGIN:VEVENT\r\nEND:VEVENT\r\n{TAIL}");
    let ds = parse(&input, false).unwrap_err();
    assert_eq!(ds[0].line, 1);
    assert_eq!(ds[0].message, "continuation line has no preceding line to fold onto");
}

#[test]
fn line_without_separator_is_reported_with_debug_quotes() {
    let ds = parse(&with_event("JUNK\r\n"), false).unwrap_err();
    assert_eq!(ds.len(), 1);
    assert_eq!(ds[0].line, 6);
    assert_eq!(ds[0].message, "line has no ':' separator: \"JUNK\"");
}

#[test]
fn empty_property_name_is_an_error() {
    let ds = parse(&with_event(":value\r\n"), false).unwrap_err();
    assert_eq!(messages(&ds), vec!["property name is empty".to_string()]);
}

#[test]
fn property_name_with_a_space_is_an_error() {
    let ds = parse(&with_event("A B:value\r\n"), false).unwrap_err();
    assert_eq!(
        messages(&ds),
        vec!["property name \"A B\" contains characters other than A-Z, 0-9 and '-'".to_string()]
    );
}

#[test]
fn parameters_without_a_value_are_an_error() {
    let ds = parse(&with_event("X;A=1\r\n"), false).unwrap_err();
    assert_eq!(messages(&ds), vec!["line has parameters but no ':' before the value".to_string()]);
}

#[test]
fn empty_parameter_is_an_error() {
    let ds = parse(&with_event("X;;A=1:v\r\n"), false).unwrap_err();
    assert_eq!(messages(&ds), vec!["empty parameter between ';' separators".to_string()]);
}

#[test]
fn parameter_without_equals_is_an_error() {
    let ds = parse(&with_event("X;A:v\r\n"), false).unwrap_err();
    assert_eq!(messages(&ds), vec!["parameter \"A\" is missing '='".to_string()]);
}

#[test]
fn parameter_without_name_is_an_error() {
    let ds = parse(&with_event("X;=1:v\r\n"), false).unwrap_err();
    assert_eq!(messages(&ds), vec!["parameter name is empty".to_string()]);
}

#[test]
fn end_without_begin_fails_in_both_modes() {
    for lenient in [false, true] {
        let ds = parse("END:VCALENDAR\r\n", lenient).unwrap_err();
        let last = ds.last().unwrap();
        assert_eq!(last.severity, Severity::Error);
        assert_eq!(last.line, 0);
        assert_eq!(last.message, "line 1: END:VCALENDAR has no matching BEGIN");
    }
}

#[test]
fn mismatched_end_fails_strict_and_warns_lenient() {
    let input = format!("{HEAD}BEGIN:VEVENT\r\nEND:VTODO\r\n{TAIL}");
    let ds = parse(&input, false).unwrap_err();
    assert_eq!(
        ds.last().unwrap().message,
        "line 5: END:VTODO does not match the innermost open BEGIN:VEVENT"
    );
    let outcome = parse(&input, true).unwrap();
    assert_eq!(outcome.diagnostics.len(), 1);
    assert_eq!(outcome.diagnostics[0].severity, Severity::Warning);
    assert_eq!(outcome.diagnostics[0].line, 5);
    assert_eq!(outcome.calendar.children[0].name, "VEVENT");
}

#[test]
fn end_name_is_matched_ignoring_case() {
    let input = format!("{HEAD}BEGIN:vevent\r\nEND:VEVENT\r\n{TAIL}");
    let outcome = parse(&input, false).unwrap();
    assert!(outcome.diagnostics.is_empty());
    assert_eq!(outcome.calendar.children[0].name, "vevent");
}

#[test]
fn second_top_level_component_fails() {
    let one = format!("{HEAD}BEGIN:VEVENT\r\nEND:VEVENT\r\n{TAIL}");
    let input = format!("{one}{one}");
    let ds = parse(&input, true).unwrap_err();
    assert_eq!(ds.last().unwrap().message, "line 12: input has more than one top level component");
}

#[test]
fn property_outside_any_component_fails() {
    let ds = parse("X:1\r\n", true).unwrap_err();
    assert_eq!(
        ds.last().unwrap().message,
        "line 1: property X appears outside of any BEGIN/END component"
    );
}

#[test]
fn unclosed_component_fails() {
    let ds = parse(&format!("{HEAD}BEGIN:VEVENT\r\n"), true).unwrap_err();
    assert_eq!(ds.last().unwrap().message, "component VEVENT was opened but never closed with END");
}

#[test]
fn empty_input_has_no_top_level_component() {
    let ds = parse("", false).unwrap_err();
    assert_eq!(ds.len(), 1);
    assert_eq!(ds[0].message, "input contained no top level component");
    assert_eq!(ds[0].line, 0);
}

#[test]
fn top_level_component_must_be_vcalendar() {
    let input = "BEGIN:VFOO\r\nVERSION:2.0\r\nPRODID:x\r\nBEGIN:VEVENT\r\nEND:VEVENT\r\nEND:VFOO\r\n";
    let ds = parse(input, false).unwrap_err();
    assert_eq!(messages(&ds), vec!["top level component is VFOO, RFC 5545 requires VCALENDAR".to_string()]);
    let outcome = parse(input, true).unwrap();
    assert_eq!(outcome.diagnostics[0].severity, Severity::Warning);
}

#[test]
fn missing_version_and_prodid_fail_strict_and_warn_lenient() {
    let input = "BEGIN:VCALENDAR\r\nBEGIN:VEVENT\r\nEND:VEVENT\r\nEND:VCALENDAR\r\n";
    let ds = parse(input, false).unwrap_err();
    assert_eq!(
        messages(&ds),
        vec![
            "VCALENDAR is missing the required VERSION property".to_string(),
            "VCALENDAR is missing the required PRODID property".to_string(),
        ]
    );
    assert!(ds.iter().all(|d| d.severity == Severity::Error && d.line == 0));
    let outcome = parse(input, true).unwrap();
    assert_eq!(outcome.diagnostics.len(), 2);
    assert!(outcome.diagnostics.iter().all(|d| d.severity == Severity::Warning));
}

#[test]
fn calendar_without_children_is_only_a_warning() {
    let input = format!("{HEAD}{TAIL}");
    let outcome = parse(&input, false).unwrap();
    assert_eq!(outcome.diagnostics.len(), 1);
    assert_eq!(outcome.diagnostics[0].severity, Severity::Warning);
    assert_eq!(outcome.diagnostics[0].message, "VCALENDAR has no sub components such as VEVENT or VTODO");
}

#[test]
fn invalid_escape_is_a_warning_in_lenient_mode_and_value_stays_raw() {
    let outcome = parse(&with_event("SUMMARY:bad\\xvalue\r\n"), true).unwrap();
    assert_eq!(outcome.diagnostics.len(), 1);
    let d = &outcome.diagnostics[0];
    assert_eq!(d.severity, Severity::Warning);
    assert_eq!(d.line, 6);
    assert_eq!(
        d.message,
        "property SUMMARY has an invalid escape sequence at offset 3, only \\\\, \\;, \\, \\n and \\N are valid"
    );
    let event = &outcome.calendar.children[0];
    assert_eq!(event.property("summary").unwrap().value, "bad\\xvalue");
}

#[test]
fn invalid_escape_offset_counts_bytes() {
    let ds = parse(&with_event("SUMMARY:caf\u{e9}\\q\r\n"), false).unwrap_err();
    assert!(ds[0].message.contains("at offset 5,"));
}

#[test]
fn non_text_properties_are_not_decoded() {
    let outcome = parse(&with_event("DTSTART:a\\xb\r\n"), false).unwrap();
    assert_eq!(outcome.calendar.children[0].property("DTSTART").unwrap().value, "a\\xb");
}

#[test]
fn diagnostic_text_with_and_without_line() {
    let d = Diagnostic { severity: Severity::Error, line: 0, message: "boom".to_string() };
    assert_eq!(d.to_string(), "error: boom");
    let w = Diagnostic { severity: Severity::Warning, line: 1234, message: "hm".to_string() };
    assert_eq!(w.to_string(), "warning at line 1234: hm");
    let z = Diagnostic { severity: Severity::Error, line: 7, message: String::new() };
    assert_eq!(z.to_string(), "error at line 7: ");
}
