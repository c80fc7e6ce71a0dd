use icalfmt::chars::chars_of;
use icalfmt::lines::{split_lines, unfold};
use icalfmt::parser::parse;
use icalfmt::text::{escape, unescape};
use icalfmt::writer::{print, push_folded};
use icalfmt::{Component, ContentLine, Param, Severity};

#[test]
fn strict_mode_reports_missing_version_and_bare_lf_together() {
    let input = "BEGIN:VCALENDAR\r\nPRODID:-//x//EN\r\nBEGIN:VEVENT\r\nUID:1\nEND:VEVENT\r\nEND:VCALENDAR\r\n";
    let ds = parse(input, false).unwrap_err();
    assert_eq!(ds.len(), 2);
    assert!(ds.iter().any(|d| d.severity == Severity::Error
        && d.line == 0
        && d.message == "VCALENDAR is missing the required VERSION property"));
    assert!(ds.iter().any(|d| d.severity == Severity::Error
        && d.line == 4
        && d.message == "line is terminated with a bare LF, RFC 5545 requires CRLF"));
}

#[test]
fn lenient_mode_downgrades_a_malformed_line() {
    let input = "BEGIN:VCALENDAR\r\nVERSION:2.0\r\nPRODID:-//x//EN\r\nNOSEPARATOR\r\nBEGIN:VEVENT\r\nUID:1\r\nEND:VEVENT\r\nEND:VCALENDAR\r\n";
    let o = parse(input, true).unwrap();
    assert_eq!(o.diagnostics.len(), 1);
    assert_eq!(o.diagnostics[0].line, 4);
    assert_eq!(o.diagnostics[0].severity, Severity::Warning);
    assert_eq!(o.diagnostics[0].message, "line has no ':' separator: \"NOSEPARATOR\"");
    let ds = parse(input, false).unwrap_err();
    assert_eq!(ds.len(), 1);
    assert_eq!(ds[0].severity, Severity::Error);
}

#[test]
fn lenient_mode_downgrades_an_orphan_continuation() {
    let input = " X-A:1\r\nBEGIN:VCALENDAR\r\nVERSION:2.0\r\nPRODID:-//x//EN\r\nBEGIN:VEVENT\r\nEND:VEVENT\r\nEND:VCALENDAR\r\n";
    let ds = parse(input, true).unwrap_err();
    assert_eq!(ds[0].severity, Severity::Warning);
    assert_eq!(ds[0].line, 1);
    assert_eq!(ds[0].message, "continuation line has no preceding line to fold onto");
    assert_eq!(
        ds.last().unwrap().message,
        "line 1: property X-A appears outside of any BEGIN/END component"
    );
}

#[test]
fn lenient_success_carries_only_warnings() {
    let input = "BEGIN:VFOO\r\n:x\r\nSUMMARY:a\\qb\r\nBEGIN:VEVENT\r\nEND:VTODO\r\nEND:VFOO\r\n";
    let o = parse(input, true).unwrap();
    assert!(o.diagnostics.len() >= 5);
    assert!(o.diagnostics.iter().all(|d| d.severity == Severity::Warning));
}

#[test]
fn lenient_crlf_and_lf_parse_alike() {
    let crlf = "BEGIN:VCALENDAR\r\nVERSION:2.0\r\nPRODID:x\r\nBEGIN:VEVENT\r\nSUMMARY:a\\, b\r\n  c\r\nX;P=\"q;r\":v\r\nEND:VEVENT\r\nEND:VCALENDAR\r\n";
    let lf = crlf.replace("\r\n", "\n");
    let a = parse(crlf, true).unwrap();
    let b = parse(&lf, true).unwrap();
    assert_eq!(print(&a.calendar), print(&b.calendar));
    assert_eq!(a.diagnostics.len(), b.diagnostics.len());
    let ea = &a.calendar.children[0];
    let eb = &b.calendar.children[0];
    assert_eq!(ea.property("SUMMARY").unwrap().value, eb.property("SUMMARY").unwrap().value);
    assert_eq!(ea.property("SUMMARY").unwrap().source_line, eb.property("SUMMARY").unwrap().source_line);
    assert_eq!(ea.property("X").unwrap().params[0].values, eb.property("X").unwrap().params[0].values);
}

#[test]
fn escaping_a_decoded_value_normalizes_uppercase_n() {
    let raw = r"line1\Nline2\;x\,y\\z";
    assert_eq!(escape(&unescape(raw).unwrap()), r"line1\nline2\;x\,y\\z");
}

#[test]
fn quoted_parameter_values_come_back_through_print_and_parse() {
    let mut cal = Component::new("VCALENDAR".to_string());
    cal.properties.push(ContentLine { name: "VERSION".to_string(), params: vec![], value: "2.0".to_string(), source_line: 0 });
    cal.properties.push(ContentLine { name: "PRODID".to_string(), params: vec![], value: "x".to_string(), source_line: 0 });
    let mut ev = Component::new("VEVENT".to_string());
    ev.properties.push(ContentLine {
        name: "X-P".to_string(),
        params: vec![Param { name: "A".to_string(), values: vec!["a;b".to_string(), "c:d".to_string(), "e,f".to_string(), "plain".to_string()] }],
        value: "v".to_string(),
        source_line: 0,
    });
    cal.children.push(ev);
    let o = parse(&print(&cal), false).unwrap();
    let p = &o.calendar.children[0].property("X-P").unwrap().params[0];
    assert_eq!(p.values, vec!["a;b".to_string(), "c:d".to_string(), "e,f".to_string(), "plain".to_string()]);
}

#[test]
fn unfolding_gives_a_folded_line_back() {
    let line = format!("DESCRIPTION:{}", "0123456789".repeat(20));
    let mut out = String::new();
    push_folded(&line, &mut out);
    assert!(out.split("\r\n").all(|l| l.len() <= 75));
    let physical = split_lines(&chars_of(&out));
    let mut diagnostics = Vec::new();
    let logical = unfold(&physical, false, &mut diagnostics);
    assert!(diagnostics.is_empty());
    assert_eq!(logical.len(), 1);
    assert_eq!(logical[0].line_no, 1);
    assert_eq!(logical[0].text.iter().collect::<String>(), line);
}

#[test]
fn cloning_a_component_keeps_everything() {
    let input = "BEGIN:VCALENDAR\r\nVERSION:2.0\r\nPRODID:x\r\nBEGIN:VEVENT\r\nX;A=1,2:v\r\nEND:VEVENT\r\nEND:VCALENDAR\r\n";
    let o = parse(input, false).unwrap();
    let c = o.calendar.clone();
    assert_eq!(print(&c), print(&o.calendar));
    assert_eq!(c.children[0].properties[0].params[0].values, vec!["1".to_string(), "2".to_string()]);
    assert_eq!(c.children[0].properties[0].source_line, 5);
}
