use icalfmt::parser::parse;
use icalfmt::Component;

#[test]
fn parameters_are_split_and_unquoted() {
    let input = "BEGIN:VCALENDAR\r\nVERSION:2.0\r\nPRODID:x\r\nBEGIN:VEVENT\r\nATTENDEE;ROLE=CHAIR;X-A=\"a;b\",c,\"d:e\":mailto:x@example.com\r\nEND:VEVENT\r\nEND:VCALENDAR\r\n";
    let outcome = parse(input, false).unwrap();
    let line = outcome.calendar.children[0].property("attendee").unwrap();
    assert_eq!(line.value, "mailto:x@example.com");
    assert_eq!(line.params.len(), 2);
    assert_eq!(line.params[0].name, "ROLE");
    assert_eq!(line.params[0].values, vec!["CHAIR".to_string()]);
    assert_eq!(line.params[1].name, "X-A");
    assert_eq!(line.params[1].values, vec!["a;b".to_string(), "c".to_string(), "d:e".to_string()]);
    assert_eq!(line.source_line, 5);
}

#[test]
fn colon_inside_quoted_parameter_does_not_end_it() {
    let input = "BEGIN:VCALENDAR\r\nVERSION:2.0\r\nPRODID:x\r\nBEGIN:VEVENT\r\nX;A=\"1:2\":v\r\nEND:VEVENT\r\nEND:VCALENDAR\r\n";
    let outcome = parse(input, false).unwrap();
    let line = outcome.calendar.children[0].property("X").unwrap();
    assert_eq!(line.params[0].values, vec!["1:2".to_string()]);
    assert_eq!(line.value, "v");
}

#[test]
fn folded_lines_are_joined_with_their_first_line_number() {
    let input = "BEGIN:VCALENDAR\r\nVERSION:2.0\r\nPRODID:x\r\nBEGIN:VEVENT\r\nSUMMARY:Long\r\n  summary\r\n\ttext\r\nEND:VEVENT\r\nEND:VCALENDAR\r\n";
    let outcome = parse(input, false).unwrap();
    let line = outcome.calendar.children[0].property("SUMMARY").unwrap();
    assert_eq!(line.value, "Long summarytext");
    assert_eq!(line.source_line, 5);
}

#[test]
fn empty_lines_are_skipped() {
    let input = "BEGIN:VCALENDAR\r\n\r\nVERSION:2.0\r\nPRODID:x\r\nBEGIN:VEVENT\r\nEND:VEVENT\r\nEND:VCALENDAR";
    let outcome = parse(input, false).unwrap();
    assert_eq!(outcome.calendar.properties.len(), 2);
    assert_eq!(outcome.calendar.properties[0].source_line, 3);
}

#[test]
fn nested_components_keep_their_order() {
    let input = "BEGIN:VCALENDAR\r\nVERSION:2.0\r\nPRODID:x\r\nBEGIN:VEVENT\r\nUID:1\r\nBEGIN:VALARM\r\nACTION:DISPLAY\r\nEND:VALARM\r\nEND:VEVENT\r\nBEGIN:VTODO\r\nEND:VTODO\r\nEND:VCALENDAR\r\n";
    let outcome = parse(input, false).unwrap();
    let cal = &outcome.calendar;
    assert_eq!(cal.name, "VCALENDAR");
    assert_eq!(cal.children.len(), 2);
    assert_eq!(cal.children[0].name, "VEVENT");
    assert_eq!(cal.children[0].children[0].name, "VALARM");
    assert_eq!(cal.children[0].children[0].property("ACTION").unwrap().value, "DISPLAY");
    assert_eq!(cal.children[1].name, "VTODO");
}

#[test]
fn property_lookup_ignores_case_and_takes_the_first() {
    let input = "BEGIN:VCALENDAR\r\nVERSION:2.0\r\nPRODID:x\r\nBEGIN:VEVENT\r\nx-a:1\r\nX-A:2\r\nEND:VEVENT\r\nEND:VCALENDAR\r\n";
    let outcome = parse(input, false).unwrap();
    let ev = &outcome.calendar.children[0];
    assert_eq!(ev.property("X-a").unwrap().value, "1");
    assert!(ev.property("X-B").is_none());
}

#[test]
fn new_component_is_empty() {
    let c = Component::new("VEVENT".to_string());
    assert_eq!(c.name, "VEVENT");
    assert!(c.properties.is_empty());
    assert!(c.children.is_empty());
    assert!(c.property("UID").is_none());
}
