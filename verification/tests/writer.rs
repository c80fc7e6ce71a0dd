use icalfmt::parser::parse;
use icalfmt::writer::print;
use icalfmt::{Component, ContentLine, Param};

#[test]
fn readme_example_is_normalized() {
    let input = "BEGIN:VCALENDAR\r\nVERSION:2.0\r\nPRODID:-//example//icalfmt//EN\r\nBEGIN:vevent\r\nuid:1234@example.com\r\ndtstamp:20260101T000000Z\r\ndtstart:20260101T090000Z\r\nsummary:Standup\r\nEND:VEVENT\r\nEND:VCALENDAR\r\n";
    let outcome = parse(input, false).unwrap();
    assert!(outcome.diagnostics.is_empty());
    let expected = "BEGIN:VCALENDAR\r\nVERSION:2.0\r\nPRODID:-//example//icalfmt//EN\r\nBEGIN:VEVENT\r\nUID:1234@example.com\r\nDTSTAMP:20260101T000000Z\r\nDTSTART:20260101T090000Z\r\nSUMMARY:Standup\r\nEND:VEVENT\r\nEND:VCALENDAR\r\n";
    assert_eq!(print(&outcome.calendar), expected);
}

fn line(name: &str, params: Vec<Param>, value: &str) -> ContentLine {
    ContentLine { name: name.to_string(), params, value: value.to_string(), source_line: 0 }
}

#[test]
fn parameters_are_uppercased_and_quoted_when_needed() {
    let mut c = Component::new("vevent".to_string());
    c.properties.push(line(
        "attendee",
        vec![
            Param { name: "role".to_string(), values: vec!["chair".to_string()] },
            Param { name: "x-a".to_string(), values: vec!["a;b".to_string(), "c".to_string(), "d:e".to_string()] },
        ],
        "mailto:x@example.com",
    ));
    let out = print(&c);
    assert_eq!(
        out,
        "BEGIN:VEVENT\r\nATTENDEE;ROLE=chair;X-A=\"a;b\",c,\"d:e\":mailto:x@example.com\r\nEND:VEVENT\r\n"
    );
}

#[test]
fn only_text_values_are_escaped() {
    let mut c = Component::new("X".to_string());
    c.properties.push(line("summary", vec![], "a,b;c\\d\ne"));
    c.properties.push(line("x-other", vec![], "a,b"));
    let out = print(&c);
    assert_eq!(out, "BEGIN:X\r\nSUMMARY:a\\,b\\;c\\\\d\\ne\r\nX-OTHER:a,b\r\nEND:X\r\n");
}

#[test]
fn uppercasing_is_unicode_aware() {
    let c = Component::new("stra\u{df}e".to_string());
    assert_eq!(print(&c), "BEGIN:STRASSE\r\nEND:STRASSE\r\n");
}

#[test]
fn line_of_exactly_seventy_five_octets_is_not_folded() {
    let value = "x".repeat(75 - "SUMMARY:".len());
    let mut c = Component::new("X".to_string());
    c.properties.push(line("SUMMARY", vec![], &value));
    let out = print(&c);
    assert_eq!(out, format!("BEGIN:X\r\nSUMMARY:{value}\r\nEND:X\r\n"));
}

#[test]
fn long_lines_are_folded_at_seventy_five_octets() {
    let value = "y".repeat(200);
    let mut c = Component::new("X".to_string());
    c.properties.push(line("SUMMARY", vec![], &value));
    let out = print(&c);
    let lines: Vec<&str> = out.split("\r\n").collect();
    assert_eq!(lines[1].len(), 75);
    assert_eq!(lines[2].len(), 75);
    assert!(lines[2].starts_with(' '));
    assert_eq!(lines[3].len(), 1 + (208 - 75 - 74));
    assert_eq!(lines[4], "END:X");
    let joined: String = format!("{}{}{}", lines[1], &lines[2][1..], &lines[3][1..]);
    assert_eq!(joined, format!("SUMMARY:{value}"));
}

#[test]
fn folding_never_splits_a_character() {
    let value = "\u{e9}".repeat(60);
    let mut c = Component::new("X".to_string());
    c.properties.push(line("X-NOTE", vec![], &value));
    let out = print(&c);
    for physical in out.split("\r\n") {
        assert!(physical.len() <= 75);
    }
    let lines: Vec<&str> = out.split("\r\n").collect();
    assert_eq!(lines[1].len(), "X-NOTE:".len() + 2 * 34);
    assert_eq!(lines[2].len(), 1 + 2 * 26);
}

#[test]
fn printing_then_parsing_gives_the_long_value_back() {
    let value = format!("{}\u{1F600}{}", "z".repeat(70), "w".repeat(90));
    let mut cal = Component::new("VCALENDAR".to_string());
    cal.properties.push(line("VERSION", vec![], "2.0"));
    cal.properties.push(line("PRODID", vec![], "x"));
    let mut ev = Component::new("VEVENT".to_string());
    ev.properties.push(line("X-LONG", vec![], &value));
    ev.properties.push(line("SUMMARY", vec![], "a, b; c"));
    cal.children.push(ev);
    let printed = print(&cal);
    let outcome = parse(&printed, false).unwrap();
    let back = &outcome.calendar.children[0];
    assert_eq!(back.property("X-LONG").unwrap().value, value);
    assert_eq!(back.property("SUMMARY").unwrap().value, "a, b; c");
}
