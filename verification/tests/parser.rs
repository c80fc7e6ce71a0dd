use icalfmt::parser::parse;
use icalfmt::writer::print;
use icalfmt::ParseOutcome;

fn parse_ok(input: &str) -> ParseOutcome {
    parse(input, false).expect("expected input to parse")
}

#[test]
fn text_property_values_are_stored_decoded() {
    let outcome = parse_ok(
        "BEGIN:VCALENDAR\r\nVERSION:2.0\r\nPRODID:-//test//EN\r\nBEGIN:VEVENT\r\nUID:1\r\nSUMMARY:Team\\, standup\\; room 4\r\nEND:VEVENT\r\nEND:VCALENDAR\r\n",
    );
    let event = &outcome.calendar.children[0];
    assert_eq!(event.property("SUMMARY").unwrap().value, "Team, standup; room 4");
}

#[test]
fn writer_round_trips_decoded_text_through_escaping() {
    let outcome = parse_ok(
        "BEGIN:VCALENDAR\r\nVERSION:2.0\r\nPRODID:-//test//EN\r\nBEGIN:VEVENT\r\nUID:1\r\nSUMMARY:Team\\, standup\\; room 4\r\nEND:VEVENT\r\nEND:VCALENDAR\r\n",
    );
    let printed = print(&outcome.calendar);
    assert!(printed.contains("SUMMARY:Team\\, standup\\; room 4"));
}

#[test]
fn writer_normalizes_uppercase_n_newline_escape_to_lowercase() {
    let outcome = parse_ok(
        "BEGIN:VCALENDAR\r\nVERSION:2.0\r\nPRODID:-//test//EN\r\nBEGIN:VEVENT\r\nUID:1\r\nDESCRIPTION:line1\\Nline2\r\nEND:VEVENT\r\nEND:VCALENDAR\r\n",
    );
    let printed = print(&outcome.calendar);
    assert!(printed.contains("DESCRIPTION:line1\\nline2"));
}

#[test]
fn invalid_text_escape_is_reported_and_left_undecoded() {
    let diagnostics = parse(
        "BEGIN:VCALENDAR\r\nVERSION:2.0\r\nPRODID:-//test//EN\r\nBEGIN:VEVENT\r\nUID:1\r\nSUMMARY:bad\\xvalue\r\nEND:VEVENT\r\nEND:VCALENDAR\r\n",
        false,
    )
    .unwrap_err();
    assert!(diagnostics.iter().any(|d| d.message.contains("invalid escape sequence")));
}
