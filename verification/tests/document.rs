use icalfmt::parser::parse;
use icalfmt::writer::print;
use icalfmt::Component;

const INPUT: &str = "BEGIN:vcalendar\r\nversion:2.0\r\nprodid:-//example//icalfmt//EN\r\nbegin:vevent\r\nuid:1234@example.com\r\ndtstart;tzid=America/Chicago:20260101T090000\r\nattendee;role=req-participant;cn=\"Doe, Jane\":mailto:jane@example.com\r\nsummary:Standup\\, room 4\\nsecond line\r\nx-long:aaaaaaaaaaaaaaaaaaaaaaaaaaaaaaaaaaaaaaaaaaaaaaaaaaaaaaaaaaaaaaaaaaaaaaaaaaa\r\n bbbbbbbbbbbbbbbbbbbbbbbbbbbbbbbbbbbbbbbbbbbbbbbbbbbbbbbbbbbbbbbbbbbbbbbbbbbbbbbbbbbb\r\nbegin:valarm\r\naction:DISPLAY\r\ntrigger:-PT15M\r\nend:valarm\r\nend:vevent\r\nend:vcalendar\r\n";

fn assert_reads_back(back: &Component, orig: &Component) {
    assert_eq!(back.name, orig.name.to_uppercase());
    assert_eq!(back.properties.len(), orig.properties.len());
    for (b, o) in back.properties.iter().zip(orig.properties.iter()) {
        assert_eq!(b.name, o.name.to_uppercase());
        assert_eq!(b.value, o.value);
        assert_eq!(b.params.len(), o.params.len());
        for (bp, op) in b.params.iter().zip(o.params.iter()) {
            assert_eq!(bp.name, op.name.to_uppercase());
            assert_eq!(bp.values, op.values);
        }
    }
    assert_eq!(back.children.len(), orig.children.len());
    for (b, o) in back.children.iter().zip(orig.children.iter()) {
        assert_reads_back(b, o);
    }
}

#[test]
fn printed_calendar_reads_back_with_names_uppercased() {
    let first = parse(INPUT, false).unwrap();
    assert!(first.diagnostics.is_empty());
    let printed = print(&first.calendar);
    let second = parse(&printed, false).unwrap();
    assert!(second.diagnostics.is_empty());
    assert_reads_back(&second.calendar, &first.calendar);
    let event = &second.calendar.children[0];
    assert_eq!(event.name, "VEVENT");
    assert_eq!(event.property("SUMMARY").unwrap().value, "Standup, room 4\nsecond line");
    assert_eq!(event.property("ATTENDEE").unwrap().params[1].values, vec!["Doe, Jane".to_string()]);
    assert_eq!(event.children[0].name, "VALARM");
}

#[test]
fn printing_is_stable_through_parsing() {
    let first = parse(INPUT, false).unwrap();
    let printed = print(&first.calendar);
    let again = print(&parse(&printed, false).unwrap().calendar);
    assert_eq!(again, printed);
}

#[test]
fn calendar_without_sub_components_reads_back_with_one_warning() {
    let input = "BEGIN:VCALENDAR\r\nversion:2.0\r\nprodid:x\r\nEND:VCALENDAR\r\n";
    let first = parse(input, false).unwrap();
    let printed = print(&first.calendar);
    assert_eq!(printed, "BEGIN:VCALENDAR\r\nVERSION:2.0\r\nPRODID:x\r\nEND:VCALENDAR\r\n");
    let second = parse(&printed, false).unwrap();
    assert_eq!(second.diagnostics.len(), 1);
    assert_reads_back(&second.calendar, &first.calendar);
}
