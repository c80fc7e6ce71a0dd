use icalfmt::text::{escape, unescape};

#[test]
fn unescape_decodes_all_five_sequences() {
    let raw = r"a\,b\;c\\d\ne";
    assert_eq!(unescape(raw).unwrap(), "a,b;c\\d\ne");
}

#[test]
fn unescape_accepts_uppercase_n_for_newline() {
    assert_eq!(unescape(r"line1\Nline2").unwrap(), "line1\nline2");
}

#[test]
fn unescape_passes_through_plain_text() {
    assert_eq!(unescape("no escapes here").unwrap(), "no escapes here");
}

#[test]
fn unescape_rejects_unknown_escape() {
    let err = unescape(r"bad\xvalue").unwrap_err();
    assert_eq!(err, 3);
}

#[test]
fn unescape_rejects_trailing_backslash() {
    let err = unescape(r"trailing\").unwrap_err();
    assert_eq!(err, 8);
}

#[test]
fn escape_is_the_inverse_of_unescape() {
    let plain = "a,b;c\\d\ne";
    let escaped = escape(plain);
    assert_eq!(escaped, r"a\,b\;c\\d\ne");
    assert_eq!(unescape(&escaped).unwrap(), plain);
}

#[test]
fn escape_leaves_safe_characters_alone() {
    assert_eq!(escape("Team Standup: room 4"), "Team Standup: room 4");
}

#[test]
fn unescape_offset_is_in_bytes() {
    assert_eq!(unescape("\u{e9}t\u{e9}\\q").unwrap_err(), 5);
    assert_eq!(unescape("\\").unwrap_err(), 0);
}

#[test]
fn unescape_reports_the_first_bad_escape() {
    assert_eq!(unescape(r"a\\b\qc\z").unwrap_err(), 4);
}

#[test]
fn escape_then_unescape_is_identity_on_mixed_text() {
    let plain = "\u{1F600};\\\\,\n\u{e9}x";
    let e = escape(plain);
    assert_eq!(e, "\u{1F600}\\;\\\\\\\\\\,\\n\u{e9}x");
    assert_eq!(unescape(&e).unwrap(), plain);
}

#[test]
fn escape_of_empty_is_empty() {
    assert_eq!(escape(""), "");
    assert_eq!(unescape("").unwrap(), "");
}

#[test]
fn carriage_return_is_not_escaped() {
    assert_eq!(escape("a\rb"), "a\rb");
}
