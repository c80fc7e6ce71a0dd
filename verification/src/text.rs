//! Decoding and encoding of the RFC 5545 §3.3.11 TEXT escaping: `\\`, `\;`,
//! `\,`, and `\n`/`\N` for a literal newline. Nothing else after a backslash
//! is valid.
use vstd::prelude::*;

use crate::chars::{
    char_width, chars_eq_ignore_case, chars_of, eq_ignore_case, lemma_octets_prefix,
    lemma_octets_push, octets, push_char, str_octets,
};

verus! {

/// Properties whose value type is TEXT per RFC 5545 §3.8, i.e. the ones where
/// `\\`, `\;`, `\,` and `\n`/`\N` escaping applies. This isn't every TEXT
/// property in the spec, just the ones likely to show up in real files.
pub open spec fn text_property_names() -> Seq<Seq<char>> {
    seq![
        "ACTION"@, "CATEGORIES"@, "CLASS"@, "COMMENT"@, "CONTACT"@, "DESCRIPTION"@,
        "LOCATION"@, "PRODID"@, "RELATED-TO"@, "REQUEST-STATUS"@, "RESOURCES"@,
        "STATUS"@, "SUMMARY"@, "TRANSP"@, "TZID"@, "TZNAME"@, "UID"@,
    ]
}

/// Whether a property of this name holds a TEXT value (ASCII case ignored).
pub open spec fn is_text_property(name: Seq<char>) -> bool {
    exists|i: int|
        0 <= i < text_property_names().len() && eq_ignore_case(name, #[trigger] text_property_names()[i])
}

/// Decides [`is_text_property`] for a name given as characters.
pub fn is_text_property_name(name: &Vec<char>) -> (r: bool)
    ensures
        r == is_text_property(name@),
{
    let names: Vec<&str> = vec![
        "ACTION", "CATEGORIES", "CLASS", "COMMENT", "CONTACT", "DESCRIPTION",
        "LOCATION", "PRODID", "RELATED-TO", "REQUEST-STATUS", "RESOURCES",
        "STATUS", "SUMMARY", "TRANSP", "TZID", "TZNAME", "UID",
    ];
    assert(forall|k: int| 0 <= k < names@.len() ==> #[trigger] names@[k]@ == text_property_names()[k]);
    let mut i: usize = 0;
    while i < names.len()
        invariant
            i <= names@.len(),
            names@.len() == text_property_names().len(),
            forall|k: int| 0 <= k < names@.len() ==> #[trigger] names@[k]@ == text_property_names()[k],
            forall|k: int| 0 <= k < i ==> !eq_ignore_case(name@, #[trigger] text_property_names()[k]),
        decreases names@.len() - i,
    {
        if chars_eq_ignore_case(name, names[i]) {
            return true;
        }
        i = i + 1;
    }
    false
}

/// The character that an escape `\c` stands for, if `c` may follow a backslash.
pub open spec fn escape_target(c: char) -> Option<char> {
    if c == '\\' {
        Some('\\')
    } else if c == ';' {
        Some(';')
    } else if c == ',' {
        Some(',')
    } else if c == 'n' || c == 'N' {
        Some('\n')
    } else {
        None
    }
}

/// Decoding of an escaped TEXT value, read left to right. `Err(k)` names
/// the character position of the backslash that starts the first escape
/// sequence that is not `\\`, `\;`, `\,`, `\n` or `\N` (or that ends the text).
pub open spec fn unescaped(s: Seq<char>) -> Result<Seq<char>, int>
    decreases s.len(),
{
    if s.len() == 0 {
        Ok(Seq::empty())
    } else if s[0] != '\\' {
        match unescaped(s.drop_first()) {
            Ok(t) => Ok(seq![s[0]] + t),
            Err(k) => Err(k + 1),
        }
    } else if s.len() >= 2 && escape_target(s[1]) is Some {
        match unescaped(s.skip(2)) {
            Ok(t) => Ok(seq![escape_target(s[1])->0] + t),
            Err(k) => Err(k + 2),
        }
    } else {
        Err(0)
    }
}

/// The escaped form of one character.
pub open spec fn escape_char(c: char) -> Seq<char> {
    if c == '\\' {
        seq!['\\', '\\']
    } else if c == ';' {
        seq!['\\', ';']
    } else if c == ',' {
        seq!['\\', ',']
    } else if c == '\n' {
        seq!['\\', 'n']
    } else {
        seq![c]
    }
}

/// The escaped form of a plain-text value.
pub open spec fn escaped(s: Seq<char>) -> Seq<char>
    decreases s.len(),
{
    if s.len() == 0 {
        Seq::empty()
    } else {
        escape_char(s[0]) + escaped(s.drop_first())
    }
}

/// Escaping a concatenation escapes each part.
pub proof fn lemma_escaped_concat(a: Seq<char>, b: Seq<char>)
    ensures
        escaped(a + b) == escaped(a) + escaped(b),
    decreases a.len(),
{
    if a.len() == 0 {
        assert(a + b =~= b);
    } else {
        lemma_escaped_concat(a.drop_first(), b);
        assert((a + b).drop_first() =~= a.drop_first() + b);
        assert(escaped(a + b) =~= escape_char(a[0]) + escaped(a.drop_first() + b));
    }
}

/// Decode an escaped TEXT property value into the literal characters it
/// represents. Returns the byte offset of the backslash on the first escape
/// sequence that isn't `\\`, `\;`, `\,`, `\n`, or `\N`.
pub fn unescape(raw: &str) -> (r: Result<String, usize>)
    ensures
        match unescaped(raw@) {
            Ok(t) => r matches Ok(out) && out@ == t,
            Err(k) => 0 <= k <= raw@.len() && octets(raw@.take(k)) <= usize::MAX && r == Err::<
                String,
                usize,
            >(octets(raw@.take(k)) as usize),
        },
{
    let total = str_octets(raw);
    let v = chars_of(raw);
    let mut out = String::new();
    let mut i: usize = 0;
    let mut off: usize = 0;
    assert(v@.skip(0) =~= v@);
    assert(v@.take(0) =~= Seq::<char>::empty());
    while i < v.len()
        invariant
            v@ == raw@,
            total == octets(v@),
            i <= v@.len(),
            off == octets(v@.take(i as int)),
            unescaped(v@) == match unescaped(v@.skip(i as int)) {
                Ok(t) => Ok(out@ + t),
                Err(k) => Err::<Seq<char>, int>(k + i),
            },
        decreases v@.len() - i,
    {
        let c = v[i];
        let w = char_width(c);
        proof {
            lemma_octets_push(v@.take(i as int), c);
            assert(v@.take(i + 1) =~= v@.take(i as int).push(c));
            lemma_octets_prefix(v@, i + 1);
        }
        if c != '\\' {
            proof {
                assert(v@.skip(i as int).drop_first() =~= v@.skip(i + 1));
                assert(out@.push(c) == out@ + seq![c]);
                assert forall|t: Seq<char>| out@ + (seq![c] + t) =~= out@.push(c) + t by {}
            }
            push_char(&mut out, c);
            off = off + w;
            i = i + 1;
        } else {
            if i + 1 < v.len() {
                let d = v[i + 1];
                let target: Option<char> = if d == '\\' {
                    Some('\\')
                } else if d == ';' {
                    Some(';')
                } else if d == ',' {
                    Some(',')
                } else if d == 'n' || d == 'N' {
                    Some('\n')
                } else {
                    None
                };
                match target {
                    Some(e) => {
                        let w2 = char_width(d);
                        proof {
                            lemma_octets_push(v@.take(i + 1), d);
                            assert(v@.take(i + 2) =~= v@.take(i + 1).push(d));
                            lemma_octets_prefix(v@, i + 2);
                            assert(v@.skip(i as int).skip(2) =~= v@.skip(i + 2));
                            assert(v@.skip(i as int)[1] == d);
                            assert forall|t: Seq<char>| out@ + (seq![e] + t) =~= out@.push(e) + t by {}
                        }
                        push_char(&mut out, e);
                        off = off + w + w2;
                        i = i + 2;
                    },
                    None => {
                        assert(v@.skip(i as int)[1] == d);
                        return Err(off);
                    },
                }
            } else {
                return Err(off);
            }
        }
    }
    assert(v@.skip(i as int) =~= Seq::<char>::empty());
    assert(out@ + Seq::<char>::empty() =~= out@);
    Ok(out)
}

/// Encode a plain-text value for use as a TEXT property value, escaping
/// backslashes, semicolons, commas, and newlines.
pub fn escape(plain: &str) -> (r: String)
    ensures
        r@ == escaped(plain@),
{
    let v = chars_of(plain);
    let mut out = String::new();
    let mut i: usize = 0;
    assert(v@.take(0) =~= Seq::<char>::empty());
    while i < v.len()
        invariant
            v@ == plain@,
            i <= v@.len(),
            out@ == escaped(v@.take(i as int)),
        decreases v@.len() - i,
    {
        let c = v[i];
        proof {
            assert(v@.take(i + 1) =~= v@.take(i as int) + seq![c]);
            lemma_escaped_concat(v@.take(i as int), seq![c]);
            assert(seq![c].drop_first() =~= Seq::<char>::empty());
            reveal_with_fuel(escaped, 2);
            assert(escaped(seq![c]) =~= escape_char(c));
        }
        if c == '\\' {
            push_char(&mut out, '\\');
            push_char(&mut out, '\\');
        } else if c == ';' {
            push_char(&mut out, '\\');
            push_char(&mut out, ';');
        } else if c == ',' {
            push_char(&mut out, '\\');
            push_char(&mut out, ',');
        } else if c == '\n' {
            push_char(&mut out, '\\');
            push_char(&mut out, 'n');
        } else {
            push_char(&mut out, c);
        }
        assert(out@ =~= escaped(v@.take(i + 1)));
        i = i + 1;
    }
    assert(v@.take(v@.len() as int) =~= v@);
    out
}

/// Escaping never fails to decode: unescaping the escaped form of any
/// plain text gives that text back.
pub proof fn unescape_inverts_escape(plain: Seq<char>)
    ensures
        unescaped(escaped(plain)) == Ok::<Seq<char>, int>(plain),
    decreases plain.len(),
{
    if plain.len() > 0 {
        let c = plain[0];
        let rest = plain.drop_first();
        unescape_inverts_escape(rest);
        let e = escape_char(c);
        let s = e + escaped(rest);
        assert(escaped(plain) == s);
        if e.len() == 1 {
            assert(s[0] == c);
            assert(s.drop_first() =~= escaped(rest));
            assert(seq![c] + rest =~= plain);
            assert(unescaped(s) == Ok::<Seq<char>, int>(seq![c] + rest));
        } else {
            assert(s.skip(2) =~= escaped(rest));
            assert(s[0] == '\\');
            assert(escape_target(s[1]) == Some(c));
            assert(seq![c] + rest =~= plain);
            assert(unescaped(s) == Ok::<Seq<char>, int>(seq![c] + rest));
        }
    } else {
        assert(plain =~= Seq::<char>::empty());
    }
}

/// The characters that escaping changes.
pub open spec fn is_escaped_char(c: char) -> bool {
    c == '\\' || c == ';' || c == ',' || c == '\n'
}

/// Escaping leaves a value alone exactly when it holds no backslash,
/// semicolon, comma or newline.
pub proof fn escape_changes_only_special_characters(plain: Seq<char>)
    ensures
        (escaped(plain) == plain) <==> (forall|i: int| 0 <= i < plain.len() ==> !is_escaped_char(
            #[trigger] plain[i],
        )),
    decreases plain.len(),
{
    if plain.len() > 0 {
        let c = plain[0];
        let rest = plain.drop_first();
        escape_changes_only_special_characters(rest);
        lemma_escaped_len(rest);
        if is_escaped_char(c) {
            assert(escaped(plain).len() == 2 + escaped(rest).len());
            assert(escaped(plain).len() != plain.len());
        } else {
            assert(escaped(plain) == seq![c] + escaped(rest));
            if escaped(rest) == rest {
                assert(seq![c] + rest =~= plain);
            } else {
                if escaped(plain) == plain {
                    assert(escaped(rest) =~= escaped(plain).drop_first());
                    assert(plain.drop_first() =~= rest);
                }
            }
            assert forall|i: int| 0 <= i < rest.len() implies #[trigger] rest[i] == plain[i + 1] by {}
            if forall|i: int| 0 <= i < plain.len() ==> !is_escaped_char(#[trigger] plain[i]) {
                assert forall|i: int| 0 <= i < rest.len() implies !is_escaped_char(#[trigger] rest[i]) by {
                    assert(rest[i] == plain[i + 1]);
                }
            }
            if forall|i: int| 0 <= i < rest.len() ==> !is_escaped_char(#[trigger] rest[i]) {
                assert forall|i: int| 0 <= i < plain.len() implies !is_escaped_char(#[trigger] plain[i]) by {
                    if i > 0 {
                        assert(plain[i] == rest[i - 1]);
                    }
                }
            }
        }
    } else {
        assert(escaped(plain) =~= plain);
    }
}

/// Escaping never shortens a value.
proof fn lemma_escaped_len(s: Seq<char>)
    ensures
        escaped(s).len() >= s.len(),
    decreases s.len(),
{
    if s.len() > 0 {
        lemma_escaped_len(s.drop_first());
    }
}

/// A TEXT value with each escape token `\\N` written as `\\n`, everything
/// else unchanged.
pub open spec fn normalized_escapes(r: Seq<char>) -> Seq<char>
    decreases r.len(),
{
    if r.len() == 0 {
        Seq::empty()
    } else if r[0] == '\\' && r.len() >= 2 {
        (if r[1] == 'N' {
            seq!['\\', 'n']
        } else {
            seq!['\\', r[1]]
        }) + normalized_escapes(r.skip(2))
    } else {
        seq![r[0]] + normalized_escapes(r.drop_first())
    }
}

/// Whether no `;`, `,` or newline of a TEXT value stands outside an escape
/// token.
pub open spec fn specials_only_escaped(r: Seq<char>) -> bool
    decreases r.len(),
{
    if r.len() == 0 {
        true
    } else if r[0] == '\\' && r.len() >= 2 {
        specials_only_escaped(r.skip(2))
    } else {
        r[0] != ';' && r[0] != ',' && r[0] != '\n' && specials_only_escaped(r.drop_first())
    }
}

/// Escaping a decoded TEXT value gives back its source, with `\\N` written
/// as `\\n`, when the source escaped every `;`, `,` and newline.
pub proof fn escape_after_unescape(r: Seq<char>)
    requires
        unescaped(r) is Ok,
        specials_only_escaped(r),
    ensures
        escaped(unescaped(r)->Ok_0) == normalized_escapes(r),
    decreases r.len(),
{
    if r.len() > 0 {
        if r[0] != '\\' {
            let t = unescaped(r.drop_first())->Ok_0;
            escape_after_unescape(r.drop_first());
            let s = seq![r[0]] + t;
            assert(s.drop_first() =~= t);
            assert(escaped(s) == escape_char(r[0]) + escaped(t));
        } else {
            let t = unescaped(r.skip(2))->Ok_0;
            escape_after_unescape(r.skip(2));
            let e = escape_target(r[1])->0;
            let s = seq![e] + t;
            assert(s.drop_first() =~= t);
            assert(escaped(s) == escape_char(e) + escaped(t));
            assert(escape_char(e) =~= if r[1] == 'N' { seq!['\\', 'n'] } else { seq!['\\', r[1]] });
        }
    }
}


/// The property names that RFC 5545 (§3.8) gives a TEXT value and that this
/// library treats as such, ASCII case ignored.
pub open spec fn rfc_text_name(name: Seq<char>) -> bool {
    ||| eq_ignore_case(name, "ACTION"@)
    ||| eq_ignore_case(name, "CATEGORIES"@)
    ||| eq_ignore_case(name, "CLASS"@)
    ||| eq_ignore_case(name, "COMMENT"@)
    ||| eq_ignore_case(name, "CONTACT"@)
    ||| eq_ignore_case(name, "DESCRIPTION"@)
    ||| eq_ignore_case(name, "LOCATION"@)
    ||| eq_ignore_case(name, "PRODID"@)
    ||| eq_ignore_case(name, "RELATED-TO"@)
    ||| eq_ignore_case(name, "REQUEST-STATUS"@)
    ||| eq_ignore_case(name, "RESOURCES"@)
    ||| eq_ignore_case(name, "STATUS"@)
    ||| eq_ignore_case(name, "SUMMARY"@)
    ||| eq_ignore_case(name, "TRANSP"@)
    ||| eq_ignore_case(name, "TZID"@)
    ||| eq_ignore_case(name, "TZNAME"@)
    ||| eq_ignore_case(name, "UID"@)
}

/// Every name of the TEXT list is a TEXT property, in any ASCII case: its
/// values are escaped when written and decoded when read.
pub proof fn rfc_text_names_are_text(name: Seq<char>)
    requires
        rfc_text_name(name),
    ensures
        is_text_property(name),
{
    if eq_ignore_case(name, "ACTION"@) {
        assert(text_property_names()[0] == "ACTION"@);
    }
    if eq_ignore_case(name, "CATEGORIES"@) {
        assert(text_property_names()[1] == "CATEGORIES"@);
    }
    if eq_ignore_case(name, "CLASS"@) {
        assert(text_property_names()[2] == "CLASS"@);
    }
    if eq_ignore_case(name, "COMMENT"@) {
        assert(text_property_names()[3] == "COMMENT"@);
    }
    if eq_ignore_case(name, "CONTACT"@) {
        assert(text_property_names()[4] == "CONTACT"@);
    }
    if eq_ignore_case(name, "DESCRIPTION"@) {
        assert(text_property_names()[5] == "DESCRIPTION"@);
    }
    if eq_ignore_case(name, "LOCATION"@) {
        assert(text_property_names()[6] == "LOCATION"@);
    }
    if eq_ignore_case(name, "PRODID"@) {
        assert(text_property_names()[7] == "PRODID"@);
    }
    if eq_ignore_case(name, "RELATED-TO"@) {
        assert(text_property_names()[8] == "RELATED-TO"@);
    }
    if eq_ignore_case(name, "REQUEST-STATUS"@) {
        assert(text_property_names()[9] == "REQUEST-STATUS"@);
    }
    if eq_ignore_case(name, "RESOURCES"@) {
        assert(text_property_names()[10] == "RESOURCES"@);
    }
    if eq_ignore_case(name, "STATUS"@) {
        assert(text_property_names()[11] == "STATUS"@);
    }
    if eq_ignore_case(name, "SUMMARY"@) {
        assert(text_property_names()[12] == "SUMMARY"@);
    }
    if eq_ignore_case(name, "TRANSP"@) {
        assert(text_property_names()[13] == "TRANSP"@);
    }
    if eq_ignore_case(name, "TZID"@) {
        assert(text_property_names()[14] == "TZID"@);
    }
    if eq_ignore_case(name, "TZNAME"@) {
        assert(text_property_names()[15] == "TZNAME"@);
    }
    if eq_ignore_case(name, "UID"@) {
        assert(text_property_names()[16] == "UID"@);
    }
}

/// Only a backslash starts an escape: text without a backslash decodes to
/// itself, and a failure is reported at a backslash that is the last
/// character or is followed by something other than `\\`, `;`, `,`, `n`
/// or `N`; everything before it decodes.
pub proof fn unescape_fails_only_at_bad_backslash(s: Seq<char>)
    ensures
        !s.contains('\\') ==> unescaped(s) == Ok::<Seq<char>, int>(s),
        unescaped(s) matches Err(k) ==> 0 <= k < s.len() && s[k] == '\\' && (k + 1 == s.len() || !(s[k + 1]
            == '\\' || s[k + 1] == ';' || s[k + 1] == ',' || s[k + 1] == 'n' || s[k + 1] == 'N')),
    decreases s.len(),
{
    if s.len() > 0 {
        if s[0] != '\\' {
            let t = s.drop_first();
            unescape_fails_only_at_bad_backslash(t);
            if !s.contains('\\') {
                assert(!t.contains('\\')) by {
                    if t.contains('\\') {
                        let i = choose|i: int| 0 <= i < t.len() && t[i] == '\\';
                        assert(s[i + 1] == '\\');
                    }
                }
                assert(seq![s[0]] + t =~= s);
            }
            if let Err(k) = unescaped(t) {
                assert(s[k + 1] == t[k]);
                if k + 1 < t.len() {
                    assert(s[k + 2] == t[k + 1]);
                }
            }
        } else {
            assert(s.contains('\\')) by {
                assert(s[0] == '\\');
            }
            if s.len() >= 2 && escape_target(s[1]) is Some {
                let t = s.skip(2);
                unescape_fails_only_at_bad_backslash(t);
                if let Err(k) = unescaped(t) {
                    assert(s[k + 2] == t[k]);
                    if k + 1 < t.len() {
                        assert(s[k + 3] == t[k + 1]);
                    }
                }
            }
        }
    } else {
        assert(s =~= Seq::<char>::empty());
    }
}


/// How each character is escaped: `\\` as `\\\\`, `;` as `\\;`, `,` as
/// `\\,`, a newline as `\\n`, anything else as itself; with
/// [`lemma_escaped_concat`] this fixes the escaping of every text.
pub proof fn escaping_of_one_character(c: char)
    ensures
        escaped(seq![c]) == if c == '\\' {
            seq!['\\', '\\']
        } else if c == ';' {
            seq!['\\', ';']
        } else if c == ',' {
            seq!['\\', ',']
        } else if c == '\n' {
            seq!['\\', 'n']
        } else {
            seq![c]
        },
{
    let one = seq![c];
    assert(one.drop_first() =~= Seq::<char>::empty());
    assert(one[0] == c);
    assert(escaped(one.drop_first()) =~= Seq::<char>::empty());
    assert(escaped(one) == escape_char(c) + escaped(one.drop_first()));
    assert(escape_char(c) + Seq::<char>::empty() =~= escape_char(c));
}

} // verus!
