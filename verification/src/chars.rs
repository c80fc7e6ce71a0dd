//! Character-level helpers shared by the parser and the writer: turning
//! strings into character vectors and back, ASCII case folding, UTF-8
//! octet counts, and decimal rendering of line numbers.
use vstd::prelude::*;
use vstd::utf8::*;

verus! {

broadcast use group_utf8_lib;

/// Length in octets of the UTF-8 encoding of a character sequence.
pub open spec fn octets(s: Seq<char>) -> nat {
    encode_utf8(s).len()
}

/// Length in octets of the UTF-8 encoding of one character.
pub open spec fn char_octets(c: char) -> nat {
    encode_scalar(c as u32).len()
}

/// The encoding of a concatenation is the concatenation of the encodings.
pub proof fn lemma_encode_concat(a: Seq<char>, b: Seq<char>)
    ensures
        encode_utf8(a + b) == encode_utf8(a) + encode_utf8(b),
    decreases a.len(),
{
    if a.len() == 0 {
        assert(a + b =~= b);
    } else {
        lemma_encode_concat(a.drop_first(), b);
        assert((a + b).drop_first() =~= a.drop_first() + b);
        assert(encode_utf8(a + b) =~= encode_scalar(a[0] as u32) + encode_utf8(a.drop_first() + b));
    }
}

/// Octet counts add up over concatenation.
pub proof fn lemma_octets_concat(a: Seq<char>, b: Seq<char>)
    ensures
        octets(a + b) == octets(a) + octets(b),
{
    lemma_encode_concat(a, b);
}

/// Appending one character adds its own octet count.
pub proof fn lemma_octets_push(s: Seq<char>, c: char)
    ensures
        octets(s.push(c)) == octets(s) + char_octets(c),
        1 <= char_octets(c) <= 4,
{
    lemma_encode_concat(s, seq![c]);
    assert(s.push(c) =~= s + seq![c]);
    assert(seq![c].drop_first() =~= Seq::<char>::empty());
    assert(encode_utf8(seq![c]) =~= encode_scalar(c as u32) + encode_utf8(Seq::<char>::empty()));
}

/// A prefix never has more octets than the whole sequence.
pub proof fn lemma_octets_prefix(s: Seq<char>, i: int)
    requires
        0 <= i <= s.len(),
    ensures
        octets(s.take(i)) <= octets(s),
{
    lemma_octets_concat(s.take(i), s.skip(i));
    assert(s.take(i) + s.skip(i) =~= s);
}

/// Number of octets that `c` takes in UTF-8.
pub fn char_width(c: char) -> (n: usize)
    ensures
        n == char_octets(c),
        1 <= n <= 4,
{
    proof {
        char_is_scalar(c);
    }
    let u: u32 = c as u32;
    if u <= 0x7F {
        1
    } else if u <= 0x7FF {
        2
    } else if u <= 0xFFFF {
        3
    } else {
        4
    }
}

/// Octet count of a string slice, which always fits in a `usize`.
pub fn str_octets(s: &str) -> (n: usize)
    ensures
        n == octets(s@),
{
    let b = s.as_bytes();
    b.len()
}

/// The characters of a string slice, in order.
pub fn chars_of(s: &str) -> (v: Vec<char>)
    ensures
        v@ == s@,
{
    let mut v: Vec<char> = Vec::new();
    for c in it: s.chars()
        invariant
            v@ == it.seq().take(it.index() as int),
            it.seq() == s@,
    {
        v.push(c);
    }
    v
}

/// Appends one character to a `String`.
///
/// Trusted: calls `String::push`, which std documents as appending the
/// given char to the end of the string.
#[verifier::external_body]
pub(crate) fn push_char(s: &mut String, c: char)
    ensures
        final(s)@ == old(s)@.push(c),
{
    s.push(c);
}

/// Builds a `String` from the characters `v[lo..hi]`.
pub fn string_of(v: &Vec<char>, lo: usize, hi: usize) -> (s: String)
    requires
        lo <= hi <= v@.len(),
    ensures
        s@ == v@.subrange(lo as int, hi as int),
{
    let mut s = String::new();
    let mut i: usize = lo;
    while i < hi
        invariant
            lo <= i <= hi <= v@.len(),
            s@ == v@.subrange(lo as int, i as int),
        decreases hi - i,
    {
        push_char(&mut s, v[i]);
        assert(v@.subrange(lo as int, i + 1) =~= v@.subrange(lo as int, i as int).push(v@[i as int]));
        i = i + 1;
    }
    s
}

/// The characters `v[lo..hi]` as a new vector.
pub fn sub_chars(v: &Vec<char>, lo: usize, hi: usize) -> (r: Vec<char>)
    requires
        lo <= hi <= v@.len(),
    ensures
        r@ == v@.subrange(lo as int, hi as int),
{
    let mut r: Vec<char> = Vec::new();
    let mut i: usize = lo;
    while i < hi
        invariant
            lo <= i <= hi <= v@.len(),
            r@ == v@.subrange(lo as int, i as int),
        decreases hi - i,
    {
        r.push(v[i]);
        assert(v@.subrange(lo as int, i + 1) =~= v@.subrange(lo as int, i as int).push(v@[i as int]));
        i = i + 1;
    }
    r
}

/// Builds a `String` from all characters of `v`.
pub fn string_of_all(v: &Vec<char>) -> (s: String)
    ensures
        s@ == v@,
{
    let s = string_of(v, 0, v.len());
    assert(v@.subrange(0, v@.len() as int) =~= v@);
    s
}

/// Appends all characters of `v[lo..hi]` to `out`.
pub fn push_chars(out: &mut String, v: &Vec<char>, lo: usize, hi: usize)
    requires
        lo <= hi <= v@.len(),
    ensures
        final(out)@ == old(out)@ + v@.subrange(lo as int, hi as int),
{
    let mut i: usize = lo;
    while i < hi
        invariant
            lo <= i <= hi <= v@.len(),
            out@ == old(out)@ + v@.subrange(lo as int, i as int),
        decreases hi - i,
    {
        push_char(out, v[i]);
        assert(v@.subrange(lo as int, i + 1) =~= v@.subrange(lo as int, i as int).push(v@[i as int]));
        i = i + 1;
    }
}

/// The value by which two characters compare when ASCII case is ignored:
/// ASCII capitals are mapped to their lowercase code, all else stays.
pub open spec fn ascii_fold(c: char) -> u32 {
    if 'A' <= c && c <= 'Z' {
        (c as u32 + 32) as u32
    } else {
        c as u32
    }
}

/// Equality of two character sequences when ASCII case is ignored, as
/// `str::eq_ignore_ascii_case` decides it.
pub open spec fn eq_ignore_case(a: Seq<char>, b: Seq<char>) -> bool {
    &&& a.len() == b.len()
    &&& forall|i: int| 0 <= i < a.len() ==> #[trigger] ascii_fold(a[i]) == ascii_fold(b[i])
}

/// Whether two characters are equal when ASCII case is ignored.
pub fn char_eq_ignore_case(a: char, b: char) -> (r: bool)
    ensures
        r == (ascii_fold(a) == ascii_fold(b)),
{
    let x: u32 = a as u32;
    let y: u32 = b as u32;
    let fx: u32 = if 65 <= x && x <= 90 { x + 32 } else { x };
    let fy: u32 = if 65 <= y && y <= 90 { y + 32 } else { y };
    fx == fy
}

/// Compares a character vector with a string slice, ignoring ASCII case.
pub fn chars_eq_ignore_case(a: &Vec<char>, b: &str) -> (r: bool)
    ensures
        r == eq_ignore_case(a@, b@),
{
    let bv = chars_of(b);
    if a.len() != bv.len() {
        return false;
    }
    let mut i: usize = 0;
    while i < a.len()
        invariant
            a@.len() == bv@.len(),
            bv@ == b@,
            i <= a@.len(),
            forall|k: int| 0 <= k < i ==> #[trigger] ascii_fold(a@[k]) == ascii_fold(bv@[k]),
        decreases a@.len() - i,
    {
        if !char_eq_ignore_case(a[i], bv[i]) {
            return false;
        }
        i = i + 1;
    }
    true
}

/// Compares two string slices, ignoring ASCII case.
pub fn str_eq_ignore_case(a: &str, b: &str) -> (r: bool)
    ensures
        r == eq_ignore_case(a@, b@),
{
    let av = chars_of(a);
    chars_eq_ignore_case(&av, b)
}

/// The decimal digits of a natural number, most significant first.
pub open spec fn decimal(n: nat) -> Seq<char>
    decreases n,
{
    if n < 10 {
        seq![digit_char(n)]
    } else {
        decimal(n / 10).push(digit_char(n % 10))
    }
}

/// The ASCII digit for a value below ten.
pub open spec fn digit_char(d: nat) -> char {
    if d == 0 { '0' }
    else if d == 1 { '1' }
    else if d == 2 { '2' }
    else if d == 3 { '3' }
    else if d == 4 { '4' }
    else if d == 5 { '5' }
    else if d == 6 { '6' }
    else if d == 7 { '7' }
    else if d == 8 { '8' }
    else { '9' }
}

fn digit(d: usize) -> (c: char)
    requires
        d < 10,
    ensures
        c == digit_char(d as nat),
{
    if d == 0 { '0' }
    else if d == 1 { '1' }
    else if d == 2 { '2' }
    else if d == 3 { '3' }
    else if d == 4 { '4' }
    else if d == 5 { '5' }
    else if d == 6 { '6' }
    else if d == 7 { '7' }
    else if d == 8 { '8' }
    else { '9' }
}

/// Appends the decimal rendering of `n`, as `format!("{}", n)` writes it.
pub fn push_decimal(out: &mut String, n: usize)
    ensures
        final(out)@ == old(out)@ + decimal(n as nat),
    decreases n,
{
    if n < 10 {
        push_char(out, digit(n));
        assert(decimal(n as nat) =~= seq![digit_char(n as nat)]);
    } else {
        push_decimal(out, n / 10);
        push_char(out, digit(n % 10));
        assert(decimal(n as nat) =~= decimal((n / 10) as nat).push(digit_char((n % 10) as nat)));
    }
}

/// The result of `str::to_uppercase` on a character sequence: Unicode
/// uppercase mapping, which std computes from the Unicode tables.
pub uninterp spec fn unicode_uppercase(s: Seq<char>) -> Seq<char>;

/// Whether every character is ASCII.
pub open spec fn all_ascii(s: Seq<char>) -> bool {
    forall|i: int| 0 <= i < s.len() ==> (#[trigger] s[i] as u32) < 128
}

/// An ASCII character with `a`..`z` mapped to `A`..`Z`.
pub open spec fn ascii_upper_char(c: char) -> char {
    if 'a' <= c && c <= 'z' {
        ((c as u32) - 32) as char
    } else {
        c
    }
}

/// What `str::to_uppercase` gives: for an all-ASCII string each of `a`..`z`
/// becomes its capital and every other character stays; beyond ASCII the
/// Unicode mapping, named [`unicode_uppercase`].
pub open spec fn uppercased(s: Seq<char>) -> Seq<char> {
    if all_ascii(s) {
        s.map_values(|c: char| ascii_upper_char(c))
    } else {
        unicode_uppercase(s)
    }
}

/// Uppercases a string.
///
/// Trusted: calls `str::to_uppercase`. The contract claims that the result
/// depends on the characters of `s` alone and that, for an all-ASCII
/// string, each of `a`..`z` becomes its capital and every other character
/// stays (the Unicode uppercase mapping of ASCII, as in the documented
/// example `"hello"` to `"HELLO"`). Beyond ASCII nothing is stated.
#[verifier::external_body]
pub(crate) fn to_uppercase(s: &str) -> (r: String)
    ensures
        r@ == uppercased(s@),
        !all_ascii(s@) ==> r@ == unicode_uppercase(s@),
{
    s.to_uppercase()
}

/// The text that `format!("{:?}", s)` writes for a string: the string in
/// double quotes with `char::escape_debug` applied to its characters.
pub uninterp spec fn debug_quoted(s: Seq<char>) -> Seq<char>;

/// Whether a character is printable ASCII (space to `~`) other than `"`
/// and `\\`, which `{:?}` writes as it is.
pub open spec fn debug_plain_char(c: char) -> bool {
    ' ' <= c && c <= '~' && c != '"' && c != '\\'
}

/// What `{:?}` writes for a string: a string of printable ASCII without `"`
/// or `\\` unchanged between double quotes; otherwise the rendering named
/// [`debug_quoted`].
pub open spec fn debug_rendering(s: Seq<char>) -> Seq<char> {
    if forall|i: int| 0 <= i < s.len() ==> #[trigger] debug_plain_char(s[i]) {
        seq!['"'] + s + seq!['"']
    } else {
        debug_quoted(s)
    }
}

/// Renders a string the way `{:?}` does.
///
/// Trusted: calls `format!` with `{:?}` on a `&str`. The contract claims
/// that the result depends on the characters of `s` alone and that a string
/// of printable ASCII without `"` or `\\` is written unchanged between
/// double quotes (`char::escape_debug` leaves such characters alone).
/// Beyond that nothing is stated.
#[verifier::external_body]
pub(crate) fn debug_string(s: &str) -> (r: String)
    ensures
        r@ == debug_rendering(s@),
        !(forall|i: int| 0 <= i < s@.len() ==> #[trigger] debug_plain_char(s@[i])) ==> r@ == debug_quoted(
            s@,
        ),
{
    format!("{:?}", s)
}

} // verus!
