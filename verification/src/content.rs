//! Content lines: `NAME;param=value,...:value`, with double quotes protecting
//! separators inside parameter values.
use vstd::prelude::*;

use crate::chars::{debug_rendering, debug_string, string_of, string_of_all, sub_chars};
use crate::lines::char_lines;
use crate::{ContentLine, LineModel, Param, ParamModel};
use vstd::string::StringExecFns;

verus! {

/// Number of double quotes in `s`.
pub open spec fn quote_count(s: Seq<char>) -> nat
    decreases s.len(),
{
    if s.len() == 0 {
        0
    } else {
        quote_count(s.drop_last()) + if s.last() == '"' { 1nat } else { 0nat }
    }
}

/// Whether the end of `s` lies outside double quotes.
pub open spec fn outside_quotes(s: Seq<char>) -> bool {
    quote_count(s) % 2 == 0
}

/// Position of the first `target` in `t` that lies outside double quotes.
pub open spec fn first_unquoted(t: Seq<char>, target: char) -> Option<int>
    decreases t.len(),
{
    if t.len() == 0 {
        None
    } else {
        match first_unquoted(t.drop_last(), target) {
            Some(j) => Some(j),
            None => if t.last() == target && outside_quotes(t.drop_last()) {
                Some(t.len() - 1)
            } else {
                None
            },
        }
    }
}

/// Position in `s` of the first `target` at or after `start` that lies
/// outside double quotes, counting quotes from `start` on; none when
/// `start` is past the end.
pub open spec fn find_unquoted_from(s: Seq<char>, target: char, start: int) -> Option<int> {
    if start > s.len() {
        None
    } else {
        match first_unquoted(s.skip(start), target) {
            Some(j) => Some(j + start),
            None => None,
        }
    }
}

/// Finds the first `target` at or after `start` that is not inside quotes.
pub fn find_unquoted(bytes: &Vec<char>, target: char, start: usize) -> (r: Option<usize>)
    requires
        target != '"',
    ensures
        r matches Some(j) ==> find_unquoted_from(bytes@, target, start as int) == Some(j as int),
        r is None ==> find_unquoted_from(bytes@, target, start as int) is None,
{
    if start > bytes.len() {
        return None;
    }
    let ghost t = bytes@.skip(start as int);
    let mut in_quotes = false;
    let mut i: usize = start;
    assert(t.take(0) =~= Seq::<char>::empty());
    while i < bytes.len()
        invariant
            target != '"',
            start <= i <= bytes@.len(),
            t == bytes@.skip(start as int),
            in_quotes == !outside_quotes(t.take(i - start)),
            first_unquoted(t.take(i - start), target) is None,
        decreases bytes@.len() - i,
    {
        let b = bytes[i];
        proof {
            assert(t.take(i - start + 1).drop_last() =~= t.take(i - start));
            assert(t.take(i - start + 1).last() == b);
        }
        if b == '"' {
            in_quotes = !in_quotes;
        } else if b == target && !in_quotes {
            proof {
                let j = i - start;
                assert(first_unquoted(t.take(j + 1), target) == Some(j as int));
                lemma_first_unquoted_extends(t, target, j + 1);
            }
            return Some(i);
        }
        i = i + 1;
    }
    assert(t.take(i - start) =~= t);
    None
}

/// Once the first unquoted `target` lies within a prefix, longer prefixes
/// find it too.
pub proof fn lemma_first_unquoted_extends(t: Seq<char>, target: char, n: int)
    requires
        0 <= n <= t.len(),
        first_unquoted(t.take(n), target) is Some,
    ensures
        first_unquoted(t, target) == first_unquoted(t.take(n), target),
    decreases t.len() - n,
{
    if n < t.len() {
        assert(t.take(n + 1).drop_last() =~= t.take(n));
        lemma_first_unquoted_extends(t, target, n + 1);
    } else {
        assert(t.take(n) =~= t);
    }
}

/// The pieces of `s` between occurrences of `target` outside double quotes;
/// the quotes themselves stay in the pieces.
pub open spec fn split_unquoted_spec(s: Seq<char>, target: char) -> Seq<Seq<char>>
    decreases s.len(),
{
    if s.len() == 0 {
        seq![Seq::empty()]
    } else {
        let p = split_unquoted_spec(s.drop_last(), target);
        if s.last() == target && outside_quotes(s.drop_last()) {
            p.push(Seq::empty())
        } else {
            p.update(p.len() - 1, p.last().push(s.last()))
        }
    }
}

pub proof fn lemma_split_unquoted_nonempty(s: Seq<char>, target: char)
    ensures
        split_unquoted_spec(s, target).len() >= 1,
    decreases s.len(),
{
    if s.len() > 0 {
        lemma_split_unquoted_nonempty(s.drop_last(), target);
    }
}

/// Splits `s` at each `target` that is not inside double quotes.
pub fn split_unquoted(s: &Vec<char>, target: char) -> (r: Vec<Vec<char>>)
    requires
        target != '"',
    ensures
        char_lines(r@) == split_unquoted_spec(s@, target),
{
    let mut done: Vec<Vec<char>> = Vec::new();
    let mut cur: Vec<char> = Vec::new();
    let mut in_quotes = false;
    let mut i: usize = 0;
    assert(s@.take(0) =~= Seq::<char>::empty());
    assert(char_lines(done@).push(cur@) =~= seq![Seq::<char>::empty()]);
    while i < s.len()
        invariant
            target != '"',
            i <= s@.len(),
            in_quotes == !outside_quotes(s@.take(i as int)),
            char_lines(done@).push(cur@) == split_unquoted_spec(s@.take(i as int), target),
        decreases s@.len() - i,
    {
        let b = s[i];
        let ghost p = split_unquoted_spec(s@.take(i as int), target);
        proof {
            assert(s@.take(i + 1).drop_last() =~= s@.take(i as int));
            assert(s@.take(i + 1).last() == b);
            lemma_split_unquoted_nonempty(s@.take(i as int), target);
        }
        if b == target && !in_quotes {
            done.push(cur);
            cur = Vec::new();
            assert(char_lines(done@).push(cur@) =~= p.push(Seq::empty()));
        } else {
            if b == '"' {
                in_quotes = !in_quotes;
            }
            cur.push(b);
            proof {
                assert(char_lines(done@) =~= p.drop_last());
                assert(char_lines(done@).push(cur@) =~= p.update(p.len() - 1, p.last().push(b)));
            }
        }
        i = i + 1;
    }
    assert(s@.take(i as int) =~= s@);
    done.push(cur);
    done
}

/// A value in double quotes loses them.
pub open spec fn unquote_spec(v: Seq<char>) -> Seq<char> {
    if v.len() >= 2 && v[0] == '"' && v.last() == '"' {
        v.subrange(1, v.len() - 1)
    } else {
        v
    }
}

/// Removes the double quotes around a value, if it has them.
pub fn unquote(v: &Vec<char>) -> (r: String)
    ensures
        r@ == unquote_spec(v@),
{
    if v.len() >= 2 && v[0] == '"' && v[v.len() - 1] == '"' {
        string_of(v, 1, v.len() - 1)
    } else {
        string_of_all(v)
    }
}

/// The message for an empty parameter.
pub open spec fn msg_empty_param() -> Seq<char> {
    "empty parameter between ';' separators"@
}

/// The message for a parameter without `=`.
pub open spec fn msg_missing_eq(chunk: Seq<char>) -> Seq<char> {
    "parameter "@ + debug_rendering(chunk) + " is missing '='"@
}

/// The message for a parameter whose name is empty.
pub open spec fn msg_empty_param_name() -> Seq<char> {
    "parameter name is empty"@
}

/// One `name=v1,v2` parameter, its values unquoted.
pub open spec fn param_spec(chunk: Seq<char>) -> Result<ParamModel, Seq<char>> {
    if chunk.len() == 0 {
        Err(msg_empty_param())
    } else {
        match first_unquoted(chunk, '=') {
            None => Err(msg_missing_eq(chunk)),
            Some(eq) => if eq == 0 {
                Err(msg_empty_param_name())
            } else {
                Ok(
                    ParamModel {
                        name: chunk.take(eq),
                        values: split_unquoted_spec(chunk.skip(eq + 1), ',').map_values(
                            |v: Seq<char>| unquote_spec(v),
                        ),
                    },
                )
            },
        }
    }
}

/// The parameters of a sequence of chunks, or the error of the first chunk
/// that is not a parameter.
pub open spec fn params_of_chunks(chunks: Seq<Seq<char>>) -> Result<Seq<ParamModel>, Seq<char>>
    decreases chunks.len(),
{
    if chunks.len() == 0 {
        Ok(Seq::empty())
    } else {
        match params_of_chunks(chunks.drop_last()) {
            Err(m) => Err(m),
            Ok(ps) => match param_spec(chunks.last()) {
                Err(m) => Err(m),
                Ok(p) => Ok(ps.push(p)),
            },
        }
    }
}

/// The parameter list between the first `;` and the `:` of a line.
pub open spec fn params_spec(s: Seq<char>) -> Result<Seq<ParamModel>, Seq<char>> {
    params_of_chunks(split_unquoted_spec(s, ';'))
}

/// The models of a vector of parameters.
pub open spec fn param_models(ps: Seq<Param>) -> Seq<ParamModel> {
    ps.map_values(|p: Param| p@)
}

/// Once a prefix of the chunks fails, all of them fail with that error.
proof fn lemma_params_error_extends(chunks: Seq<Seq<char>>, n: int)
    requires
        0 <= n <= chunks.len(),
        params_of_chunks(chunks.take(n)) is Err,
    ensures
        params_of_chunks(chunks) == params_of_chunks(chunks.take(n)),
    decreases chunks.len() - n,
{
    if n < chunks.len() {
        assert(chunks.take(n + 1).drop_last() =~= chunks.take(n));
        lemma_params_error_extends(chunks, n + 1);
    } else {
        assert(chunks.take(n) =~= chunks);
    }
}

fn parse_params(s: &Vec<char>) -> (r: Result<Vec<Param>, String>)
    ensures
        match params_spec(s@) {
            Ok(ps) => r matches Ok(v) && param_models(v@) == ps,
            Err(m) => r matches Err(e) && e@ == m,
        },
{
    let chunks = split_unquoted(s, ';');
    let ghost cs = char_lines(chunks@);
    let mut params: Vec<Param> = Vec::new();
    let mut idx: usize = 0;
    assert(cs.take(0) =~= Seq::<Seq<char>>::empty());
    assert(param_models(params@) =~= Seq::<ParamModel>::empty());
    while idx < chunks.len()
        invariant
            cs == char_lines(chunks@),
            cs == split_unquoted_spec(s@, ';'),
            idx <= chunks@.len(),
            params_of_chunks(cs.take(idx as int)) == Ok::<Seq<ParamModel>, Seq<char>>(
                param_models(params@),
            ),
        decreases chunks@.len() - idx,
    {
        let chunk = &chunks[idx];
        proof {
            assert(cs.take(idx + 1).drop_last() =~= cs.take(idx as int));
            assert(cs.take(idx + 1).last() == chunk@);
        }
        if chunk.len() == 0 {
            proof {
                assert(param_spec(chunk@) == Err::<ParamModel, Seq<char>>(msg_empty_param()));
                lemma_params_error_extends(cs, idx + 1);
            }
            return Err(String::from_str("empty parameter between ';' separators"));
        }
        let eq = match find_unquoted(chunk, '=', 0) {
            Some(e) => e,
            None => {
                assert(chunk@.skip(0) =~= chunk@);
                let shown = string_of_all(chunk);
                let mut m = String::from_str("parameter ");
                let d = debug_string(shown.as_str());
                m.append(d.as_str());
                m.append(" is missing '='");
                proof {
                    assert(param_spec(chunk@) == Err::<ParamModel, Seq<char>>(msg_missing_eq(chunk@)));
                    lemma_params_error_extends(cs, idx + 1);
                }
                return Err(m);
            },
        };
        assert(chunk@.skip(0) =~= chunk@);
        proof {
            lemma_first_unquoted_bound(chunk@, '=');
        }
        if eq == 0 {
            proof {
                assert(first_unquoted(chunk@, '=') == Some(0int));
                assert(param_spec(chunk@) == Err::<ParamModel, Seq<char>>(msg_empty_param_name()));
                lemma_params_error_extends(cs, idx + 1);
            }
            return Err(String::from_str("parameter name is empty"));
        }
        let name = string_of(chunk, 0, eq);
        let rest = sub_chars(chunk, eq + 1, chunk.len());
        let pieces = split_unquoted(&rest, ',');
        let ghost pv = char_lines(pieces@);
        let mut values: Vec<String> = Vec::new();
        let mut k: usize = 0;
        while k < pieces.len()
            invariant
                pv == char_lines(pieces@),
                k <= pieces@.len(),
                values@.len() == k,
                forall|j: int| 0 <= j < k ==> #[trigger] values@[j]@ == unquote_spec(pv[j]),
            decreases pieces@.len() - k,
        {
            let u = unquote(&pieces[k]);
            values.push(u);
            k = k + 1;
        }
        let p = Param { name, values };
        proof {
            assert(chunk@.skip(eq + 1) =~= rest@);
            assert(chunk@.take(eq as int) =~= name@);
            assert(p@.values =~= pv.map_values(|v: Seq<char>| unquote_spec(v)));
        }
        let ghost before = params@;
        params.push(p);
        assert(param_models(params@) =~= param_models(before).push(p@));
        idx = idx + 1;
    }
    assert(cs.take(idx as int) =~= cs);
    Ok(params)
}

/// Position of the first `:` or `;` in `t`.
pub open spec fn first_separator(t: Seq<char>) -> Option<int>
    decreases t.len(),
{
    if t.len() == 0 {
        None
    } else {
        match first_separator(t.drop_last()) {
            Some(j) => Some(j),
            None => if t.last() == ':' || t.last() == ';' {
                Some(t.len() - 1)
            } else {
                None
            },
        }
    }
}

/// Characters allowed in a property name: A-Z, a-z, 0-9 and `-`.
pub open spec fn is_name_char(c: char) -> bool {
    ('A' <= c && c <= 'Z') || ('a' <= c && c <= 'z') || ('0' <= c && c <= '9') || c == '-'
}

/// Whether every character of a property name is allowed.
pub open spec fn is_valid_name(name: Seq<char>) -> bool {
    forall|i: int| 0 <= i < name.len() ==> #[trigger] is_name_char(name[i])
}

/// The message for a line without `:` or `;`.
pub open spec fn msg_no_separator(raw: Seq<char>) -> Seq<char> {
    "line has no ':' separator: "@ + debug_rendering(raw)
}

/// The message for a line that starts with its separator.
pub open spec fn msg_empty_name() -> Seq<char> {
    "property name is empty"@
}

/// The message for a property name with a character that is not allowed.
pub open spec fn msg_bad_name(name: Seq<char>) -> Seq<char> {
    "property name "@ + debug_rendering(name) + " contains characters other than A-Z, 0-9 and '-'"@
}

/// The message for a line with parameters but no value.
pub open spec fn msg_no_colon() -> Seq<char> {
    "line has parameters but no ':' before the value"@
}

/// One logical line parsed as `NAME;params:value`, or the reason it is not one.
pub open spec fn content_line_spec(raw: Seq<char>, line_no: nat) -> Result<LineModel, Seq<char>> {
    match first_separator(raw) {
        None => Err(msg_no_separator(raw)),
        Some(sep) => {
            let name = raw.take(sep);
            if name.len() == 0 {
                Err(msg_empty_name())
            } else if !is_valid_name(name) {
                Err(msg_bad_name(name))
            } else if raw[sep] == ':' {
                Ok(LineModel { name, params: Seq::empty(), value: raw.skip(sep + 1), source_line: line_no })
            } else {
                match find_unquoted_from(raw, ':', sep + 1) {
                    None => Err(msg_no_colon()),
                    Some(colon) => match params_spec(raw.subrange(sep + 1, colon)) {
                        Err(m) => Err(m),
                        Ok(ps) => Ok(
                            LineModel { name, params: ps, value: raw.skip(colon + 1), source_line: line_no },
                        ),
                    },
                }
            }
        },
    }
}

pub proof fn lemma_first_separator_extends(t: Seq<char>, n: int)
    requires
        0 <= n <= t.len(),
        first_separator(t.take(n)) is Some,
    ensures
        first_separator(t) == first_separator(t.take(n)),
    decreases t.len() - n,
{
    if n < t.len() {
        assert(t.take(n + 1).drop_last() =~= t.take(n));
        lemma_first_separator_extends(t, n + 1);
    } else {
        assert(t.take(n) =~= t);
    }
}

fn find_separator(raw: &Vec<char>) -> (r: Option<usize>)
    ensures
        r matches Some(j) ==> first_separator(raw@) == Some(j as int),
        r is None ==> first_separator(raw@) is None,
{
    let mut i: usize = 0;
    assert(raw@.take(0) =~= Seq::<char>::empty());
    while i < raw.len()
        invariant
            i <= raw@.len(),
            first_separator(raw@.take(i as int)) is None,
        decreases raw@.len() - i,
    {
        proof {
            assert(raw@.take(i + 1).drop_last() =~= raw@.take(i as int));
            assert(raw@.take(i + 1).last() == raw@[i as int]);
        }
        if raw[i] == ':' || raw[i] == ';' {
            proof {
                lemma_first_separator_extends(raw@, i + 1);
            }
            return Some(i);
        }
        i = i + 1;
    }
    assert(raw@.take(i as int) =~= raw@);
    None
}

/// Parses one logical line into a [`ContentLine`] numbered `line_no`.
pub fn parse_content_line(raw: &Vec<char>, line_no: usize) -> (r: Result<ContentLine, String>)
    ensures
        match content_line_spec(raw@, line_no as nat) {
            Ok(l) => r matches Ok(cl) && cl@ == l,
            Err(m) => r matches Err(e) && e@ == m,
        },
{
    let sep = match find_separator(raw) {
        Some(s) => s,
        None => {
            let shown = string_of_all(raw);
            let mut m = String::from_str("line has no ':' separator: ");
            let d = debug_string(shown.as_str());
            m.append(d.as_str());
            return Err(m);
        },
    };
    proof {
        lemma_first_separator_bound(raw@);
    }
    assert(first_separator(raw@) == Some(sep as int));
    let n: usize = raw.len();
    let name = string_of(raw, 0, sep);
    assert(raw@.take(sep as int) =~= name@);
    if sep == 0 {
        return Err(String::from_str("property name is empty"));
    }
    let mut k: usize = 0;
    while k < sep
        invariant
            sep < raw@.len(),
            n == raw@.len(),
            first_separator(raw@) == Some(sep as int),
            name@ == raw@.take(sep as int),
            k <= sep,
            forall|j: int| 0 <= j < k ==> #[trigger] is_name_char(raw@[j]),
        decreases sep - k,
    {
        let c = raw[k];
        if !(('A' <= c && c <= 'Z') || ('a' <= c && c <= 'z') || ('0' <= c && c <= '9') || c == '-') {
            assert(name@[k as int] == c);
            assert(!is_name_char(name@[k as int]));
            let mut m = String::from_str("property name ");
            let d = debug_string(name.as_str());
            m.append(d.as_str());
            m.append(" contains characters other than A-Z, 0-9 and '-'");
            return Err(m);
        }
        k = k + 1;
    }
    assert(is_valid_name(name@));
    if raw[sep] == ':' {
        let value = string_of(raw, sep + 1, n);
        let cl = ContentLine { name, params: Vec::new(), value, source_line: line_no };
        assert(raw@.skip(sep + 1) =~= value@);
        assert(cl@.params =~= Seq::<ParamModel>::empty());
        return Ok(cl);
    }
    let colon = match find_unquoted(raw, ':', sep + 1) {
        Some(c) => c,
        None => {
            return Err(String::from_str("line has parameters but no ':' before the value"));
        },
    };
    proof {
        let t = raw@.skip(sep + 1);
        if let Some(j) = first_unquoted(t, ':') {
            lemma_first_unquoted_bound(t, ':');
        }
    }
    let pchars = sub_chars(raw, sep + 1, colon);
    let params = match parse_params(&pchars) {
        Ok(ps) => ps,
        Err(e) => {
            return Err(e);
        },
    };
    let value = string_of(raw, colon + 1, n);
    assert(raw@.skip(colon + 1) =~= value@);
    let cl = ContentLine { name, params, value, source_line: line_no };
    assert(cl@.params == param_models(params@));
    Ok(cl)
}

/// The first separator is a `:` or `;` within the text.
pub proof fn lemma_first_separator_bound(t: Seq<char>)
    ensures
        first_separator(t) matches Some(j) ==> 0 <= j < t.len() && (t[j] == ':' || t[j] == ';'),
    decreases t.len(),
{
    if t.len() > 0 {
        lemma_first_separator_bound(t.drop_last());
    }
}

proof fn lemma_first_unquoted_bound(t: Seq<char>, target: char)
    ensures
        first_unquoted(t, target) matches Some(j) ==> 0 <= j < t.len() && t[j] == target,
    decreases t.len(),
{
    if t.len() > 0 {
        lemma_first_unquoted_bound(t.drop_last(), target);
    }
}


/// An ASCII letter or digit, or `-`.
pub open spec fn ascii_alphanumeric_or_dash(c: char) -> bool {
    ('A' <= c && c <= 'Z') || ('a' <= c && c <= 'z') || ('0' <= c && c <= '9') || c == '-'
}

/// The name of every line that reads as a content line is non-empty and
/// made only of ASCII letters, digits and `-`: a line whose name holds any
/// other character is refused.
pub proof fn content_line_names_are_alphanumeric(raw: Seq<char>, n: nat)
    ensures
        content_line_spec(raw, n) matches Ok(l) ==> l.name.len() > 0 && forall|i: int|
            0 <= i < l.name.len() ==> ascii_alphanumeric_or_dash(#[trigger] l.name[i]),
{
    if let Ok(l) = content_line_spec(raw, n) {
        assert forall|i: int| 0 <= i < l.name.len() implies ascii_alphanumeric_or_dash(#[trigger] l.name[i]) by {
            assert(is_name_char(l.name[i]));
        }
    }
}

proof fn lemma_no_separator_in_name(name: Seq<char>)
    requires
        forall|i: int| 0 <= i < name.len() ==> ascii_alphanumeric_or_dash(#[trigger] name[i]),
    ensures
        first_separator(name) is None,
        is_valid_name(name),
    decreases name.len(),
{
    if name.len() > 0 {
        let init = name.drop_last();
        assert forall|i: int| 0 <= i < init.len() implies ascii_alphanumeric_or_dash(#[trigger] init[i]) by {
            assert(init[i] == name[i]);
        }
        lemma_no_separator_in_name(init);
        assert(ascii_alphanumeric_or_dash(name[name.len() - 1]));
        assert forall|i: int| 0 <= i < name.len() implies #[trigger] is_name_char(name[i]) by {
            assert(ascii_alphanumeric_or_dash(name[i]));
        }
    }
}

/// A non-empty name of ASCII letters, digits and `-`, a `:` and any value
/// read as a content line with that name, no parameters and that value.
pub proof fn alphanumeric_name_line_parses(name: Seq<char>, value: Seq<char>, n: nat)
    requires
        name.len() > 0,
        forall|i: int| 0 <= i < name.len() ==> ascii_alphanumeric_or_dash(#[trigger] name[i]),
    ensures
        content_line_spec(name + seq![':'] + value, n) == Ok::<LineModel, Seq<char>>(
            LineModel { name, params: Seq::empty(), value, source_line: n },
        ),
{
    let raw = name + seq![':'] + value;
    let k = name.len() as int;
    lemma_no_separator_in_name(name);
    assert(raw.take(k + 1) =~= name.push(':'));
    assert(name.push(':').drop_last() =~= name);
    assert(first_separator(name.push(':')) == Some(k));
    lemma_first_separator_extends(raw, k + 1);
    assert(raw.take(k) =~= name);
    assert(raw[k] == ':');
    assert(raw.skip(k + 1) =~= value);
}

/// Unquoting removes a surrounding pair of double quotes, whatever they
/// enclose, and leaves a value without such a pair as it is.
pub proof fn unquote_strips_surrounding_quotes(v: Seq<char>)
    ensures
        unquote_spec(seq!['"'] + v + seq!['"']) == v,
        !(v.len() >= 2 && v[0] == '"' && v[v.len() - 1] == '"') ==> unquote_spec(v) == v,
{
    let q = seq!['"'] + v + seq!['"'];
    assert(q[0] == '"');
    assert(q.last() == '"');
    assert(q.subrange(1, q.len() - 1) =~= v);
}

} // verus!
