//! A written property line parses back: the proofs that the writer's
//! quoting and separators are read the way they were meant.
use vstd::prelude::*;

use crate::chars::{all_ascii, ascii_fold, ascii_upper_char, eq_ignore_case, uppercased};
use crate::content::{
    content_line_spec, find_unquoted_from, first_separator, first_unquoted, is_name_char,
    is_valid_name, lemma_first_separator_extends, lemma_first_unquoted_extends,
    lemma_split_unquoted_nonempty, outside_quotes, param_spec, params_of_chunks, params_spec,
    quote_count, split_unquoted_spec, unquote_spec,
};
use crate::parser::decode_line;
use crate::text::{is_text_property, text_property_names, unescape_inverts_escape};
use crate::writer::{
    needs_quotes, rendered_param_value, rendered_params_named, rendered_property, rendered_value,
    rendered_values, unquote_inverts_rendering, upper_param_names,
};
use crate::{LineModel, ParamModel};

verus! {

/// Quotes add up over concatenation.
pub proof fn lemma_quote_count_concat(a: Seq<char>, b: Seq<char>)
    ensures
        quote_count(a + b) == quote_count(a) + quote_count(b),
    decreases b.len(),
{
    if b.len() == 0 {
        assert(a + b =~= a);
    } else {
        lemma_quote_count_concat(a, b.drop_last());
        assert((a + b).drop_last() =~= a + b.drop_last());
        assert((a + b).last() == b.last());
    }
}

/// A text without double quotes has none to count.
pub proof fn lemma_quote_count_none(x: Seq<char>)
    requires
        !x.contains('"'),
    ensures
        quote_count(x) == 0,
    decreases x.len(),
{
    if x.len() > 0 {
        assert(!x.drop_last().contains('"')) by {
            if x.drop_last().contains('"') {
                let i = choose|i: int| 0 <= i < x.drop_last().len() && x.drop_last()[i] == '"';
                assert(x[i] == '"');
            }
        }
        assert(x.last() == x[x.len() - 1]);
        lemma_quote_count_none(x.drop_last());
    }
}

/// Whether every `target` in `x` lies inside double quotes and `x` ends
/// outside them: splitting or searching at `target` never stops in `x`.
pub open spec fn free_of(x: Seq<char>, target: char) -> bool {
    &&& outside_quotes(x)
    &&& forall|j: int| 0 <= j < x.len() && #[trigger] x[j] == target ==> !outside_quotes(x.take(j))
}

/// Text without quotes and without `target` is free of it.
pub proof fn lemma_free_plain(x: Seq<char>, target: char)
    requires
        !x.contains('"'),
        !x.contains(target),
    ensures
        free_of(x, target),
{
    lemma_quote_count_none(x);
    assert forall|j: int| 0 <= j < x.len() && #[trigger] x[j] == target implies !outside_quotes(x.take(j)) by {
        assert(x.contains(target));
    }
}

/// A value in double quotes, itself without quotes, is free of any other
/// character.
pub proof fn lemma_free_quoted(v: Seq<char>, target: char)
    requires
        !v.contains('"'),
        target != '"',
    ensures
        free_of(seq!['"'] + v + seq!['"'], target),
{
    let x = seq!['"'] + v + seq!['"'];
    lemma_quote_count_none(v);
    lemma_quote_count_concat(seq!['"'], v);
    lemma_quote_count_concat(seq!['"'] + v, seq!['"']);
    assert(seq!['"'].drop_last() =~= Seq::<char>::empty());
    assert(quote_count(Seq::<char>::empty()) == 0);
    assert(seq!['"'].last() == '"');
    assert(quote_count(seq!['"']) == 1);
    assert forall|j: int| 0 <= j < x.len() && #[trigger] x[j] == target implies !outside_quotes(x.take(j)) by {
        assert(j >= 1 && j <= v.len());
        assert(x.take(j) =~= seq!['"'] + v.take(j - 1));
        let vt = v.take(j - 1);
        assert(!vt.contains('"')) by {
            if vt.contains('"') {
                let i = choose|i: int| 0 <= i < vt.len() && #[trigger] vt[i] == '"';
                assert(v[i] == '"');
            }
        }
        lemma_quote_count_none(v.take(j - 1));
        lemma_quote_count_concat(seq!['"'], v.take(j - 1));
    }
}

/// Free texts stay free when put together.
pub proof fn lemma_free_concat(a: Seq<char>, b: Seq<char>, target: char)
    requires
        free_of(a, target),
        free_of(b, target),
    ensures
        free_of(a + b, target),
{
    let x = a + b;
    lemma_quote_count_concat(a, b);
    assert forall|j: int| 0 <= j < x.len() && #[trigger] x[j] == target implies !outside_quotes(x.take(j)) by {
        if j < a.len() {
            assert(x.take(j) =~= a.take(j));
            assert(a[j] == target);
        } else {
            let k = j - a.len();
            assert(b[k] == target);
            assert(x.take(j) =~= a + b.take(k));
            lemma_quote_count_concat(a, b.take(k));
        }
    }
}

/// Characterisation of `first_unquoted`: none when no `target` lies
/// outside quotes.
proof fn lemma_first_unquoted_none(s: Seq<char>, target: char)
    requires
        forall|j: int| 0 <= j < s.len() && #[trigger] s[j] == target ==> !outside_quotes(s.take(j)),
    ensures
        first_unquoted(s, target) is None,
    decreases s.len(),
{
    if s.len() > 0 {
        let p = s.drop_last();
        assert forall|j: int| 0 <= j < p.len() && #[trigger] p[j] == target implies !outside_quotes(p.take(j)) by {
            assert(s[j] == target);
            assert(s.take(j) =~= p.take(j));
        }
        lemma_first_unquoted_none(p, target);
        if s.last() == target {
            assert(s[s.len() - 1] == target);
            assert(s.take(s.len() - 1) =~= p);
        }
    }
}

/// The first unquoted `target` after a text free of it is the one right
/// after that text.
pub proof fn lemma_first_unquoted_after_free(x: Seq<char>, target: char, y: Seq<char>)
    requires
        free_of(x, target),
    ensures
        first_unquoted(x + seq![target] + y, target) == Some(x.len() as int),
{
    let s = x + seq![target] + y;
    let n: int = x.len() as int + 1;
    lemma_first_unquoted_none(x, target);
    assert(s.take(n).drop_last() =~= x);
    assert(s.take(n).last() == target);
    assert(first_unquoted(s.take(n), target) == Some(x.len() as int));
    lemma_first_unquoted_extends(s, target, n);
}

/// Splitting a text free of `target` gives the text itself.
pub proof fn lemma_split_free(x: Seq<char>, target: char)
    requires
        free_of(x, target),
    ensures
        split_unquoted_spec(x, target) == seq![x],
{
    assert forall|k: int| 0 <= k <= x.len() implies #[trigger] split_unquoted_spec(x.take(k), target) == seq![
        x.take(k),
    ] by {
        lemma_split_free_prefix(x, target, k);
    }
    assert(x.take(x.len() as int) =~= x);
}

proof fn lemma_split_free_prefix(x: Seq<char>, target: char, k: int)
    requires
        free_of(x, target),
        0 <= k <= x.len(),
    ensures
        split_unquoted_spec(x.take(k), target) == seq![x.take(k)],
    decreases k,
{
    if k == 0 {
        assert(x.take(0) =~= Seq::<char>::empty());
    } else {
        lemma_split_free_prefix(x, target, k - 1);
        let t = x.take(k);
        assert(t.drop_last() =~= x.take(k - 1));
        assert(t.last() == x[k - 1]);
        if x[k - 1] == target {
            assert(!outside_quotes(x.take(k - 1)));
        }
        assert(t =~= x.take(k - 1).push(x[k - 1]));
        let p = split_unquoted_spec(x.take(k - 1), target);
        assert(p == seq![x.take(k - 1)]);
        assert(split_unquoted_spec(t, target) == p.update(p.len() - 1, p.last().push(t.last())));
        assert(seq![x.take(k - 1)].update(0, x.take(k - 1).push(x[k - 1])) =~= seq![t]);
    }
}

/// Splitting a concatenation whose first part ends outside quotes: the
/// last piece of the first part joins the first piece of the second.
pub proof fn lemma_split_concat(x: Seq<char>, y: Seq<char>, target: char)
    requires
        outside_quotes(x),
        target != '"',
    ensures
        split_unquoted_spec(x + y, target) == split_unquoted_spec(x, target).drop_last() + seq![
            split_unquoted_spec(x, target).last() + split_unquoted_spec(y, target)[0],
        ] + split_unquoted_spec(y, target).drop_first(),
    decreases y.len(),
{
    let sx = split_unquoted_spec(x, target);
    lemma_split_unquoted_nonempty(x, target);
    if y.len() == 0 {
        assert(x + y =~= x);
        assert(sx.last() + Seq::<char>::empty() =~= sx.last());
        assert(sx.drop_last() + seq![sx.last()] =~= sx);
        assert(seq![Seq::<char>::empty()].drop_first() =~= Seq::<Seq<char>>::empty());
        assert(sx.drop_last() + seq![sx.last()] + Seq::<Seq<char>>::empty() =~= sx);
    } else {
        let y0 = y.drop_last();
        let c = y.last();
        lemma_split_concat(x, y0, target);
        lemma_split_unquoted_nonempty(y0, target);
        let sy0 = split_unquoted_spec(y0, target);
        let sy = split_unquoted_spec(y, target);
        assert((x + y).drop_last() =~= x + y0);
        assert((x + y).last() == c);
        lemma_quote_count_concat(x, y0);
        let s0 = split_unquoted_spec(x + y0, target);
        assert(s0 == sx.drop_last() + seq![sx.last() + sy0[0]] + sy0.drop_first());
        if c == target && outside_quotes(y0) {
            assert(sy == sy0.push(Seq::empty()));
            assert(split_unquoted_spec(x + y, target) == s0.push(Seq::empty()));
            assert(s0.push(Seq::empty()) =~= sx.drop_last() + seq![sx.last() + sy[0]] + sy.drop_first());
        } else {
            assert(sy == sy0.update(sy0.len() - 1, sy0.last().push(c)));
            assert(split_unquoted_spec(x + y, target) == s0.update(s0.len() - 1, s0.last().push(c)));
            if sy0.len() == 1 {
                assert((sx.last() + sy0[0]).push(c) =~= sx.last() + sy0[0].push(c));
                assert(s0.update(s0.len() - 1, s0.last().push(c)) =~= sx.drop_last() + seq![sx.last() + sy[0]]
                    + sy.drop_first());
            } else {
                assert(s0.update(s0.len() - 1, s0.last().push(c)) =~= sx.drop_last() + seq![sx.last() + sy[0]]
                    + sy.drop_first());
            }
        }
    }
}

/// Splitting `x`, a separator, then `y`, where `x` is free of the
/// separator: `x` is the first piece, the pieces of `y` follow.
pub proof fn lemma_split_after_free(x: Seq<char>, target: char, y: Seq<char>)
    requires
        free_of(x, target),
        target != '"',
    ensures
        split_unquoted_spec(x + seq![target] + y, target) == seq![x] + split_unquoted_spec(y, target),
{
    lemma_split_free(x, target);
    let xt = x.push(target);
    assert(xt.drop_last() =~= x);
    assert(split_unquoted_spec(xt, target) == seq![x].push(Seq::empty()));
    lemma_quote_count_concat(x, seq![target]);
    assert(seq![target].drop_last() =~= Seq::<char>::empty());
    assert(quote_count(Seq::<char>::empty()) == 0);
    assert(seq![target].last() == target);
    assert(quote_count(seq![target]) == 0);
    assert(xt =~= x + seq![target]);
    lemma_split_concat(xt, y, target);
    lemma_split_unquoted_nonempty(y, target);
    assert(x + seq![target] + y =~= xt + y);
    let sy = split_unquoted_spec(y, target);
    assert(Seq::<char>::empty() + sy[0] =~= sy[0]);
    assert(seq![x, Seq::<char>::empty()].drop_last() + seq![Seq::<char>::empty() + sy[0]] + sy.drop_first()
        =~= seq![x] + sy);
}

/// A parameter name that survives being written and read: not empty,
/// ASCII, and without `;`, `:`, `=` or `"`.
pub open spec fn plain_param_name(n: Seq<char>) -> bool {
    &&& n.len() > 0
    &&& all_ascii(n)
    &&& !n.contains(';')
    &&& !n.contains(':')
    &&& !n.contains('=')
    &&& !n.contains('"')
}

/// A parameter that survives being written and read: a plain name and at
/// least one value, no value holding a double quote. Every parameter that
/// the parser produces from text without quotes in it is one.
pub open spec fn round_trippable_param(p: ParamModel) -> bool {
    &&& plain_param_name(p.name)
    &&& p.values.len() >= 1
    &&& forall|k: int| 0 <= k < p.values.len() ==> !(#[trigger] p.values[k]).contains('"')
}

/// The parameters as they are read back: names uppercased, values kept.
pub open spec fn upper_params(ps: Seq<ParamModel>) -> Seq<ParamModel> {
    ps.map_values(|p: ParamModel| ParamModel { name: uppercased(p.name), values: p.values })
}

/// The line that the parser reads from a written property, numbered `n`.
pub open spec fn written_line(l: LineModel, n: nat) -> LineModel {
    LineModel {
        name: uppercased(l.name),
        params: upper_params(l.params),
        value: rendered_value(l),
        source_line: n,
    }
}

/// What uppercasing does to one ASCII character: it stays ASCII, keeps its
/// case-folded value, keeps name characters name characters, and leaves the
/// separators alone.
pub proof fn lemma_upper_char(c: char)
    requires
        (c as u32) < 128,
    ensures
        (ascii_upper_char(c) as u32) < 128,
        ascii_fold(ascii_upper_char(c)) == ascii_fold(c),
        is_name_char(c) ==> is_name_char(ascii_upper_char(c)),
        c == ';' || c == ':' || c == '=' || c == '"' || c == '-' ==> ascii_upper_char(c) == c,
        ascii_upper_char(c) == ';' ==> c == ';',
        ascii_upper_char(c) == ':' ==> c == ':',
        ascii_upper_char(c) == '=' ==> c == '=',
        ascii_upper_char(c) == '"' ==> c == '"',
{
}

/// Uppercasing keeps a plain parameter name plain.
pub proof fn lemma_upper_plain_name(n: Seq<char>)
    requires
        plain_param_name(n),
    ensures
        plain_param_name(uppercased(n)),
{
    let u = uppercased(n);
    assert(u == n.map_values(|c: char| ascii_upper_char(c)));
    assert forall|i: int| 0 <= i < u.len() implies (#[trigger] u[i] as u32) < 128 by {
        lemma_upper_char(n[i]);
    }
    assert forall|c: char| (c == ';' || c == ':' || c == '=' || c == '"') implies !u.contains(c) by {
        if u.contains(c) {
            let i = choose|i: int| 0 <= i < u.len() && #[trigger] u[i] == c;
            lemma_upper_char(n[i]);
            assert(n.contains(c));
        }
    }
}

/// Uppercasing keeps a valid property name valid, and equal to it when
/// ASCII case is ignored.
pub proof fn lemma_upper_name(n: Seq<char>)
    requires
        is_valid_name(n),
    ensures
        is_valid_name(uppercased(n)),
        uppercased(n).len() == n.len(),
        eq_ignore_case(uppercased(n), n),
{
    assert(all_ascii(n)) by {
        assert forall|i: int| 0 <= i < n.len() implies (#[trigger] n[i] as u32) < 128 by {
            assert(is_name_char(n[i]));
        }
    }
    let u = uppercased(n);
    assert forall|i: int| 0 <= i < u.len() implies #[trigger] is_name_char(u[i]) by {
        assert(is_name_char(n[i]));
        lemma_upper_char(n[i]);
    }
    assert forall|i: int| 0 <= i < u.len() implies #[trigger] ascii_fold(u[i]) == ascii_fold(n[i]) by {
        assert(is_name_char(n[i]));
        lemma_upper_char(n[i]);
    }
}

/// Whether a property name is TEXT does not change with ASCII case.
pub proof fn lemma_text_property_case(a: Seq<char>, b: Seq<char>)
    requires
        eq_ignore_case(a, b),
    ensures
        is_text_property(a) == is_text_property(b),
{
    if is_text_property(a) {
        let i = choose|i: int|
            0 <= i < text_property_names().len() && eq_ignore_case(a, #[trigger] text_property_names()[i]);
        let t = text_property_names()[i];
        assert forall|j: int| 0 <= j < b.len() implies #[trigger] ascii_fold(b[j]) == ascii_fold(t[j]) by {
            assert(ascii_fold(a[j]) == ascii_fold(b[j]));
            assert(ascii_fold(a[j]) == ascii_fold(t[j]));
        }
        assert(eq_ignore_case(b, text_property_names()[i]));
    }
    if is_text_property(b) {
        let i = choose|i: int|
            0 <= i < text_property_names().len() && eq_ignore_case(b, #[trigger] text_property_names()[i]);
        let t = text_property_names()[i];
        assert forall|j: int| 0 <= j < a.len() implies #[trigger] ascii_fold(a[j]) == ascii_fold(t[j]) by {
            assert(ascii_fold(a[j]) == ascii_fold(b[j]));
            assert(ascii_fold(b[j]) == ascii_fold(t[j]));
        }
        assert(eq_ignore_case(a, text_property_names()[i]));
    }
}

/// A written parameter value is free of `,`, `;` and `:`.
proof fn lemma_value_free(v: Seq<char>, t: char)
    requires
        !v.contains('"'),
        t == ',' || t == ';' || t == ':',
    ensures
        free_of(rendered_param_value(v), t),
{
    if needs_quotes(v) {
        lemma_free_quoted(v, t);
    } else {
        lemma_free_plain(v, t);
    }
}

/// The written values of a parameter are free of `;` and `:`, and split at
/// their commas into the written values one by one.
proof fn lemma_values(vals: Seq<Seq<char>>, t: char)
    requires
        vals.len() >= 1,
        forall|k: int| 0 <= k < vals.len() ==> !(#[trigger] vals[k]).contains('"'),
        t == ';' || t == ':',
    ensures
        free_of(rendered_values(vals), t),
        split_unquoted_spec(rendered_values(vals), ',') == vals.map_values(|v: Seq<char>| rendered_param_value(v)),
    decreases vals.len(),
{
    let last = vals.last();
    assert(!last.contains('"')) by {
        assert(vals[vals.len() - 1] == last);
    }
    lemma_value_free(last, t);
    lemma_value_free(last, ',');
    let r = rendered_param_value(last);
    if vals.len() == 1 {
        lemma_split_free(r, ',');
        assert(vals.map_values(|v: Seq<char>| rendered_param_value(v)) =~= seq![r]);
    } else {
        let init = vals.drop_last();
        assert forall|k: int| 0 <= k < init.len() implies !(#[trigger] init[k]).contains('"') by {
            assert(init[k] == vals[k]);
        }
        lemma_values(init, t);
        lemma_values(init, ';');
        let ri = rendered_values(init);
        lemma_free_plain(seq![','], t);
        lemma_free_concat(ri, seq![','], t);
        lemma_free_concat(ri + seq![','], r, t);
        assert(rendered_values(vals) == ri + seq![','] + r);
        let x = ri.push(',');
        assert(x.drop_last() =~= ri);
        lemma_split_unquoted_nonempty(ri, ',');
        assert(split_unquoted_spec(x, ',') == split_unquoted_spec(ri, ',').push(Seq::empty()));
        lemma_quote_count_concat(ri, seq![',']);
        assert(quote_count(Seq::<char>::empty()) == 0);
        assert(seq![','].last() == ',');
        assert(seq![','].drop_last() =~= Seq::<char>::empty());
        assert(quote_count(seq![',']) == 0);
        assert(x =~= ri + seq![',']);
        lemma_split_concat(x, r, ',');
        lemma_split_free(r, ',');
        assert(ri + seq![','] + r =~= x + r);
        assert(Seq::<char>::empty() + r =~= r);
        assert(split_unquoted_spec(x + r, ',') =~= split_unquoted_spec(ri, ',').push(r));
        assert(vals.map_values(|v: Seq<char>| rendered_param_value(v)) =~= init.map_values(
            |v: Seq<char>| rendered_param_value(v),
        ).push(r));
    }
}

/// One written parameter, `NAME=v1,v2`.
pub open spec fn param_chunk(p: ParamModel, name: Seq<char>) -> Seq<char> {
    name + seq!['='] + rendered_values(p.values)
}

/// A written parameter reads back as that parameter under its new name.
proof fn lemma_param_chunk(p: ParamModel, name: Seq<char>)
    requires
        round_trippable_param(p),
        plain_param_name(name),
    ensures
        param_spec(param_chunk(p, name)) == Ok::<ParamModel, Seq<char>>(ParamModel { name, values: p.values }),
        free_of(param_chunk(p, name), ';'),
        free_of(param_chunk(p, name), ':'),
{
    let rv = rendered_values(p.values);
    let c = param_chunk(p, name);
    lemma_free_plain(name, '=');
    lemma_first_unquoted_after_free(name, '=', rv);
    assert(c.take(name.len() as int) =~= name);
    assert(c.skip(name.len() as int + 1) =~= rv);
    lemma_values(p.values, ';');
    lemma_values(p.values, ':');
    assert forall|k: int| 0 <= k < p.values.len() implies unquote_spec(rendered_param_value(#[trigger] p.values[k]))
        == p.values[k] by {
        unquote_inverts_rendering(p.values[k]);
    }
    let sp = split_unquoted_spec(rv, ',');
    assert(sp.map_values(|v: Seq<char>| unquote_spec(v)) =~= p.values);
    lemma_free_plain(name, ';');
    lemma_free_plain(name, ':');
    lemma_free_plain(seq!['='], ';');
    lemma_free_plain(seq!['='], ':');
    lemma_free_concat(name, seq!['='], ';');
    lemma_free_concat(name + seq!['='], rv, ';');
    lemma_free_concat(name, seq!['='], ':');
    lemma_free_concat(name + seq!['='], rv, ':');
}

/// The parameters read back from written parameters.
proof fn lemma_params(ps: Seq<ParamModel>, names: Seq<Seq<char>>)
    requires
        names.len() == ps.len(),
        forall|i: int| 0 <= i < ps.len() ==> round_trippable_param(#[trigger] ps[i]),
        forall|i: int| 0 <= i < names.len() ==> plain_param_name(#[trigger] names[i]),
    ensures
        free_of(rendered_params_named(ps, names), ':'),
        split_unquoted_spec(rendered_params_named(ps, names), ';') == seq![Seq::<char>::empty()]
            + Seq::new(ps.len(), |i: int| param_chunk(ps[i], names[i])),
        params_of_chunks(Seq::new(ps.len(), |i: int| param_chunk(ps[i], names[i]))) == Ok::<
            Seq<ParamModel>,
            Seq<char>,
        >(Seq::new(ps.len(), |i: int| ParamModel { name: names[i], values: ps[i].values })),
    decreases ps.len(),
{
    let chunks = Seq::new(ps.len(), |i: int| param_chunk(ps[i], names[i]));
    let models = Seq::new(ps.len(), |i: int| ParamModel { name: names[i], values: ps[i].values });
    if ps.len() == 0 {
        assert(rendered_params_named(ps, names) =~= Seq::<char>::empty());
        lemma_quote_count_none(Seq::<char>::empty());
        assert(seq![Seq::<char>::empty()] + chunks =~= seq![Seq::<char>::empty()]);
        assert(chunks =~= Seq::<Seq<char>>::empty());
        assert(models =~= Seq::<ParamModel>::empty());
    } else {
        let pi = ps.drop_last();
        let ni = names.drop_last();
        assert forall|i: int| 0 <= i < pi.len() implies round_trippable_param(#[trigger] pi[i]) by {
            assert(pi[i] == ps[i]);
        }
        assert forall|i: int| 0 <= i < ni.len() implies plain_param_name(#[trigger] ni[i]) by {
            assert(ni[i] == names[i]);
        }
        lemma_params(pi, ni);
        let prev = rendered_params_named(pi, ni);
        let p = ps.last();
        let nm = names.last();
        assert(round_trippable_param(ps[ps.len() - 1]));
        assert(plain_param_name(names[names.len() - 1]));
        lemma_param_chunk(p, nm);
        let c = param_chunk(p, nm);
        assert(rendered_params_named(ps, names) =~= prev + seq![';'] + c);
        lemma_free_plain(seq![';'], ':');
        lemma_free_concat(prev, seq![';'], ':');
        lemma_free_concat(prev + seq![';'], c, ':');
        let x = prev.push(';');
        assert(x.drop_last() =~= prev);
        lemma_split_unquoted_nonempty(prev, ';');
        assert(split_unquoted_spec(x, ';') == split_unquoted_spec(prev, ';').push(Seq::empty()));
        lemma_quote_count_concat(prev, seq![';']);
        assert(quote_count(Seq::<char>::empty()) == 0);
        assert(seq![';'].last() == ';');
        assert(seq![';'].drop_last() =~= Seq::<char>::empty());
        assert(quote_count(seq![';']) == 0);
        assert(x =~= prev + seq![';']);
        lemma_split_concat(x, c, ';');
        lemma_split_free(c, ';');
        assert(prev + seq![';'] + c =~= x + c);
        assert(Seq::<char>::empty() + c =~= c);
        let ci = Seq::new(pi.len(), |i: int| param_chunk(pi[i], ni[i]));
        let mi = Seq::new(pi.len(), |i: int| ParamModel { name: ni[i], values: pi[i].values });
        assert(chunks =~= ci.push(c));
        assert(models =~= mi.push(ParamModel { name: nm, values: p.values }));
        assert(split_unquoted_spec(x + c, ';') =~= seq![Seq::<char>::empty()] + chunks);
        assert(chunks.drop_last() =~= ci);
        assert(chunks.last() == c);
    }
}

proof fn lemma_first_separator_none(n: Seq<char>)
    requires
        is_valid_name(n),
    ensures
        first_separator(n) is None,
    decreases n.len(),
{
    if n.len() > 0 {
        assert forall|i: int| 0 <= i < n.drop_last().len() implies #[trigger] is_name_char(n.drop_last()[i]) by {
            assert(is_name_char(n[i]));
        }
        lemma_first_separator_none(n.drop_last());
        assert(is_name_char(n[n.len() - 1]));
    }
}

/// A property as the parser gives it back after writing, numbered `n`:
/// names uppercased, the value itself.
pub open spec fn read_back_line(l: LineModel, n: nat) -> LineModel {
    LineModel { name: uppercased(l.name), params: upper_params(l.params), value: l.value, source_line: n }
}

/// A written property reads back as the line with its names uppercased and
/// its value as written; decoding that line gives the property's own
/// value back. The property name must be a valid name (the parser accepts
/// no other), and each parameter must be [`round_trippable_param`].
pub proof fn written_property_parses_back(l: LineModel, n: nat)
    requires
        l.name.len() > 0,
        is_valid_name(l.name),
        forall|i: int| 0 <= i < l.params.len() ==> round_trippable_param(#[trigger] l.params[i]),
    ensures
        content_line_spec(rendered_property(l), n) == Ok::<LineModel, Seq<char>>(written_line(l, n)),
        decode_line(written_line(l, n)) == read_back_line(l, n),
{
    let nn = uppercased(l.name);
    let names = upper_param_names(l.params);
    let p = rendered_params_named(l.params, names);
    let v = rendered_value(l);
    let raw = rendered_property(l);
    let k: int = nn.len() as int;
    lemma_upper_name(l.name);
    assert forall|i: int| 0 <= i < names.len() implies plain_param_name(#[trigger] names[i]) by {
        assert(round_trippable_param(l.params[i]));
        lemma_upper_plain_name(l.params[i].name);
    }
    lemma_params(l.params, names);
    assert(raw == nn + p + seq![':'] + v);
    let models = Seq::new(l.params.len(), |i: int| ParamModel { name: names[i], values: l.params[i].values });
    assert(models =~= upper_params(l.params));
    lemma_first_separator_none(nn);
    let sep_char = raw[nn.len() as int];
    assert(raw.take(k + 1) =~= nn.push(sep_char));
    assert(nn.push(sep_char).drop_last() =~= nn);
    if l.params.len() == 0 {
        assert(p =~= Seq::<char>::empty());
        assert(sep_char == ':');
    } else {
        assert(p[0] == ';') by {
            reveal_with_fuel(rendered_params_named, 2);
            lemma_first_param_semicolon(l.params, names);
        }
        assert(sep_char == ';');
    }
    assert(first_separator(nn.push(sep_char)) == Some(nn.len() as int));
    lemma_first_separator_extends(raw, k + 1);
    assert(raw.take(nn.len() as int) =~= nn);
    if l.params.len() == 0 {
        assert(raw.skip(k + 1) =~= v);
        assert(written_line(l, n).params =~= Seq::<ParamModel>::empty());
    } else {
        let q = p.drop_first();
        assert(p =~= seq![';'] + q);
        assert(free_of(q, ':')) by {
            lemma_free_drop_head(';', q, ':');
        }
        assert(raw.skip(k + 1) =~= q + seq![':'] + v);
        lemma_first_unquoted_after_free(q, ':', v);
        let colon: int = k + 1 + q.len();
        assert(find_unquoted_from(raw, ':', k + 1) == Some(colon));
        assert(raw.subrange(k + 1, colon) =~= q);
        assert(raw.skip(colon + 1) =~= v);
        lemma_free_plain(Seq::<char>::empty(), ';');
        lemma_split_after_free(Seq::<char>::empty(), ';', q);
        assert(Seq::<char>::empty() + seq![';'] + q =~= p);
        let chunks = Seq::new(l.params.len(), |i: int| param_chunk(l.params[i], names[i]));
        assert(seq![Seq::<char>::empty()] + split_unquoted_spec(q, ';') == seq![Seq::<char>::empty()] + chunks);
        assert(split_unquoted_spec(q, ';') =~= (seq![Seq::<char>::empty()] + chunks).drop_first());
        assert(split_unquoted_spec(q, ';') == chunks);
        assert(params_of_chunks(chunks) == Ok::<Seq<ParamModel>, Seq<char>>(models));
        assert(params_spec(q) == params_of_chunks(split_unquoted_spec(q, ';')));
        assert(params_spec(q) == Ok::<Seq<ParamModel>, Seq<char>>(models));
    }
    lemma_text_property_case(nn, l.name);
    if is_text_property(l.name) {
        unescape_inverts_escape(l.value);
    }
    assert(upper_params(l.params) =~= written_line(l, n).params);
}

/// Written parameters start with `;`.
proof fn lemma_first_param_semicolon(ps: Seq<ParamModel>, names: Seq<Seq<char>>)
    requires
        ps.len() > 0,
        names.len() == ps.len(),
    ensures
        rendered_params_named(ps, names).len() > 0,
        rendered_params_named(ps, names)[0] == ';',
    decreases ps.len(),
{
    if ps.len() == 1 {
        assert(rendered_params_named(ps.drop_last(), names.drop_last()) =~= Seq::<char>::empty());
    } else {
        lemma_first_param_semicolon(ps.drop_last(), names.drop_last());
    }
}

/// Dropping a leading character that is no quote keeps a text free.
proof fn lemma_free_drop_head(c: char, q: Seq<char>, t: char)
    requires
        c != '"',
        c != t,
        free_of(seq![c] + q, t),
    ensures
        free_of(q, t),
{
    let x = seq![c] + q;
    lemma_quote_count_concat(seq![c], q);
    assert(quote_count(Seq::<char>::empty()) == 0);
    assert(seq![c].drop_last() =~= Seq::<char>::empty());
    assert(seq![c].last() == c);
    assert(quote_count(seq![c]) == 0);
    assert forall|j: int| 0 <= j < q.len() && #[trigger] q[j] == t implies !outside_quotes(q.take(j)) by {
        assert(x[j + 1] == t);
        assert(x.take(j + 1) =~= seq![c] + q.take(j));
        lemma_quote_count_concat(seq![c], q.take(j));
    }
}

} // verus!
