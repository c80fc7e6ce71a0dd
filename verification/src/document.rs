//! Whole documents read back: what `print` writes, `parse` reads as the
//! same calendar with its names uppercased, and printing that again gives
//! the same text.
use vstd::prelude::*;

use crate::chars::{all_ascii, ascii_fold, ascii_upper_char, eq_ignore_case, octets, uppercased};
use crate::content::{is_name_char, is_valid_name};
use crate::lines::{
    bare_lf_diags, is_continuation, lemma_split_lf_append_plain,
    lemma_split_lf_push_lf, lines_of, split_lf, strip_cr, unfold_step, unfolded,
};
use crate::parser::{
    content_run, content_step, decode_diags, children_decode_diags, decode_line, decoded_children,
    decoded_component, has_error, has_property, header_diags, line_decode_diags, parse_spec,
    props_decode_diags, validate_diags,
};
use crate::roundtrip::{read_back_line, round_trippable_param, written_line, written_property_parses_back};
use crate::text::{escape_char, escaped, is_text_property, text_property_names, unescape_inverts_escape};
use crate::tree::{tree_outcome, tree_run, tree_start, tree_step, with_child, with_property, TreeModel};
use crate::writer::{
    begin_line, children_text, component_text, crlf, end_line, fit_count, fold_from, fold_lines,
    fold_width, folded, lemma_fit_count_bound, lemma_fold_split, lemma_unfold_continuations,
    properties_text, rendered_property, rendered_value,
};
use crate::{empty_component, ComponentModel, LineModel, ParamModel};

verus! {

/// The `BEGIN` line of a component, as a content line.
pub open spec fn begin_model(name: Seq<char>) -> LineModel {
    LineModel { name: "BEGIN"@, params: Seq::empty(), value: uppercased(name), source_line: 0 }
}

/// The `END` line of a component, as a content line.
pub open spec fn end_model(name: Seq<char>) -> LineModel {
    LineModel { name: "END"@, params: Seq::empty(), value: uppercased(name), source_line: 0 }
}

/// The content lines of a component in the order they are written.
pub open spec fn component_models(c: ComponentModel) -> Seq<LineModel>
    decreases c,
{
    seq![begin_model(c.name)] + c.properties + children_models(c.children) + seq![end_model(c.name)]
}

/// The content lines of a sequence of components, one after another.
pub open spec fn children_models(cs: Seq<ComponentModel>) -> Seq<LineModel>
    decreases cs,
{
    if cs.len() == 0 {
        Seq::empty()
    } else {
        children_models(cs.drop_last()) + component_models(cs.last())
    }
}

/// Logical lines written one after another, each folded and ended by CRLF.
pub open spec fn doc_text(ls: Seq<Seq<char>>) -> Seq<char>
    decreases ls.len(),
{
    if ls.len() == 0 {
        Seq::empty()
    } else {
        doc_text(ls.drop_last()) + folded(ls.last())
    }
}

/// Content lines as logical lines of text.
pub open spec fn rendered_lines(ms: Seq<LineModel>) -> Seq<Seq<char>> {
    ms.map_values(|l: LineModel| rendered_property(l))
}

/// The physical lines that one logical line is written as.
pub open spec fn physical(s: Seq<char>) -> Seq<Seq<char>> {
    if octets(s) <= fold_width() {
        seq![s]
    } else {
        fold_lines(s, true)
    }
}

/// The physical lines of logical lines written one after another.
pub open spec fn physical_all(ls: Seq<Seq<char>>) -> Seq<Seq<char>>
    decreases ls.len(),
{
    if ls.len() == 0 {
        Seq::empty()
    } else {
        physical_all(ls.drop_last()) + physical(ls.last())
    }
}

proof fn lemma_doc_text_concat(a: Seq<Seq<char>>, b: Seq<Seq<char>>)
    ensures
        doc_text(a + b) == doc_text(a) + doc_text(b),
    decreases b.len(),
{
    if b.len() == 0 {
        assert(a + b =~= a);
        assert(doc_text(a) + Seq::<char>::empty() =~= doc_text(a));
    } else {
        lemma_doc_text_concat(a, b.drop_last());
        assert((a + b).drop_last() =~= a + b.drop_last());
        assert((a + b).last() == b.last());
        assert(doc_text(a) + doc_text(b.drop_last()) + folded(b.last()) =~= doc_text(a) + (doc_text(
            b.drop_last(),
        ) + folded(b.last())));
    }
}

proof fn lemma_rendered_lines_concat(a: Seq<LineModel>, b: Seq<LineModel>)
    ensures
        rendered_lines(a + b) == rendered_lines(a) + rendered_lines(b),
{
    assert(rendered_lines(a + b) =~= rendered_lines(a) + rendered_lines(b));
}

proof fn lemma_properties_text(ls: Seq<LineModel>)
    ensures
        properties_text(ls) == doc_text(rendered_lines(ls)),
    decreases ls.len(),
{
    if ls.len() > 0 {
        lemma_properties_text(ls.drop_last());
        assert(rendered_lines(ls).drop_last() =~= rendered_lines(ls.drop_last()));
    } else {
        assert(rendered_lines(ls) =~= Seq::<Seq<char>>::empty());
    }
}

/// The text of one-line models with no parameters and a value that is not TEXT.
proof fn lemma_plain_names()
    ensures
        uppercased("BEGIN"@) == "BEGIN"@,
        uppercased("END"@) == "END"@,
        !is_text_property("BEGIN"@),
        !is_text_property("END"@),
        is_valid_name("BEGIN"@),
        is_valid_name("END"@),
        "BEGIN"@.len() == 5,
        "END"@.len() == 3,
{
    reveal_strlit("BEGIN");
    reveal_strlit("END");
    assert(uppercased("BEGIN"@) =~= "BEGIN"@);
    assert(uppercased("END"@) =~= "END"@);
    reveal_strlit("ACTION");
    reveal_strlit("CATEGORIES");
    reveal_strlit("CLASS");
    reveal_strlit("COMMENT");
    reveal_strlit("CONTACT");
    reveal_strlit("DESCRIPTION");
    reveal_strlit("LOCATION");
    reveal_strlit("PRODID");
    reveal_strlit("RELATED-TO");
    reveal_strlit("REQUEST-STATUS");
    reveal_strlit("RESOURCES");
    reveal_strlit("STATUS");
    reveal_strlit("SUMMARY");
    reveal_strlit("TRANSP");
    reveal_strlit("TZID");
    reveal_strlit("TZNAME");
    reveal_strlit("UID");
    let names = text_property_names();
    assert forall|i: int| 0 <= i < names.len() implies !eq_ignore_case("BEGIN"@, #[trigger] names[i]) by {
        if i == 2 {
            assert(ascii_fold("BEGIN"@[0]) != ascii_fold(names[i][0]));
        }
    }
    assert forall|i: int| 0 <= i < names.len() implies !eq_ignore_case("END"@, #[trigger] names[i]) by {
        if i == 16 {
            assert(ascii_fold("END"@[0]) != ascii_fold(names[i][0]));
        }
    }
}

/// A component's text is its content lines written one after another.
proof fn lemma_component_text(c: ComponentModel)
    ensures
        component_text(c) == doc_text(rendered_lines(component_models(c))),
    decreases c,
{
    lemma_children_text(c.children);
    lemma_plain_names();
    let b = begin_model(c.name);
    let e = end_model(c.name);
    assert(rendered_property(b) =~= begin_line(c.name)) by {
        reveal_strlit("BEGIN:");
        reveal_strlit("BEGIN");
        assert(crate::writer::rendered_params_named(b.params, crate::writer::upper_param_names(b.params))
            =~= Seq::<char>::empty());
        assert(rendered_value(b) == uppercased(c.name));
        assert("BEGIN:"@ =~= "BEGIN"@ + seq![':']);
        assert(rendered_property(b) == uppercased("BEGIN"@) + Seq::<char>::empty() + seq![':'] + uppercased(
            c.name,
        ));
    }
    assert(rendered_property(e) =~= end_line(c.name)) by {
        reveal_strlit("END:");
        reveal_strlit("END");
        assert(crate::writer::rendered_params_named(e.params, crate::writer::upper_param_names(e.params))
            =~= Seq::<char>::empty());
        assert(rendered_value(e) == uppercased(c.name));
        assert("END:"@ =~= "END"@ + seq![':']);
        assert(rendered_property(e) == uppercased("END"@) + Seq::<char>::empty() + seq![':'] + uppercased(
            c.name,
        ));
    }
    lemma_properties_text(c.properties);
    let ms = component_models(c);
    lemma_rendered_lines_concat(seq![b] + c.properties + children_models(c.children), seq![e]);
    lemma_rendered_lines_concat(seq![b] + c.properties, children_models(c.children));
    lemma_rendered_lines_concat(seq![b], c.properties);
    let rb = rendered_lines(seq![b]);
    let rp = rendered_lines(c.properties);
    let rc = rendered_lines(children_models(c.children));
    let re = rendered_lines(seq![e]);
    lemma_doc_text_concat(rb + rp + rc, re);
    lemma_doc_text_concat(rb + rp, rc);
    lemma_doc_text_concat(rb, rp);
    assert(rb =~= seq![begin_line(c.name)]);
    assert(re =~= seq![end_line(c.name)]);
    assert(rb.drop_last() =~= Seq::<Seq<char>>::empty());
    assert(re.drop_last() =~= Seq::<Seq<char>>::empty());
    assert(doc_text(rb.drop_last()) =~= Seq::<char>::empty());
    assert(doc_text(re.drop_last()) =~= Seq::<char>::empty());
    assert(doc_text(rb) =~= folded(begin_line(c.name)));
    assert(doc_text(re) =~= folded(end_line(c.name)));
}

/// The text of a sequence of components is their content lines written one
/// after another.
proof fn lemma_children_text(cs: Seq<ComponentModel>)
    ensures
        children_text(cs) == doc_text(rendered_lines(children_models(cs))),
    decreases cs,
{
    if cs.len() == 0 {
        assert(rendered_lines(children_models(cs)) =~= Seq::<Seq<char>>::empty());
    } else {
        lemma_children_text(cs.drop_last());
        lemma_component_text(cs.last());
        lemma_rendered_lines_concat(children_models(cs.drop_last()), component_models(cs.last()));
        lemma_doc_text_concat(
            rendered_lines(children_models(cs.drop_last())),
            rendered_lines(component_models(cs.last())),
        );
    }
}

proof fn lemma_no_lf_take_skip(s: Seq<char>, k: int)
    requires
        0 <= k <= s.len(),
        !s.contains('\n'),
    ensures
        !s.take(k).contains('\n'),
        !s.skip(k).contains('\n'),
        !(seq![' '] + s.take(k)).contains('\n'),
{
    if s.take(k).contains('\n') {
        let i = choose|i: int| 0 <= i < k && s.take(k)[i] == '\n';
        assert(s[i] == '\n');
    }
    if s.skip(k).contains('\n') {
        let i = choose|i: int| 0 <= i < s.len() - k && s.skip(k)[i] == '\n';
        assert(s[k + i] == '\n');
    }
    let t = seq![' '] + s.take(k);
    if t.contains('\n') {
        let i = choose|i: int| 0 <= i < t.len() && t[i] == '\n';
        if i > 0 {
            assert(s.take(k)[i - 1] == '\n');
        }
    }
}

/// Splitting at `\n` what is written for one more logical line, after a
/// line start, gives its physical lines, each still ending in `\r`.
proof fn lemma_split_folded(x: Seq<char>, s: Seq<char>)
    requires
        split_lf(x).len() >= 1,
        split_lf(x).last().len() == 0,
        !s.contains('\n'),
    ensures
        split_lf(x + folded(s)) == split_lf(x).drop_last() + physical(s).map_values(|l: Seq<char>| l.push('\r'))
            + seq![Seq::<char>::empty()],
{
    if octets(s) <= fold_width() {
        let body = s.push('\r');
        assert(!body.contains('\n')) by {
            if body.contains('\n') {
                let i = choose|i: int| 0 <= i < body.len() && body[i] == '\n';
                assert(s[i] == '\n');
            }
        }
        let p = split_lf(x);
        lemma_split_lf_append_plain(x, body);
        lemma_split_lf_push_lf(x + body);
        assert(x + folded(s) =~= (x + body).push('\n'));
        assert(p.last() + body =~= body);
        assert(physical(s).map_values(|l: Seq<char>| l.push('\r')) =~= seq![body]);
        assert(p.update(p.len() - 1, body).push(Seq::<char>::empty()) =~= p.drop_last() + seq![body] + seq![
            Seq::<char>::empty(),
        ]);
    } else {
        lemma_fold_split(x, s, true);
    }
}

/// Splitting a written document at `\n` gives its physical lines, each
/// still ending in `\r`, and an empty piece after the last CRLF.
proof fn lemma_split_doc(ls: Seq<Seq<char>>)
    requires
        forall|i: int| 0 <= i < ls.len() ==> !(#[trigger] ls[i]).contains('\n'),
    ensures
        split_lf(doc_text(ls)) == physical_all(ls).map_values(|l: Seq<char>| l.push('\r')) + seq![
            Seq::<char>::empty(),
        ],
    decreases ls.len(),
{
    if ls.len() == 0 {
        assert(split_lf(Seq::<char>::empty()) == seq![Seq::<char>::empty()]);
        assert(physical_all(ls).map_values(|l: Seq<char>| l.push('\r')) =~= Seq::<Seq<char>>::empty());
        assert(Seq::<Seq<char>>::empty() + seq![Seq::<char>::empty()] =~= seq![Seq::<char>::empty()]);
    } else {
        let init = ls.drop_last();
        assert forall|i: int| 0 <= i < init.len() implies !(#[trigger] init[i]).contains('\n') by {
            assert(init[i] == ls[i]);
        }
        lemma_split_doc(init);
        let x = doc_text(init);
        let pm = physical_all(init).map_values(|l: Seq<char>| l.push('\r'));
        assert(split_lf(x).last() =~= Seq::<char>::empty());
        assert(!ls.last().contains('\n')) by {
            assert(ls[ls.len() - 1] == ls.last());
        }
        lemma_split_folded(x, ls.last());
        assert(split_lf(x).drop_last() =~= pm);
        assert(physical_all(ls).map_values(|l: Seq<char>| l.push('\r')) =~= pm + physical(ls.last()).map_values(
            |l: Seq<char>| l.push('\r'),
        ));
    }
}

/// The lines that the parser reads from a written document are the physical
/// lines of its logical lines.
proof fn lemma_lines_of_doc(ls: Seq<Seq<char>>)
    requires
        forall|i: int| 0 <= i < ls.len() ==> !(#[trigger] ls[i]).contains('\n'),
    ensures
        lines_of(doc_text(ls)) == physical_all(ls),
{
    lemma_split_doc(ls);
    let pa = physical_all(ls);
    let pieces = split_lf(doc_text(ls));
    assert(pieces.drop_last() =~= pa.map_values(|l: Seq<char>| l.push('\r')));
    assert(pieces.last().len() == 0);
    assert forall|i: int| 0 <= i < pa.len() implies #[trigger] strip_cr(pa[i].push('\r')) == pa[i] by {
        assert(pa[i].push('\r').drop_last() =~= pa[i]);
    }
    assert(lines_of(doc_text(ls)) =~= pa);
}

proof fn lemma_bare_plain(x: Seq<char>, t: Seq<char>)
    requires
        !t.contains('\n'),
    ensures
        bare_lf_diags(x + t) == bare_lf_diags(x),
    decreases t.len(),
{
    if t.len() == 0 {
        assert(x + t =~= x);
    } else {
        assert(!t.drop_last().contains('\n')) by {
            if t.drop_last().contains('\n') {
                let i = choose|i: int| 0 <= i < t.len() - 1 && t.drop_last()[i] == '\n';
                assert(t[i] == '\n');
            }
        }
        assert(t.last() != '\n') by {
            assert(t[t.len() - 1] == t.last());
        }
        lemma_bare_plain(x, t.drop_last());
        assert((x + t).drop_last() =~= x + t.drop_last());
        assert((x + t).last() == t.last());
        assert(bare_lf_diags(x + t) =~= bare_lf_diags(x + t.drop_last()));
    }
}

proof fn lemma_bare_crlf_line(x: Seq<char>, t: Seq<char>)
    requires
        !t.contains('\n'),
    ensures
        bare_lf_diags(x + t + crlf()) == bare_lf_diags(x),
{
    let y = x + t;
    lemma_bare_plain(x, t);
    let y1 = y.push('\r');
    let y2 = y1.push('\n');
    assert(y + crlf() =~= y2);
    assert(y2.drop_last() =~= y1);
    assert(y1.drop_last() =~= y);
    assert(bare_lf_diags(y1) =~= bare_lf_diags(y));
    assert(bare_lf_diags(y2) =~= bare_lf_diags(y1));
}

proof fn lemma_bare_fold(x: Seq<char>, s: Seq<char>, first: bool)
    requires
        !s.contains('\n'),
    ensures
        bare_lf_diags(x + fold_from(s, first)) == bare_lf_diags(x),
    decreases s.len(),
{
    let k = fit_count(s, if first { 75 } else { 74 });
    if s.len() == 0 || k == 0 || k > s.len() {
        assert(x + fold_from(s, first) =~= x);
    } else {
        lemma_no_lf_take_skip(s, k as int);
        let t = (if first { Seq::empty() } else { seq![' '] }) + s.take(k as int);
        assert(!t.contains('\n')) by {
            if first {
                assert(t =~= s.take(k as int));
            }
        }
        let x2 = x + t + crlf();
        lemma_bare_fold(x2, s.skip(k as int), false);
        lemma_bare_crlf_line(x, t);
        assert(x + fold_from(s, first) =~= x2 + fold_from(s.skip(k as int), false));
    }
}

/// A written document has no bare LF.
proof fn lemma_bare_doc(ls: Seq<Seq<char>>)
    requires
        forall|i: int| 0 <= i < ls.len() ==> !(#[trigger] ls[i]).contains('\n'),
    ensures
        bare_lf_diags(doc_text(ls)) == Seq::<crate::DiagnosticModel>::empty(),
    decreases ls.len(),
{
    if ls.len() > 0 {
        let init = ls.drop_last();
        assert forall|i: int| 0 <= i < init.len() implies !(#[trigger] init[i]).contains('\n') by {
            assert(init[i] == ls[i]);
        }
        lemma_bare_doc(init);
        let x = doc_text(init);
        let s = ls.last();
        assert(!s.contains('\n')) by {
            assert(ls[ls.len() - 1] == s);
        }
        if octets(s) <= fold_width() {
            lemma_bare_crlf_line(x, s);
            assert(x + folded(s) =~= x + s + crlf());
        } else {
            lemma_bare_fold(x, s, true);
        }
    }
}

/// Unfolding the physical lines of a written document gives its logical
/// lines back, in order, with no diagnostic.
#[verifier::spinoff_prover]
#[verifier::rlimit(40)]
proof fn lemma_unfold_doc(ls: Seq<Seq<char>>, lenient: bool)
    requires
        forall|i: int|
            0 <= i < ls.len() ==> (#[trigger] ls[i]).len() > 0 && !ls[i].contains('\n') && !is_continuation(ls[i]),
    ensures
        unfolded(physical_all(ls), lenient).diags.len() == 0,
        unfolded(physical_all(ls), lenient).logical.len() == ls.len(),
        forall|i: int| 0 <= i < ls.len() ==> (#[trigger] unfolded(physical_all(ls), lenient).logical[i]).1 == ls[i],
    decreases ls.len(),
{
    if ls.len() == 0 {
        assert(physical_all(ls) =~= Seq::<Seq<char>>::empty());
    } else {
        let init = ls.drop_last();
        assert forall|i: int|
            0 <= i < init.len() implies (#[trigger] init[i]).len() > 0 && !init[i].contains('\n') && !is_continuation(
                init[i],
            ) by {
            assert(init[i] == ls[i]);
        }
        lemma_unfold_doc(init, lenient);
        let p = physical_all(init);
        let u = unfolded(p, lenient);
        let s = ls.last();
        assert(s.len() > 0 && !s.contains('\n') && !is_continuation(s)) by {
            assert(ls[ls.len() - 1] == s);
        }
        if octets(s) <= fold_width() {
            let p1 = p.push(s);
            assert(physical_all(ls) =~= p1);
            assert(p1.drop_last() =~= p);
            assert(unfolded(p1, lenient) == unfold_step(u, p1.len() as nat, s, lenient));
            assert(unfolded(p1, lenient).logical == u.logical.push((p1.len() as nat, s)));
        } else {
            lemma_fit_count_bound(s, 75);
            let k = fit_count(s, 75);
            let first = s.take(k as int);
            let p1 = p.push(first);
            assert(p1.drop_last() =~= p);
            assert(first[0] == s[0]);
            assert(unfolded(p1, lenient) == unfold_step(u, p1.len() as nat, first, lenient));
            let u1 = unfolded(p1, lenient);
            assert(u1.logical == u.logical.push((p1.len() as nat, first)));
            lemma_unfold_continuations(p1, s.skip(k as int), lenient);
            assert(fold_lines(s, true) =~= seq![first] + fold_lines(s.skip(k as int), false));
            assert(physical_all(ls) =~= p1 + fold_lines(s.skip(k as int), false));
            assert(first + s.skip(k as int) =~= s);
            assert(u1.logical.update(u1.logical.len() - 1, (u1.logical.last().0, u1.logical.last().1 + s.skip(
                k as int,
            ))) =~= u.logical.push((p1.len() as nat, s)));
        }
    }
}

/// A parameter that fits on one line: no line break in its name or values.
pub open spec fn param_on_one_line(p: ParamModel) -> bool {
    &&& !p.name.contains('\n')
    &&& forall|k: int| 0 <= k < p.values.len() ==> !(#[trigger] p.values[k]).contains('\n')
}

/// A property that is written and read back as itself: a valid, non-empty
/// name that is not BEGIN or END, parameters that survive writing, and a
/// value without line break unless it is TEXT (whose line breaks are
/// escaped). Every property that `parse` produces from input without
/// double quotes and with ASCII parameter names is one.
pub open spec fn writable_line(l: LineModel) -> bool {
    &&& l.name.len() > 0
    &&& is_valid_name(l.name)
    &&& !eq_ignore_case(l.name, "BEGIN"@)
    &&& !eq_ignore_case(l.name, "END"@)
    &&& forall|i: int|
        0 <= i < l.params.len() ==> round_trippable_param(#[trigger] l.params[i]) && param_on_one_line(l.params[i])
    &&& is_text_property(l.name) || !l.value.contains('\n')
}

/// A component name that is written and read back: ASCII, no line break.
pub open spec fn writable_name(n: Seq<char>) -> bool {
    &&& all_ascii(n)
    &&& !n.contains('\n')
}

/// A component tree that is written and read back as itself, names
/// uppercased: every component name and every property is writable.
pub open spec fn writable(c: ComponentModel) -> bool
    decreases c,
{
    &&& writable_name(c.name)
    &&& forall|i: int| 0 <= i < c.properties.len() ==> writable_line(#[trigger] c.properties[i])
    &&& writable_children(c.children)
}

/// Every tree of the sequence is [`writable`].
pub open spec fn writable_children(cs: Seq<ComponentModel>) -> bool
    decreases cs,
{
    cs.len() == 0 || (writable_children(cs.drop_last()) && writable(cs.last()))
}

/// A content line whose written form reads back: what the reading lemmas need.
pub open spec fn readable(l: LineModel) -> bool {
    &&& l.name.len() > 0
    &&& is_valid_name(l.name)
    &&& forall|i: int|
        0 <= i < l.params.len() ==> round_trippable_param(#[trigger] l.params[i]) && param_on_one_line(l.params[i])
    &&& !rendered_value(l).contains('\n')
}

/// Every content line of the sequence is [`readable`].
pub open spec fn all_readable(ms: Seq<LineModel>) -> bool {
    forall|i: int| 0 <= i < ms.len() ==> readable(#[trigger] ms[i])
}

/// A character in neither part is not in their concatenation.
pub proof fn lemma_no_char_concat(a: Seq<char>, b: Seq<char>, c: char)
    requires
        !a.contains(c),
        !b.contains(c),
    ensures
        !(a + b).contains(c),
{
    if (a + b).contains(c) {
        let i = choose|i: int| 0 <= i < (a + b).len() && (a + b)[i] == c;
        if i < a.len() {
            assert(a[i] == c);
        } else {
            assert(b[i - a.len()] == c);
        }
    }
}

proof fn lemma_escaped_no_lf(v: Seq<char>)
    ensures
        !escaped(v).contains('\n'),
    decreases v.len(),
{
    if v.len() > 0 {
        lemma_escaped_no_lf(v.drop_first());
        let e = escape_char(v[0]);
        assert(!e.contains('\n')) by {
            if e.contains('\n') {
                let i = choose|i: int| 0 <= i < e.len() && e[i] == '\n';
            }
        }
        lemma_no_char_concat(e, escaped(v.drop_first()), '\n');
    }
}

proof fn lemma_upper_no_lf(n: Seq<char>)
    requires
        writable_name(n),
    ensures
        !uppercased(n).contains('\n'),
        all_ascii(uppercased(n)),
        uppercased(n).len() == n.len(),
{
    let u = uppercased(n);
    assert(u == n.map_values(|c: char| ascii_upper_char(c)));
    if u.contains('\n') {
        let i = choose|i: int| 0 <= i < u.len() && u[i] == '\n';
        crate::roundtrip::lemma_upper_char(n[i]);
        assert(n[i] == '\n');
    }
    assert forall|i: int| 0 <= i < u.len() implies (#[trigger] u[i] as u32) < 128 by {
        crate::roundtrip::lemma_upper_char(n[i]);
    }
}

proof fn lemma_values_no_lf(vals: Seq<Seq<char>>)
    requires
        forall|k: int| 0 <= k < vals.len() ==> !(#[trigger] vals[k]).contains('\n'),
    ensures
        !crate::writer::rendered_values(vals).contains('\n'),
    decreases vals.len(),
{
    if vals.len() > 0 {
        let last = vals.last();
        assert(!last.contains('\n')) by {
            assert(vals[vals.len() - 1] == last);
        }
        let r = crate::writer::rendered_param_value(last);
        assert(!r.contains('\n')) by {
            if crate::writer::needs_quotes(last) {
                lemma_no_char_concat(seq!['"'], last, '\n');
                lemma_no_char_concat(seq!['"'] + last, seq!['"'], '\n');
            }
        }
        if vals.len() > 1 {
            let init = vals.drop_last();
            assert forall|k: int| 0 <= k < init.len() implies !(#[trigger] init[k]).contains('\n') by {
                assert(init[k] == vals[k]);
            }
            lemma_values_no_lf(init);
            lemma_no_char_concat(crate::writer::rendered_values(init), seq![','], '\n');
            lemma_no_char_concat(crate::writer::rendered_values(init) + seq![','], r, '\n');
        }
    }
}

proof fn lemma_params_no_lf(ps: Seq<ParamModel>, names: Seq<Seq<char>>)
    requires
        names.len() == ps.len(),
        forall|i: int| 0 <= i < ps.len() ==> param_on_one_line(#[trigger] ps[i]),
        forall|i: int| 0 <= i < names.len() ==> !(#[trigger] names[i]).contains('\n'),
    ensures
        !crate::writer::rendered_params_named(ps, names).contains('\n'),
    decreases ps.len(),
{
    if ps.len() > 0 {
        let pi = ps.drop_last();
        let ni = names.drop_last();
        assert forall|i: int| 0 <= i < pi.len() implies param_on_one_line(#[trigger] pi[i]) by {
            assert(pi[i] == ps[i]);
        }
        assert forall|i: int| 0 <= i < ni.len() implies !(#[trigger] ni[i]).contains('\n') by {
            assert(ni[i] == names[i]);
        }
        lemma_params_no_lf(pi, ni);
        let p = ps.last();
        assert(param_on_one_line(ps[ps.len() - 1]));
        assert(!names[names.len() - 1].contains('\n'));
        lemma_values_no_lf(p.values);
        let prev = crate::writer::rendered_params_named(pi, ni);
        lemma_no_char_concat(prev, seq![';'], '\n');
        lemma_no_char_concat(prev + seq![';'], names.last(), '\n');
        lemma_no_char_concat(prev + seq![';'] + names.last(), seq!['='], '\n');
        lemma_no_char_concat(prev + seq![';'] + names.last() + seq!['='], crate::writer::rendered_values(p.values), '\n');
    }
}

/// A readable content line is written as one non-empty line without line
/// break that does not start like a continuation line.
proof fn lemma_readable_text(l: LineModel)
    requires
        readable(l),
    ensures
        rendered_property(l).len() > 0,
        !rendered_property(l).contains('\n'),
        !is_continuation(rendered_property(l)),
{
    crate::roundtrip::lemma_upper_name(l.name);
    let up = uppercased(l.name);
    let names = crate::writer::upper_param_names(l.params);
    assert forall|i: int| 0 <= i < names.len() implies !(#[trigger] names[i]).contains('\n') by {
        assert(round_trippable_param(l.params[i]));
        crate::roundtrip::lemma_upper_plain_name(l.params[i].name);
        assert(param_on_one_line(l.params[i]));
        assert(all_ascii(l.params[i].name));
        assert(writable_name(l.params[i].name));
        lemma_upper_no_lf(l.params[i].name);
    }
    assert forall|i: int| 0 <= i < l.params.len() implies param_on_one_line(#[trigger] l.params[i]) by {
        assert(round_trippable_param(l.params[i]) && param_on_one_line(l.params[i]));
    }
    lemma_params_no_lf(l.params, names);
    let pr = crate::writer::rendered_params_named(l.params, names);
    assert(!up.contains('\n')) by {
        if up.contains('\n') {
            let i = choose|i: int| 0 <= i < up.len() && up[i] == '\n';
            assert(is_name_char(up[i]));
        }
    }
    lemma_no_char_concat(up, pr, '\n');
    lemma_no_char_concat(up + pr, seq![':'], '\n');
    lemma_no_char_concat(up + pr + seq![':'], rendered_value(l), '\n');
    assert(rendered_property(l) == up + pr + seq![':'] + rendered_value(l));
    assert(rendered_property(l)[0] == up[0]);
    assert(is_name_char(up[0]));
}

/// A writable property is readable.
proof fn lemma_writable_readable(l: LineModel)
    requires
        writable_line(l),
    ensures
        readable(l),
{
    if is_text_property(l.name) {
        lemma_escaped_no_lf(l.value);
    }
}

/// The BEGIN and END lines of a component with a writable name are readable.
proof fn lemma_begin_end_readable(n: Seq<char>)
    requires
        writable_name(n),
    ensures
        readable(begin_model(n)),
        readable(end_model(n)),
{
    lemma_plain_names();
    lemma_upper_no_lf(n);
}

proof fn lemma_all_readable_concat(a: Seq<LineModel>, b: Seq<LineModel>)
    requires
        all_readable(a),
        all_readable(b),
    ensures
        all_readable(a + b),
{
    assert forall|i: int| 0 <= i < (a + b).len() implies readable(#[trigger] (a + b)[i]) by {
        if i < a.len() {
            assert((a + b)[i] == a[i]);
        } else {
            assert((a + b)[i] == b[i - a.len()]);
        }
    }
}

/// Every content line of a writable component is readable.
proof fn lemma_component_readable(c: ComponentModel)
    requires
        writable(c),
    ensures
        all_readable(component_models(c)),
    decreases c,
{
    lemma_children_readable(c.children);
    lemma_begin_end_readable(c.name);
    assert forall|i: int| 0 <= i < c.properties.len() implies readable(#[trigger] c.properties[i]) by {
        lemma_writable_readable(c.properties[i]);
    }
    assert(all_readable(seq![begin_model(c.name)]));
    assert(all_readable(seq![end_model(c.name)]));
    lemma_all_readable_concat(seq![begin_model(c.name)], c.properties);
    lemma_all_readable_concat(seq![begin_model(c.name)] + c.properties, children_models(c.children));
    lemma_all_readable_concat(
        seq![begin_model(c.name)] + c.properties + children_models(c.children),
        seq![end_model(c.name)],
    );
}

/// Every content line of a sequence of writable components is readable.
proof fn lemma_children_readable(cs: Seq<ComponentModel>)
    requires
        writable_children(cs),
    ensures
        all_readable(children_models(cs)),
    decreases cs,
{
    if cs.len() > 0 {
        lemma_children_readable(cs.drop_last());
        lemma_component_readable(cs.last());
        lemma_all_readable_concat(children_models(cs.drop_last()), component_models(cs.last()));
    }
}

/// Parsing the logical lines of a written document gives back, for each,
/// the content line as written, numbered as unfolding numbered it.
proof fn lemma_content_doc(ms: Seq<LineModel>, logical: Seq<(nat, Seq<char>)>, lenient: bool)
    requires
        all_readable(ms),
        logical.len() == ms.len(),
        forall|i: int| 0 <= i < ms.len() ==> (#[trigger] logical[i]).1 == rendered_property(ms[i]),
    ensures
        content_run(logical, lenient).diags.len() == 0,
        content_run(logical, lenient).lines.len() == ms.len(),
        forall|i: int|
            0 <= i < ms.len() ==> #[trigger] content_run(logical, lenient).lines[i] == written_line(ms[i], logical[i].0),
    decreases ms.len(),
{
    if ms.len() > 0 {
        let mi = ms.drop_last();
        let li = logical.drop_last();
        assert forall|i: int| 0 <= i < mi.len() implies (#[trigger] li[i]).1 == rendered_property(mi[i]) by {
            assert(li[i] == logical[i]);
            assert(mi[i] == ms[i]);
        }
        assert forall|i: int| 0 <= i < mi.len() implies readable(#[trigger] mi[i]) by {
            assert(mi[i] == ms[i]);
        }
        lemma_content_doc(mi, li, lenient);
        let l = ms.last();
        let e = logical.last();
        assert(readable(ms[ms.len() - 1]));
        assert(e.1 == rendered_property(ms[ms.len() - 1]));
        lemma_readable_text(l);
        written_property_parses_back(l, e.0);
        let prev = content_run(li, lenient);
        assert(content_run(logical, lenient) == content_step(prev, e, lenient));
        assert(content_run(logical, lenient).lines == prev.lines.push(written_line(l, e.0)));
        assert forall|i: int| 0 <= i < ms.len() implies #[trigger] content_run(logical, lenient).lines[i]
            == written_line(ms[i], logical[i].0) by {
            if i < mi.len() {
                assert(li[i] == logical[i]);
                assert(mi[i] == ms[i]);
            }
        }
    }
}

/// A content line with its line number set aside (made 0).
pub open spec fn erase_line(l: LineModel) -> LineModel {
    LineModel { name: l.name, params: l.params, value: l.value, source_line: 0 }
}

/// A component tree with the line numbers of its properties set aside.
pub open spec fn erase_comp(c: ComponentModel) -> ComponentModel
    decreases c,
{
    ComponentModel {
        name: c.name,
        properties: c.properties.map_values(|l: LineModel| erase_line(l)),
        children: erase_children(c.children),
    }
}

/// Each tree of a sequence with its line numbers set aside.
pub open spec fn erase_children(cs: Seq<ComponentModel>) -> Seq<ComponentModel>
    decreases cs,
{
    if cs.len() == 0 {
        Seq::empty()
    } else {
        erase_children(cs.drop_last()).push(erase_comp(cs.last()))
    }
}

spec fn emap(s: Seq<ComponentModel>) -> Seq<ComponentModel> {
    s.map_values(|c: ComponentModel| erase_comp(c))
}

/// What of a tree-building state does not depend on line numbers: the
/// open components and the finished one, and whether it failed.
spec fn erase_state(st: TreeModel) -> TreeModel {
    TreeModel {
        stack: emap(st.stack),
        root: match st.root {
            Some(r) => Some(erase_comp(r)),
            None => None,
        },
        diags: Seq::empty(),
        error: if st.error is Some {
            Some(Seq::empty())
        } else {
            None
        },
    }
}

/// The state after the given lines, from the given state.
spec fn run_from(st: TreeModel, ls: Seq<LineModel>, lenient: bool) -> TreeModel
    decreases ls.len(),
{
    if ls.len() == 0 {
        st
    } else {
        tree_step(run_from(st, ls.drop_last(), lenient), ls.last(), lenient)
    }
}

proof fn lemma_tree_run_from(ls: Seq<LineModel>, lenient: bool)
    ensures
        tree_run(ls, lenient) == run_from(tree_start(), ls, lenient),
    decreases ls.len(),
{
    if ls.len() > 0 {
        lemma_tree_run_from(ls.drop_last(), lenient);
    }
}

proof fn lemma_run_concat(st: TreeModel, x: Seq<LineModel>, y: Seq<LineModel>, lenient: bool)
    ensures
        run_from(st, x + y, lenient) == run_from(run_from(st, x, lenient), y, lenient),
    decreases y.len(),
{
    if y.len() == 0 {
        assert(x + y =~= x);
    } else {
        lemma_run_concat(st, x, y.drop_last(), lenient);
        assert((x + y).drop_last() =~= x + y.drop_last());
        assert((x + y).last() == y.last());
    }
}

proof fn lemma_run_one(st: TreeModel, l: LineModel, lenient: bool)
    ensures
        run_from(st, seq![l], lenient) == tree_step(st, l, lenient),
{
    let one = seq![l];
    assert(one.drop_last() =~= Seq::<LineModel>::empty());
    assert(run_from(st, one.drop_last(), lenient) == st);
    assert(one.last() == l);
}

proof fn lemma_erase_with_child(a: ComponentModel, b: ComponentModel)
    ensures
        erase_comp(with_child(a, b)) == with_child(erase_comp(a), erase_comp(b)),
{
    let cs = a.children.push(b);
    assert(cs.drop_last() =~= a.children);
    assert(cs.last() == b);
    assert(erase_children(cs) == erase_children(a.children).push(erase_comp(b)));
}

proof fn lemma_erase_with_property(a: ComponentModel, l: LineModel)
    ensures
        erase_comp(with_property(a, l)) == with_property(erase_comp(a), erase_line(l)),
{
    assert(a.properties.push(l).map_values(|x: LineModel| erase_line(x)) =~= a.properties.map_values(
        |x: LineModel| erase_line(x),
    ).push(erase_line(l)));
}

proof fn lemma_erase_empty(v: Seq<char>)
    ensures
        erase_comp(empty_component(v)) == empty_component(v),
{
    assert(Seq::<LineModel>::empty().map_values(|x: LineModel| erase_line(x)) =~= Seq::<LineModel>::empty());
}

proof fn lemma_emap_facts(s: Seq<ComponentModel>, x: ComponentModel)
    ensures
        emap(s).len() == s.len(),
        emap(s.push(x)) == emap(s).push(erase_comp(x)),
        s.len() > 0 ==> emap(s.drop_last()) == emap(s).drop_last(),
        s.len() > 0 ==> emap(s.update(s.len() - 1, x)) == emap(s).update(s.len() - 1, erase_comp(x)),
        s.len() > 0 ==> emap(s).last() == erase_comp(s.last()),
{
    assert(emap(s.push(x)) =~= emap(s).push(erase_comp(x)));
    if s.len() > 0 {
        assert(emap(s.drop_last()) =~= emap(s).drop_last());
        assert(emap(s.update(s.len() - 1, x)) =~= emap(s).update(s.len() - 1, erase_comp(x)));
    }
}

/// One step of tree building does the same, up to line numbers, on states
/// and lines that are the same up to line numbers.
#[verifier::spinoff_prover]
#[verifier::rlimit(60)]
proof fn lemma_step_erased(a: TreeModel, b: TreeModel, la: LineModel, lb: LineModel, lenient: bool)
    requires
        erase_state(a) == erase_state(b),
        erase_line(la) == erase_line(lb),
    ensures
        erase_state(tree_step(a, la, lenient)) == erase_state(tree_step(b, lb, lenient)),
{
    let x = ComponentModel { name: Seq::empty(), properties: Seq::empty(), children: Seq::empty() };
    lemma_emap_facts(a.stack, x);
    lemma_emap_facts(b.stack, x);
    assert(a.stack.len() == b.stack.len());
    assert(la.name == lb.name && la.value == lb.value);
    if a.error is Some {
        assert(b.error is Some);
    } else if eq_ignore_case(la.name, "BEGIN"@) {
        lemma_emap_facts(a.stack, empty_component(la.value));
        lemma_emap_facts(b.stack, empty_component(lb.value));
    } else if eq_ignore_case(la.name, "END"@) {
        if a.stack.len() > 0 {
            let ea = a.stack.last();
            let eb = b.stack.last();
            assert(erase_comp(ea) == erase_comp(eb));
            assert(ea.name == eb.name);
            let ra = a.stack.drop_last();
            let rb = b.stack.drop_last();
            lemma_emap_facts(ra, x);
            lemma_emap_facts(rb, x);
            assert(emap(ra) == emap(rb));
            if ra.len() > 0 {
                lemma_erase_with_child(ra.last(), ea);
                lemma_erase_with_child(rb.last(), eb);
                lemma_emap_facts(ra, with_child(ra.last(), ea));
                lemma_emap_facts(rb, with_child(rb.last(), eb));
                assert(erase_comp(ra.last()) == erase_comp(rb.last()));
            }
        }
    } else if a.stack.len() > 0 {
        let ea = a.stack.last();
        let eb = b.stack.last();
        lemma_erase_with_property(ea, la);
        lemma_erase_with_property(eb, lb);
        lemma_emap_facts(a.stack, with_property(ea, la));
        lemma_emap_facts(b.stack, with_property(eb, lb));
    }
}

/// Tree building does the same, up to line numbers, on lines that are the
/// same up to line numbers.
proof fn lemma_run_erased(
    a: TreeModel,
    b: TreeModel,
    las: Seq<LineModel>,
    lbs: Seq<LineModel>,
    lenient: bool,
)
    requires
        erase_state(a) == erase_state(b),
        las.len() == lbs.len(),
        forall|i: int| 0 <= i < las.len() ==> erase_line(#[trigger] las[i]) == erase_line(lbs[i]),
    ensures
        erase_state(run_from(a, las, lenient)) == erase_state(run_from(b, lbs, lenient)),
    decreases las.len(),
{
    if las.len() > 0 {
        let ia = las.drop_last();
        let ib = lbs.drop_last();
        assert forall|i: int| 0 <= i < ia.len() implies erase_line(#[trigger] ia[i]) == erase_line(ib[i]) by {
            assert(ia[i] == las[i]);
            assert(ib[i] == lbs[i]);
        }
        lemma_run_erased(a, b, ia, ib, lenient);
        assert(erase_line(las[las.len() - 1]) == erase_line(lbs[lbs.len() - 1]));
        lemma_step_erased(run_from(a, ia, lenient), run_from(b, ib, lenient), las.last(), lbs.last(), lenient);
    }
}

/// Content lines as the parser reads them back from their written form,
/// with their line numbers set aside.
pub open spec fn written_all(ms: Seq<LineModel>) -> Seq<LineModel> {
    ms.map_values(|l: LineModel| written_line(l, 0))
}

/// The tree that the parser builds from a written component, before TEXT
/// values are decoded and with line numbers set aside.
pub open spec fn built(c: ComponentModel) -> ComponentModel
    decreases c,
{
    ComponentModel {
        name: uppercased(c.name),
        properties: written_all(c.properties),
        children: built_children(c.children),
    }
}

/// The trees built from a sequence of written components.
pub open spec fn built_children(cs: Seq<ComponentModel>) -> Seq<ComponentModel>
    decreases cs,
{
    if cs.len() == 0 {
        Seq::empty()
    } else {
        built_children(cs.drop_last()).push(built(cs.last()))
    }
}

/// The state after a finished component `e` is closed: added to the
/// innermost open component, or made the top-level one.
spec fn closed(st: TreeModel, e: ComponentModel) -> TreeModel {
    if st.stack.len() > 0 {
        TreeModel {
            stack: st.stack.update(st.stack.len() - 1, with_child(st.stack.last(), e)),
            root: st.root,
            diags: st.diags,
            error: None,
        }
    } else {
        TreeModel { stack: st.stack, root: Some(e), diags: st.diags, error: None }
    }
}

proof fn lemma_written_all_concat(a: Seq<LineModel>, b: Seq<LineModel>)
    ensures
        written_all(a + b) == written_all(a) + written_all(b),
{
    assert(written_all(a + b) =~= written_all(a) + written_all(b));
}

/// A writable property is read back under a name that is not BEGIN or END.
proof fn lemma_not_keyword(l: LineModel)
    requires
        writable_line(l),
    ensures
        !eq_ignore_case(written_line(l, 0).name, "BEGIN"@),
        !eq_ignore_case(written_line(l, 0).name, "END"@),
{
    crate::roundtrip::lemma_upper_name(l.name);
    let u = uppercased(l.name);
    if eq_ignore_case(u, "BEGIN"@) {
        assert forall|i: int| 0 <= i < l.name.len() implies #[trigger] ascii_fold(l.name[i]) == ascii_fold("BEGIN"@[i]) by {
            assert(ascii_fold(u[i]) == ascii_fold(l.name[i]));
        }
    }
    if eq_ignore_case(u, "END"@) {
        assert forall|i: int| 0 <= i < l.name.len() implies #[trigger] ascii_fold(l.name[i]) == ascii_fold("END"@[i]) by {
            assert(ascii_fold(u[i]) == ascii_fold(l.name[i]));
        }
    }
}

/// Properties are added, in order, to the innermost open component.
proof fn lemma_props_run(st: TreeModel, ps: Seq<LineModel>, lenient: bool)
    requires
        st.error is None,
        st.stack.len() > 0,
        forall|i: int| 0 <= i < ps.len() ==> writable_line(#[trigger] ps[i]),
    ensures
        run_from(st, written_all(ps), lenient) == (TreeModel {
            stack: st.stack.update(
                st.stack.len() - 1,
                ComponentModel {
                    name: st.stack.last().name,
                    properties: st.stack.last().properties + written_all(ps),
                    children: st.stack.last().children,
                },
            ),
            root: st.root,
            diags: st.diags,
            error: None,
        }),
    decreases ps.len(),
{
    let top = st.stack.last();
    if ps.len() == 0 {
        assert(written_all(ps) =~= Seq::<LineModel>::empty());
        assert(top.properties + written_all(ps) =~= top.properties);
        assert(st.stack.update(st.stack.len() - 1, top) =~= st.stack);
    } else {
        let init = ps.drop_last();
        assert forall|i: int| 0 <= i < init.len() implies writable_line(#[trigger] init[i]) by {
            assert(init[i] == ps[i]);
        }
        lemma_props_run(st, init, lenient);
        assert(written_all(ps).drop_last() =~= written_all(init));
        let l = ps.last();
        assert(writable_line(ps[ps.len() - 1]));
        lemma_not_keyword(l);
        let mid = run_from(st, written_all(init), lenient);
        let w = written_line(l, 0);
        assert(written_all(ps).last() == w);
        let xm = ComponentModel {
            name: top.name,
            properties: top.properties + written_all(init),
            children: top.children,
        };
        assert(mid.stack.len() == st.stack.len());
        assert(mid.stack.last() == xm);
        assert((top.properties + written_all(init)).push(w) =~= top.properties + written_all(ps));
        assert(with_property(xm, w) == ComponentModel {
            name: top.name,
            properties: top.properties + written_all(ps),
            children: top.children,
        });
        assert(mid.stack.update(mid.stack.len() - 1, with_property(mid.stack.last(), w)) =~= st.stack.update(
            st.stack.len() - 1,
            ComponentModel {
                name: top.name,
                properties: top.properties + written_all(ps),
                children: top.children,
            },
        ));
    }
}

/// A written component read into a state with an open component (or none
/// yet finished) is built and closed there.
proof fn lemma_comp_run(st: TreeModel, c: ComponentModel, lenient: bool)
    requires
        st.error is None,
        st.stack.len() > 0 || st.root is None,
        writable(c),
    ensures
        run_from(st, written_all(component_models(c)), lenient) == closed(st, built(c)),
    decreases c,
{
    lemma_plain_names();
    let b = begin_model(c.name);
    let e = end_model(c.name);
    let wb = written_line(b, 0);
    let we = written_line(e, 0);
    assert(wb.name == "BEGIN"@ && wb.value == uppercased(c.name));
    assert(we.name == "END"@ && we.value == uppercased(c.name));
    assert(!eq_ignore_case("END"@, "BEGIN"@));
    lemma_written_all_concat(seq![b] + c.properties + children_models(c.children), seq![e]);
    lemma_written_all_concat(seq![b] + c.properties, children_models(c.children));
    lemma_written_all_concat(seq![b], c.properties);
    assert(written_all(seq![b]) =~= seq![wb]);
    assert(written_all(seq![e]) =~= seq![we]);
    let x1 = seq![wb];
    let x2 = written_all(c.properties);
    let x3 = written_all(children_models(c.children));
    let x4 = seq![we];
    lemma_run_concat(st, x1 + x2 + x3, x4, lenient);
    lemma_run_concat(st, x1 + x2, x3, lenient);
    lemma_run_concat(st, x1, x2, lenient);
    lemma_run_one(st, wb, lenient);
    let st1 = run_from(st, x1, lenient);
    let top0 = empty_component(uppercased(c.name));
    assert(st1.stack == st.stack.push(top0));
    lemma_props_run(st1, c.properties, lenient);
    let st2 = run_from(st1, x2, lenient);
    let top1 = ComponentModel { name: uppercased(c.name), properties: x2, children: Seq::empty() };
    assert(Seq::<LineModel>::empty() + x2 =~= x2);
    assert(st2.stack =~= st.stack.push(top1));
    lemma_children_run(st2, c.children, lenient);
    let st3 = run_from(st2, x3, lenient);
    assert(Seq::<ComponentModel>::empty() + built_children(c.children) =~= built_children(c.children));
    assert(st3.stack =~= st.stack.push(built(c)));
    lemma_run_one(st3, we, lenient);
    assert(st3.stack.last() == built(c));
    assert(st3.stack.drop_last() =~= st.stack);
    assert(eq_ignore_case(built(c).name, we.value));
}

/// Written components read into a state with an open component become its
/// last children, in order.
proof fn lemma_children_run(st: TreeModel, cs: Seq<ComponentModel>, lenient: bool)
    requires
        st.error is None,
        st.stack.len() > 0,
        writable_children(cs),
    ensures
        run_from(st, written_all(children_models(cs)), lenient) == (TreeModel {
            stack: st.stack.update(
                st.stack.len() - 1,
                ComponentModel {
                    name: st.stack.last().name,
                    properties: st.stack.last().properties,
                    children: st.stack.last().children + built_children(cs),
                },
            ),
            root: st.root,
            diags: st.diags,
            error: None,
        }),
    decreases cs,
{
    let top = st.stack.last();
    if cs.len() == 0 {
        assert(written_all(children_models(cs)) =~= Seq::<LineModel>::empty());
        assert(top.children + built_children(cs) =~= top.children);
        assert(st.stack.update(st.stack.len() - 1, top) =~= st.stack);
    } else {
        let init = cs.drop_last();
        lemma_children_run(st, init, lenient);
        lemma_written_all_concat(children_models(init), component_models(cs.last()));
        lemma_run_concat(st, written_all(children_models(init)), written_all(component_models(cs.last())), lenient);
        let mid = run_from(st, written_all(children_models(init)), lenient);
        lemma_comp_run(mid, cs.last(), lenient);
        assert(top.children + built_children(init) + seq![built(cs.last())] =~= top.children + built_children(cs));
        assert(mid.stack.update(mid.stack.len() - 1, with_child(mid.stack.last(), built(cs.last()))) =~= st.stack.update(
            st.stack.len() - 1,
            ComponentModel {
                name: top.name,
                properties: top.properties,
                children: top.children + built_children(cs),
            },
        ));
    }
}

/// A component tree as `parse` gives it back after `print`, with line
/// numbers set aside: component, property and parameter names uppercased,
/// everything else as it was.
pub open spec fn reread(c: ComponentModel) -> ComponentModel
    decreases c,
{
    ComponentModel {
        name: uppercased(c.name),
        properties: c.properties.map_values(|l: LineModel| read_back_line(l, 0)),
        children: reread_children(c.children),
    }
}

/// Each tree of a sequence as it is read back.
pub open spec fn reread_children(cs: Seq<ComponentModel>) -> Seq<ComponentModel>
    decreases cs,
{
    if cs.len() == 0 {
        Seq::empty()
    } else {
        reread_children(cs.drop_last()).push(reread(cs.last()))
    }
}

proof fn lemma_erase_children_len(cs: Seq<ComponentModel>)
    ensures
        erase_children(cs).len() == cs.len(),
    decreases cs.len(),
{
    if cs.len() > 0 {
        lemma_erase_children_len(cs.drop_last());
    }
}

proof fn lemma_built_children_len(cs: Seq<ComponentModel>)
    ensures
        built_children(cs).len() == cs.len(),
    decreases cs.len(),
{
    if cs.len() > 0 {
        lemma_built_children_len(cs.drop_last());
    }
}

/// Equal pushes have equal parts.
proof fn lemma_push_eq(a: Seq<ComponentModel>, x: ComponentModel, b: Seq<ComponentModel>, y: ComponentModel)
    requires
        a.push(x) == b.push(y),
    ensures
        a == b,
        x == y,
{
    assert(a =~= a.push(x).drop_last());
    assert(b =~= b.push(y).drop_last());
    assert(a.push(x).last() == x);
    assert(b.push(y).last() == y);
}

/// A property line that reads as a written property: its decoding gives
/// the property back and reports nothing.
proof fn lemma_decode_written(r: LineModel, l: LineModel, lenient: bool)
    requires
        erase_line(r) == written_line(l, 0),
        writable_line(l),
    ensures
        erase_line(decode_line(r)) == read_back_line(l, 0),
        line_decode_diags(r, lenient).len() == 0,
        r.name == uppercased(l.name),
{
    assert(r == written_line(l, r.source_line));
    written_property_parses_back(l, r.source_line);
    crate::roundtrip::lemma_upper_name(l.name);
    crate::roundtrip::lemma_text_property_case(uppercased(l.name), l.name);
    if is_text_property(l.name) {
        unescape_inverts_escape(l.value);
    }
}

proof fn lemma_props_decode(rs: Seq<LineModel>, ls: Seq<LineModel>, lenient: bool)
    requires
        rs.len() == ls.len(),
        forall|i: int| 0 <= i < rs.len() ==> erase_line(#[trigger] rs[i]) == written_line(ls[i], 0),
        forall|i: int| 0 <= i < ls.len() ==> writable_line(#[trigger] ls[i]),
    ensures
        props_decode_diags(rs, lenient).len() == 0,
    decreases rs.len(),
{
    if rs.len() > 0 {
        let ri = rs.drop_last();
        let li = ls.drop_last();
        assert forall|i: int| 0 <= i < ri.len() implies erase_line(#[trigger] ri[i]) == written_line(li[i], 0) by {
            assert(ri[i] == rs[i]);
            assert(li[i] == ls[i]);
        }
        assert forall|i: int| 0 <= i < li.len() implies writable_line(#[trigger] li[i]) by {
            assert(li[i] == ls[i]);
        }
        lemma_props_decode(ri, li, lenient);
        assert(erase_line(rs[rs.len() - 1]) == written_line(ls[ls.len() - 1], 0));
        assert(writable_line(ls[ls.len() - 1]));
        lemma_decode_written(rs.last(), ls.last(), lenient);
    }
}

/// Decoding a tree built from a written component gives the component as
/// read back, and reports nothing.
proof fn lemma_decode_built(r: ComponentModel, c: ComponentModel, lenient: bool)
    requires
        erase_comp(r) == erase_comp(built(c)),
        writable(c),
    ensures
        erase_comp(decoded_component(r)) == reread(c),
        decode_diags(r, lenient).len() == 0,
    decreases c,
{
    let wp = written_all(c.properties);
    assert(wp.map_values(|l: LineModel| erase_line(l)) =~= wp);
    let rp = r.properties;
    assert(rp.map_values(|l: LineModel| erase_line(l)) == wp);
    assert(rp.len() == c.properties.len());
    assert forall|i: int| 0 <= i < rp.len() implies erase_line(#[trigger] rp[i]) == written_line(c.properties[i], 0) by {
        assert(rp.map_values(|l: LineModel| erase_line(l))[i] == erase_line(rp[i]));
        assert(wp[i] == written_line(c.properties[i], 0));
    }
    assert forall|i: int| 0 <= i < rp.len() implies erase_line(decode_line(#[trigger] rp[i])) == read_back_line(
        c.properties[i],
        0,
    ) by {
        assert(writable_line(c.properties[i]));
        lemma_decode_written(rp[i], c.properties[i], lenient);
    }
    lemma_props_decode(rp, c.properties, lenient);
    assert(decoded_component(r).properties.map_values(|l: LineModel| erase_line(l)) =~= c.properties.map_values(
        |l: LineModel| read_back_line(l, 0),
    ));
    lemma_decode_built_children(r.children, c.children, lenient);
}

/// [`lemma_decode_built`] for each tree of a sequence.
proof fn lemma_decode_built_children(rs: Seq<ComponentModel>, cs: Seq<ComponentModel>, lenient: bool)
    requires
        erase_children(rs) == erase_children(built_children(cs)),
        writable_children(cs),
    ensures
        erase_children(decoded_children(rs)) == reread_children(cs),
        children_decode_diags(rs, lenient).len() == 0,
    decreases cs,
{
    lemma_erase_children_len(rs);
    lemma_erase_children_len(built_children(cs));
    lemma_built_children_len(cs);
    if cs.len() > 0 {
        let ri = rs.drop_last();
        let ci = cs.drop_last();
        assert(built_children(cs) == built_children(ci).push(built(cs.last())));
        assert(built_children(cs).drop_last() =~= built_children(ci));
        assert(built_children(cs).last() == built(cs.last()));
        lemma_push_eq(erase_children(ri), erase_comp(rs.last()), erase_children(built_children(ci)), erase_comp(built(cs.last())));
        lemma_decode_built_children(ri, ci, lenient);
        lemma_decode_built(rs.last(), cs.last(), lenient);
        assert(decoded_children(rs) == decoded_children(ri).push(decoded_component(rs.last())));
        assert(decoded_children(rs).drop_last() =~= decoded_children(ri));
        assert(decoded_children(rs).last() == decoded_component(rs.last()));
    }
}

/// In strict mode building a tree raises no warning: a mismatch is an error.
proof fn lemma_strict_tree_diags(ls: Seq<LineModel>)
    ensures
        tree_run(ls, false).diags.len() == 0,
    decreases ls.len(),
{
    if ls.len() > 0 {
        lemma_strict_tree_diags(ls.drop_last());
    }
}

proof fn lemma_eq_ignore_case_trans(a: Seq<char>, b: Seq<char>, c: Seq<char>)
    requires
        eq_ignore_case(a, b),
        eq_ignore_case(b, c),
    ensures
        eq_ignore_case(a, c),
{
    assert forall|i: int| 0 <= i < a.len() implies #[trigger] ascii_fold(a[i]) == ascii_fold(c[i]) by {
        assert(ascii_fold(a[i]) == ascii_fold(b[i]));
        assert(ascii_fold(b[i]) == ascii_fold(c[i]));
    }
}

proof fn lemma_upper_eq(n: Seq<char>)
    requires
        all_ascii(n),
    ensures
        eq_ignore_case(uppercased(n), n),
        eq_ignore_case(n, uppercased(n)),
{
    let u = uppercased(n);
    assert(u == n.map_values(|c: char| ascii_upper_char(c)));
    assert forall|i: int| 0 <= i < n.len() implies #[trigger] ascii_fold(u[i]) == ascii_fold(n[i]) by {
        crate::roundtrip::lemma_upper_char(n[i]);
    }
}

/// The no-children warning, when it applies.
pub open spec fn no_children_warning(c: ComponentModel) -> Seq<crate::DiagnosticModel> {
    if c.children.len() == 0 {
        seq![crate::parser::general(crate::Severity::Warning, crate::parser::msg_no_children())]
    } else {
        Seq::empty()
    }
}

/// What `print` writes, `parse` reads back in strict mode as the same
/// calendar with component, property and parameter names uppercased
/// (line numbers set aside), with no error and no warning but the one for
/// a calendar without sub-components. The calendar must be [`writable`]
/// and must be a VCALENDAR with VERSION and PRODID, as strict mode demands.
pub proof fn printed_calendar_parses_back(c: ComponentModel)
    requires
        writable(c),
        eq_ignore_case(c.name, "VCALENDAR"@),
        has_property(c, "VERSION"@),
        has_property(c, "PRODID"@),
    ensures
        parse_spec(component_text(c), false) matches Ok((t, ds)) && erase_comp(t) == reread(c) && ds
            == no_children_warning(c),
{
    let ms = component_models(c);
    let ls = rendered_lines(ms);
    let text = component_text(c);
    lemma_component_text(c);
    lemma_component_readable(c);
    assert forall|i: int|
        0 <= i < ls.len() implies (#[trigger] ls[i]).len() > 0 && !ls[i].contains('\n') && !is_continuation(ls[i]) by {
        lemma_readable_text(ms[i]);
    }
    lemma_lines_of_doc(ls);
    lemma_unfold_doc(ls, false);
    lemma_bare_doc(ls);
    let u = unfolded(physical_all(ls), false);
    lemma_content_doc(ms, u.logical, false);
    let cr = content_run(u.logical, false);
    let ws = cr.lines;
    assert(crate::parser::line_diags(text, false) =~= Seq::<crate::DiagnosticModel>::empty());
    assert(crate::parser::content_lines_of(text, false) == ws);
    let w0 = written_all(ms);
    assert forall|i: int| 0 <= i < ws.len() implies erase_line(#[trigger] ws[i]) == erase_line(w0[i]) by {
        assert(ws[i] == written_line(ms[i], u.logical[i].0));
    }
    lemma_tree_run_from(ws, false);
    lemma_run_erased(tree_start(), tree_start(), ws, w0, false);
    lemma_comp_run(tree_start(), c, false);
    lemma_strict_tree_diags(ws);
    let st = tree_run(ws, false);
    let x = ComponentModel { name: Seq::empty(), properties: Seq::empty(), children: Seq::empty() };
    lemma_emap_facts(st.stack, x);
    lemma_emap_facts(Seq::<ComponentModel>::empty(), x);
    assert(st.error is None);
    assert(st.stack.len() == 0);
    let r = st.root->0;
    assert(erase_comp(r) == erase_comp(built(c)));
    assert(tree_outcome(st) == Ok::<ComponentModel, Seq<char>>(r));
    lemma_decode_built(r, c, false);
    // the checks on the top-level component
    assert(r.name == uppercased(c.name));
    lemma_upper_eq(c.name);
    lemma_eq_ignore_case_trans(uppercased(c.name), c.name, "VCALENDAR"@);
    assert(r.properties.map_values(|l: LineModel| erase_line(l)) == written_all(c.properties).map_values(
        |l: LineModel| erase_line(l),
    ));
    assert(erase_comp(r).properties.len() == r.properties.len());
    assert(erase_comp(built(c)).properties.len() == written_all(c.properties).len());
    assert(r.properties.len() == c.properties.len());
    assert forall|i: int| 0 <= i < c.properties.len() implies eq_ignore_case(
        #[trigger] r.properties[i].name,
        c.properties[i].name,
    ) by {
        assert(r.properties.map_values(|l: LineModel| erase_line(l))[i] == erase_line(r.properties[i]));
        assert(written_all(c.properties).map_values(|l: LineModel| erase_line(l))[i] == erase_line(
            written_line(c.properties[i], 0),
        ));
        assert(writable_line(c.properties[i]));
        crate::roundtrip::lemma_upper_name(c.properties[i].name);
    }
    let v = choose|i: int| 0 <= i < c.properties.len() && eq_ignore_case(#[trigger] c.properties[i].name, "VERSION"@);
    lemma_eq_ignore_case_trans(r.properties[v].name, c.properties[v].name, "VERSION"@);
    assert(has_property(r, "VERSION"@));
    let q = choose|i: int| 0 <= i < c.properties.len() && eq_ignore_case(#[trigger] c.properties[i].name, "PRODID"@);
    lemma_eq_ignore_case_trans(r.properties[q].name, c.properties[q].name, "PRODID"@);
    assert(has_property(r, "PRODID"@));
    lemma_erase_children_len(r.children);
    lemma_erase_children_len(built_children(c.children));
    lemma_built_children_len(c.children);
    assert(r.children.len() == c.children.len());
    assert(header_diags(r, false) =~= no_children_warning(c));
    let all = crate::parser::line_diags(text, false) + st.diags + validate_diags(r, false);
    assert(all =~= no_children_warning(c));
    assert(!has_error(all));
}

proof fn lemma_upper_idempotent(n: Seq<char>)
    requires
        all_ascii(n),
    ensures
        uppercased(uppercased(n)) == uppercased(n),
{
    let u = uppercased(n);
    assert(u == n.map_values(|c: char| ascii_upper_char(c)));
    assert forall|i: int| 0 <= i < u.len() implies (#[trigger] u[i] as u32) < 128 by {
        crate::roundtrip::lemma_upper_char(n[i]);
    }
    assert(uppercased(u) =~= u) by {
        assert forall|i: int| 0 <= i < u.len() implies #[trigger] ascii_upper_char(u[i]) == u[i] by {
            crate::roundtrip::lemma_upper_char(n[i]);
        }
    }
}

/// Written parameters depend on the parameters' values and the names they
/// are written under, not on the parameters' own names.
proof fn lemma_params_values_only(a: Seq<ParamModel>, b: Seq<ParamModel>, names: Seq<Seq<char>>)
    requires
        a.len() == b.len(),
        forall|i: int| 0 <= i < a.len() ==> (#[trigger] a[i]).values == b[i].values,
    ensures
        crate::writer::rendered_params_named(a, names) == crate::writer::rendered_params_named(b, names),
    decreases a.len(),
{
    if a.len() > 0 {
        let ai = a.drop_last();
        let bi = b.drop_last();
        assert forall|i: int| 0 <= i < ai.len() implies (#[trigger] ai[i]).values == bi[i].values by {
            assert(ai[i] == a[i]);
            assert(bi[i] == b[i]);
        }
        lemma_params_values_only(ai, bi, names.drop_last());
        assert(a[a.len() - 1].values == b[b.len() - 1].values);
    }
}

/// A property read back is written as the property itself was.
proof fn lemma_reread_line_text(l: LineModel)
    requires
        writable_line(l),
    ensures
        rendered_property(read_back_line(l, 0)) == rendered_property(l),
{
    let m = read_back_line(l, 0);
    crate::roundtrip::lemma_upper_name(l.name);
    assert(all_ascii(l.name)) by {
        assert forall|i: int| 0 <= i < l.name.len() implies (#[trigger] l.name[i] as u32) < 128 by {
            assert(is_name_char(l.name[i]));
        }
    }
    lemma_upper_idempotent(l.name);
    crate::roundtrip::lemma_text_property_case(uppercased(l.name), l.name);
    let ps = l.params;
    let ups = crate::roundtrip::upper_params(ps);
    assert forall|i: int| 0 <= i < ps.len() implies uppercased(uppercased(#[trigger] ps[i].name)) == uppercased(
        ps[i].name,
    ) by {
        assert(round_trippable_param(ps[i]));
        lemma_upper_idempotent(ps[i].name);
    }
    assert(crate::writer::upper_param_names(ups) =~= crate::writer::upper_param_names(ps));
    lemma_params_values_only(ups, ps, crate::writer::upper_param_names(ps));
    assert(rendered_value(m) == rendered_value(l));
}

proof fn lemma_reread_props_text(ls: Seq<LineModel>)
    requires
        forall|i: int| 0 <= i < ls.len() ==> writable_line(#[trigger] ls[i]),
    ensures
        properties_text(ls.map_values(|l: LineModel| read_back_line(l, 0))) == properties_text(ls),
    decreases ls.len(),
{
    if ls.len() > 0 {
        let init = ls.drop_last();
        assert forall|i: int| 0 <= i < init.len() implies writable_line(#[trigger] init[i]) by {
            assert(init[i] == ls[i]);
        }
        lemma_reread_props_text(init);
        let m = ls.map_values(|l: LineModel| read_back_line(l, 0));
        assert(m.drop_last() =~= init.map_values(|l: LineModel| read_back_line(l, 0)));
        assert(writable_line(ls[ls.len() - 1]));
        lemma_reread_line_text(ls.last());
    }
}

/// A component read back is written as the component itself was.
proof fn lemma_reread_text(c: ComponentModel)
    requires
        writable(c),
    ensures
        component_text(reread(c)) == component_text(c),
    decreases c,
{
    lemma_reread_children_text(c.children);
    lemma_reread_props_text(c.properties);
    lemma_upper_idempotent(c.name);
}

/// [`lemma_reread_text`] for each tree of a sequence.
proof fn lemma_reread_children_text(cs: Seq<ComponentModel>)
    requires
        writable_children(cs),
    ensures
        children_text(reread_children(cs)) == children_text(cs),
    decreases cs,
{
    if cs.len() > 0 {
        lemma_reread_children_text(cs.drop_last());
        lemma_reread_text(cs.last());
        let r = reread_children(cs);
        assert(r.drop_last() =~= reread_children(cs.drop_last()));
        assert(r.last() == reread(cs.last()));
    }
}

proof fn lemma_erase_props_text(ls: Seq<LineModel>)
    ensures
        properties_text(ls.map_values(|l: LineModel| erase_line(l))) == properties_text(ls),
    decreases ls.len(),
{
    if ls.len() > 0 {
        lemma_erase_props_text(ls.drop_last());
        let m = ls.map_values(|l: LineModel| erase_line(l));
        assert(m.drop_last() =~= ls.drop_last().map_values(|l: LineModel| erase_line(l)));
        assert(rendered_property(m.last()) == rendered_property(ls.last()));
    }
}

/// What is written does not depend on line numbers.
proof fn lemma_erase_text(c: ComponentModel)
    ensures
        component_text(erase_comp(c)) == component_text(c),
    decreases c,
{
    lemma_erase_children_text(c.children);
    lemma_erase_props_text(c.properties);
}

/// [`lemma_erase_text`] for each tree of a sequence.
proof fn lemma_erase_children_text(cs: Seq<ComponentModel>)
    ensures
        children_text(erase_children(cs)) == children_text(cs),
    decreases cs,
{
    if cs.len() > 0 {
        lemma_erase_children_text(cs.drop_last());
        lemma_erase_text(cs.last());
        let r = erase_children(cs);
        assert(r.drop_last() =~= erase_children(cs.drop_last()));
        assert(r.last() == erase_comp(cs.last()));
    }
}

/// Printing is stable through parsing: what `print` writes for a calendar
/// that `parse` gives back from `print`'s own output is that output again.
/// The calendar must be [`writable`] and must be a VCALENDAR with VERSION
/// and PRODID, as strict mode demands.
pub proof fn printing_is_stable(c: ComponentModel)
    requires
        writable(c),
        eq_ignore_case(c.name, "VCALENDAR"@),
        has_property(c, "VERSION"@),
        has_property(c, "PRODID"@),
    ensures
        parse_spec(component_text(c), false) matches Ok((t, _)) && component_text(t) == component_text(c),
{
    printed_calendar_parses_back(c);
    let t = parse_spec(component_text(c), false)->Ok_0.0;
    lemma_erase_text(t);
    lemma_reread_text(c);
}

} // verus!
