//! What `parse` produces: calendars whose content lines and component names
//! can be written and read back, so that the document laws apply to them.
use vstd::prelude::*;

use crate::chars::{all_ascii, eq_ignore_case};
use crate::content::{
    content_line_spec, find_unquoted_from, first_separator, first_unquoted, is_valid_name, outside_quotes,
    param_spec, params_of_chunks, params_spec, quote_count, split_unquoted_spec, unquote_spec,
    lemma_split_unquoted_nonempty,
};
use crate::document::{
    printed_calendar_parses_back, printing_is_stable, erase_comp, reread, writable, writable_children,
    writable_line, param_on_one_line,
};
use crate::lines::{lines_of, split_lf, strip_cr, unfold_step, unfolded};
use crate::parser::{
    content_lines_of, content_run, content_step, decode_line, decoded_children, decoded_component, general,
    has_error, has_property, header_diags, line_diags, msg_not_vcalendar, parse_spec, strict_requires_prodid,
    strict_requires_version, validate_diags,
};
use crate::roundtrip::{lemma_quote_count_none, round_trippable_param};
use crate::tree::{tree_outcome, tree_run, tree_step, with_child, with_property, TreeModel};
use crate::writer::component_text;
use crate::{empty_component, ComponentModel, LineModel, ParamModel, Severity};

verus! {

/// Every `t` in `s` lies inside double quotes.
pub open spec fn no_unquoted(s: Seq<char>, t: char) -> bool {
    forall|j: int| 0 <= j < s.len() && #[trigger] s[j] == t ==> !outside_quotes(s.take(j))
}

proof fn lemma_no_char_subrange(s: Seq<char>, a: int, b: int, x: char)
    requires
        0 <= a <= b <= s.len(),
        !s.contains(x),
    ensures
        !s.subrange(a, b).contains(x),
{
    if s.subrange(a, b).contains(x) {
        let i = choose|i: int| 0 <= i < b - a && s.subrange(a, b)[i] == x;
        assert(s[a + i] == x);
    }
}

/// The first unquoted `target` has no unquoted `target` before it.
proof fn lemma_first_unquoted_first(t: Seq<char>, target: char)
    ensures
        first_unquoted(t, target) matches Some(e) ==> 0 <= e < t.len() && no_unquoted(t.take(e), target),
        first_unquoted(t, target) is None ==> no_unquoted(t, target),
    decreases t.len(),
{
    if t.len() > 0 {
        let p = t.drop_last();
        lemma_first_unquoted_first(p, target);
        match first_unquoted(p, target) {
            Some(e) => {
                assert(t.take(e) =~= p.take(e));
            },
            None => {
                assert forall|j: int| 0 <= j < p.len() implies #[trigger] t.take(j) == p.take(j) by {
                    assert(t.take(j) =~= p.take(j));
                }
                assert(t.take(t.len() - 1) =~= p);
                if t.last() == target && outside_quotes(p) {
                    assert(t.take(t.len() - 1) =~= p);
                } else {
                    assert forall|j: int| 0 <= j < t.len() && #[trigger] t[j] == target implies !outside_quotes(
                        t.take(j),
                    ) by {
                        if j < p.len() {
                            assert(p[j] == target);
                        } else {
                            assert(t[t.len() - 1] == t.last());
                        }
                    }
                }
            },
        }
    }
}

/// The pieces that splitting at unquoted `t` gives: none holds an unquoted
/// `t`, one holds an unquoted `x` only where the text did, and none holds
/// a character that the text does not.
proof fn lemma_split_pieces(s: Seq<char>, t: char, x: char, y: char)
    requires
        t != '"',
        x != '"',
    ensures
        split_unquoted_spec(s, t).len() >= 1,
        quote_count(split_unquoted_spec(s, t).last()) % 2 == quote_count(s) % 2,
        forall|i: int| 0 <= i < split_unquoted_spec(s, t).len() ==> no_unquoted(#[trigger] split_unquoted_spec(s, t)[i], t),
        no_unquoted(s, x) ==> forall|i: int|
            0 <= i < split_unquoted_spec(s, t).len() ==> no_unquoted(#[trigger] split_unquoted_spec(s, t)[i], x),
        !s.contains(y) ==> forall|i: int|
            0 <= i < split_unquoted_spec(s, t).len() ==> !(#[trigger] split_unquoted_spec(s, t)[i]).contains(y),
    decreases s.len(),
{
    lemma_split_unquoted_nonempty(s, t);
    if s.len() == 0 {
        assert(split_unquoted_spec(s, t) =~= seq![Seq::<char>::empty()]);
    } else {
        let q = s.drop_last();
        let c = s.last();
        assert(no_unquoted(s, x) ==> no_unquoted(q, x)) by {
            if no_unquoted(s, x) {
                assert forall|j: int| 0 <= j < q.len() && #[trigger] q[j] == x implies !outside_quotes(q.take(j)) by {
                    assert(s[j] == x);
                    assert(s.take(j) =~= q.take(j));
                }
            }
        }
        assert(!s.contains(y) ==> !q.contains(y)) by {
            if q.contains(y) {
                let i = choose|i: int| 0 <= i < q.len() && q[i] == y;
                assert(s[i] == y);
            }
        }
        lemma_split_pieces(q, t, x, y);
        let p = split_unquoted_spec(q, t);
        let last = p.last();
        assert(quote_count(s) == quote_count(q) + if c == '"' { 1nat } else { 0nat });
        if c == t && outside_quotes(q) {
            let r = p.push(Seq::empty());
            assert(split_unquoted_spec(s, t) == r);
            assert(quote_count(Seq::<char>::empty()) == 0);
            assert forall|i: int| 0 <= i < r.len() implies no_unquoted(#[trigger] r[i], t) by {
                if i < p.len() {
                    assert(r[i] == p[i]);
                }
            }
            if no_unquoted(s, x) {
                assert forall|i: int| 0 <= i < r.len() implies no_unquoted(#[trigger] r[i], x) by {
                    if i < p.len() {
                        assert(r[i] == p[i]);
                    }
                }
            }
            if !s.contains(y) {
                assert forall|i: int| 0 <= i < r.len() implies !(#[trigger] r[i]).contains(y) by {
                    if i < p.len() {
                        assert(r[i] == p[i]);
                    }
                }
            }
        } else {
            let nl = last.push(c);
            let r = p.update(p.len() - 1, nl);
            assert(split_unquoted_spec(s, t) == r);
            assert(nl.drop_last() =~= last);
            assert(nl.last() == c);
            assert(quote_count(nl) == quote_count(last) + if c == '"' { 1nat } else { 0nat });
            assert(nl.take(last.len() as int) =~= last);
            assert forall|j: int| 0 <= j < last.len() implies #[trigger] nl.take(j) == last.take(j) by {
                assert(nl.take(j) =~= last.take(j));
            }
            assert(s.take(q.len() as int) =~= q);
            assert(s[q.len() as int] == c);
            assert(no_unquoted(p[p.len() - 1], t));
            assert(no_unquoted(nl, t)) by {
                assert forall|j: int| 0 <= j < nl.len() && #[trigger] nl[j] == t implies !outside_quotes(nl.take(j)) by {
                    if j < last.len() {
                        assert(last[j] == t);
                    }
                }
            }
            assert forall|i: int| 0 <= i < r.len() implies no_unquoted(#[trigger] r[i], t) by {
                if i < p.len() - 1 {
                    assert(r[i] == p[i]);
                }
            }
            if no_unquoted(s, x) {
                assert(no_unquoted(p[p.len() - 1], x));
                assert(no_unquoted(nl, x)) by {
                    assert forall|j: int| 0 <= j < nl.len() && #[trigger] nl[j] == x implies !outside_quotes(
                        nl.take(j),
                    ) by {
                        if j < last.len() {
                            assert(last[j] == x);
                        } else {
                            assert(s[q.len() as int] == x);
                        }
                    }
                }
                assert forall|i: int| 0 <= i < r.len() implies no_unquoted(#[trigger] r[i], x) by {
                    if i < p.len() - 1 {
                        assert(r[i] == p[i]);
                    }
                }
            }
            if !s.contains(y) {
                assert(!p[p.len() - 1].contains(y));
                assert(c != y) by {
                    assert(s[s.len() - 1] == c);
                }
                assert(!nl.contains(y)) by {
                    if nl.contains(y) {
                        let k = choose|k: int| 0 <= k < nl.len() && nl[k] == y;
                        if k < last.len() {
                            assert(last[k] == y);
                        }
                    }
                }
                assert forall|i: int| 0 <= i < r.len() implies !(#[trigger] r[i]).contains(y) by {
                    if i < p.len() - 1 {
                        assert(r[i] == p[i]);
                    }
                }
            }
        }
    }
}

/// A parameter as `parse` gives it: a non-empty name, at least one value,
/// no line break, and a name without `;`, `:` or `=` unless it holds a
/// double quote.
pub open spec fn parsed_param(p: ParamModel) -> bool {
    &&& p.name.len() > 0
    &&& !p.name.contains('\n')
    &&& p.values.len() >= 1
    &&& forall|k: int| 0 <= k < p.values.len() ==> !(#[trigger] p.values[k]).contains('\n')
    &&& !p.name.contains('"') ==> !p.name.contains(';') && !p.name.contains(':') && !p.name.contains('=')
}

/// A content line as `parse` gives it: a valid, non-empty name, a value
/// without line break, and parameters as `parse` gives them.
pub open spec fn parsed_line(l: LineModel) -> bool {
    &&& l.name.len() > 0
    &&& is_valid_name(l.name)
    &&& !l.value.contains('\n')
    &&& forall|i: int| 0 <= i < l.params.len() ==> parsed_param(#[trigger] l.params[i])
}

proof fn lemma_param_ok(chunk: Seq<char>)
    requires
        param_spec(chunk) is Ok,
        no_unquoted(chunk, ';'),
        no_unquoted(chunk, ':'),
        !chunk.contains('\n'),
    ensures
        parsed_param(param_spec(chunk)->Ok_0),
{
    let eq = first_unquoted(chunk, '=')->0;
    lemma_first_unquoted_first(chunk, '=');
    let p = param_spec(chunk)->Ok_0;
    let name = chunk.take(eq);
    assert(p.name == name);
    lemma_no_char_subrange(chunk, 0, eq, '\n');
    assert(name =~= chunk.subrange(0, eq));
    if !name.contains('"') {
        assert forall|j: int| 0 <= j < eq implies outside_quotes(#[trigger] chunk.take(j)) by {
            assert(chunk.take(j) =~= name.take(j));
            lemma_no_char_subrange(name, 0, j, '"');
            assert(name.take(j) =~= name.subrange(0, j));
            lemma_quote_count_none(name.take(j));
        }
        assert forall|c: char| c == ';' || c == ':' || c == '=' implies !name.contains(c) by {
            if name.contains(c) {
                let j = choose|j: int| 0 <= j < name.len() && name[j] == c;
                assert(chunk[j] == c);
                assert(outside_quotes(chunk.take(j)));
                assert(chunk.take(eq).take(j) =~= chunk.take(j));
                assert(chunk.take(eq)[j] == c);
            }
        }
    }
    let rest = chunk.skip(eq + 1);
    lemma_no_char_subrange(chunk, eq + 1, chunk.len() as int, '\n');
    assert(rest =~= chunk.subrange(eq + 1, chunk.len() as int));
    lemma_split_pieces(rest, ',', ',', '\n');
    let pieces = split_unquoted_spec(rest, ',');
    assert(p.values == pieces.map_values(|v: Seq<char>| unquote_spec(v)));
    assert forall|k: int| 0 <= k < p.values.len() implies !(#[trigger] p.values[k]).contains('\n') by {
        assert(p.values[k] == unquote_spec(pieces[k]));
        assert(!pieces[k].contains('\n'));
        if pieces[k].len() >= 2 {
            lemma_no_char_subrange(pieces[k], 1, pieces[k].len() - 1, '\n');
        }
    }
}

proof fn lemma_params_ok(chunks: Seq<Seq<char>>)
    requires
        params_of_chunks(chunks) is Ok,
    ensures
        params_of_chunks(chunks)->Ok_0.len() == chunks.len(),
        forall|i: int| 0 <= i < chunks.len() ==> #[trigger] param_spec(chunks[i]) == Ok::<ParamModel, Seq<char>>(
            params_of_chunks(chunks)->Ok_0[i],
        ),
    decreases chunks.len(),
{
    if chunks.len() > 0 {
        let init = chunks.drop_last();
        lemma_params_ok(init);
        let ps = params_of_chunks(init)->Ok_0;
        assert forall|i: int| 0 <= i < chunks.len() implies #[trigger] param_spec(chunks[i]) == Ok::<
            ParamModel,
            Seq<char>,
        >(params_of_chunks(chunks)->Ok_0[i]) by {
            if i < init.len() {
                assert(chunks[i] == init[i]);
            }
        }
    }
}

/// A line that `parse` reads as a content line is one as `parse` gives it.
pub proof fn lemma_content_line_ok(raw: Seq<char>, n: nat)
    requires
        content_line_spec(raw, n) is Ok,
        !raw.contains('\n'),
    ensures
        parsed_line(content_line_spec(raw, n)->Ok_0),
{
    crate::content::lemma_first_separator_bound(raw);
    let sep = first_separator(raw)->0;
    let l = content_line_spec(raw, n)->Ok_0;
    if raw[sep] == ':' {
        lemma_no_char_subrange(raw, sep + 1, raw.len() as int, '\n');
        assert(raw.skip(sep + 1) =~= raw.subrange(sep + 1, raw.len() as int));
    } else {
        let t = raw.skip(sep + 1);
        let colon = find_unquoted_from(raw, ':', sep + 1)->0;
        let e = colon - (sep + 1);
        lemma_first_unquoted_first(t, ':');
        let seg = raw.subrange(sep + 1, colon);
        assert(seg =~= t.take(e));
        lemma_no_char_subrange(raw, sep + 1, colon, '\n');
        lemma_split_pieces(seg, ';', ':', '\n');
        let chunks = split_unquoted_spec(seg, ';');
        assert(params_spec(seg) == params_of_chunks(chunks));
        lemma_params_ok(chunks);
        assert forall|i: int| 0 <= i < l.params.len() implies parsed_param(#[trigger] l.params[i]) by {
            assert(param_spec(chunks[i]) == Ok::<ParamModel, Seq<char>>(l.params[i]));
            lemma_param_ok(chunks[i]);
        }
        lemma_no_char_subrange(raw, colon + 1, raw.len() as int, '\n');
        assert(raw.skip(colon + 1) =~= raw.subrange(colon + 1, raw.len() as int));
    }
}

proof fn lemma_split_lf_no_lf(s: Seq<char>)
    ensures
        forall|i: int| 0 <= i < split_lf(s).len() ==> !(#[trigger] split_lf(s)[i]).contains('\n'),
    decreases s.len(),
{
    if s.len() > 0 {
        lemma_split_lf_no_lf(s.drop_last());
        crate::lines::lemma_split_lf_nonempty(s.drop_last());
        let p = split_lf(s.drop_last());
        if s.last() != '\n' {
            let nl = p.last().push(s.last());
            assert(!p[p.len() - 1].contains('\n'));
            assert(!nl.contains('\n')) by {
                if nl.contains('\n') {
                    let k = choose|k: int| 0 <= k < nl.len() && nl[k] == '\n';
                    if k < p.last().len() {
                        assert(p.last()[k] == '\n');
                    }
                }
            }
            assert forall|i: int| 0 <= i < split_lf(s).len() implies !(#[trigger] split_lf(s)[i]).contains('\n') by {
                if i < p.len() - 1 {
                    assert(split_lf(s)[i] == p[i]);
                }
            }
        } else {
            assert forall|i: int| 0 <= i < split_lf(s).len() implies !(#[trigger] split_lf(s)[i]).contains('\n') by {
                if i < p.len() {
                    assert(split_lf(s)[i] == p[i]);
                } else {
                    assert(split_lf(s)[i] =~= Seq::<char>::empty());
                }
            }
        }
    }
}

proof fn lemma_lines_no_lf(s: Seq<char>)
    ensures
        forall|i: int| 0 <= i < lines_of(s).len() ==> !(#[trigger] lines_of(s)[i]).contains('\n'),
{
    lemma_split_lf_no_lf(s);
    crate::lines::lemma_split_lf_nonempty(s);
    let pieces = split_lf(s);
    let ended = pieces.drop_last().map_values(|l: Seq<char>| strip_cr(l));
    assert forall|i: int| 0 <= i < lines_of(s).len() implies !(#[trigger] lines_of(s)[i]).contains('\n') by {
        if i < ended.len() {
            assert(lines_of(s)[i] == ended[i]);
            assert(ended[i] == strip_cr(pieces[i]));
            assert(!pieces[i].contains('\n'));
            if pieces[i].len() > 0 && pieces[i].last() == '\r' {
                lemma_no_char_subrange(pieces[i], 0, pieces[i].len() - 1, '\n');
                assert(pieces[i].drop_last() =~= pieces[i].subrange(0, pieces[i].len() - 1));
            }
        } else {
            assert(lines_of(s) == ended.push(pieces.last()));
            assert(lines_of(s)[i] == pieces.last());
            assert(pieces[pieces.len() - 1] == pieces.last());
        }
    }
}

proof fn lemma_unfold_no_lf(ls: Seq<Seq<char>>, lenient: bool)
    requires
        forall|i: int| 0 <= i < ls.len() ==> !(#[trigger] ls[i]).contains('\n'),
    ensures
        forall|i: int| 0 <= i < unfolded(ls, lenient).logical.len() ==> !(#[trigger] unfolded(ls, lenient).logical[i]).1.contains('\n'),
    decreases ls.len(),
{
    if ls.len() > 0 {
        let init = ls.drop_last();
        assert forall|i: int| 0 <= i < init.len() implies !(#[trigger] init[i]).contains('\n') by {
            assert(init[i] == ls[i]);
        }
        lemma_unfold_no_lf(init, lenient);
        let u = unfolded(init, lenient);
        let raw = ls.last();
        assert(!raw.contains('\n')) by {
            assert(ls[ls.len() - 1] == raw);
        }
        if raw.len() > 0 {
            lemma_no_char_subrange(raw, 1, raw.len() as int, '\n');
            assert(raw.drop_first() =~= raw.subrange(1, raw.len() as int));
        }
        if crate::lines::is_continuation(raw) && u.logical.len() > 0 {
            let last = u.logical.last();
            assert(!u.logical[u.logical.len() - 1].1.contains('\n'));
            crate::document::lemma_no_char_concat(last.1, raw.drop_first(), '\n');
        }
        let v = unfolded(ls, lenient);
        assert(v == unfold_step(u, ls.len() as nat, raw, lenient));
        assert forall|i: int| 0 <= i < v.logical.len() implies !(#[trigger] v.logical[i]).1.contains('\n') by {
            if i < u.logical.len() {
                if !(crate::lines::is_continuation(raw) && u.logical.len() > 0 && i == u.logical.len() - 1) {
                    assert(v.logical[i] == u.logical[i]);
                }
            }
        }
    }
}

proof fn lemma_content_run_ok(ls: Seq<(nat, Seq<char>)>, lenient: bool)
    requires
        forall|i: int| 0 <= i < ls.len() ==> !(#[trigger] ls[i]).1.contains('\n'),
    ensures
        forall|i: int| 0 <= i < content_run(ls, lenient).lines.len() ==> parsed_line(#[trigger] content_run(ls, lenient).lines[i]),
    decreases ls.len(),
{
    if ls.len() > 0 {
        let init = ls.drop_last();
        assert forall|i: int| 0 <= i < init.len() implies !(#[trigger] init[i]).1.contains('\n') by {
            assert(init[i] == ls[i]);
        }
        lemma_content_run_ok(init, lenient);
        let l = ls.last();
        assert(!ls[ls.len() - 1].1.contains('\n'));
        let prev = content_run(init, lenient);
        assert(content_run(ls, lenient) == content_step(prev, l, lenient));
        if l.1.len() > 0 {
            if content_line_spec(l.1, l.0) is Ok {
                lemma_content_line_ok(l.1, l.0);
                let cur = content_run(ls, lenient).lines;
                assert forall|i: int| 0 <= i < cur.len() implies parsed_line(#[trigger] cur[i]) by {
                    if i < prev.lines.len() {
                        assert(cur[i] == prev.lines[i]);
                    }
                }
            }
        }
    }
}

/// A component as the tree builder makes it: a name without line break,
/// properties as `parse` gives them and none named BEGIN or END.
pub open spec fn built_ok(c: ComponentModel) -> bool
    decreases c,
{
    &&& !c.name.contains('\n')
    &&& forall|i: int|
        0 <= i < c.properties.len() ==> parsed_line(#[trigger] c.properties[i]) && !eq_ignore_case(
            c.properties[i].name,
            "BEGIN"@,
        ) && !eq_ignore_case(c.properties[i].name, "END"@)
    &&& built_ok_children(c.children)
}

/// Every tree of the sequence is [`built_ok`].
pub open spec fn built_ok_children(cs: Seq<ComponentModel>) -> bool
    decreases cs,
{
    cs.len() == 0 || (built_ok_children(cs.drop_last()) && built_ok(cs.last()))
}

spec fn state_ok(st: TreeModel) -> bool {
    &&& forall|i: int| 0 <= i < st.stack.len() ==> built_ok(#[trigger] st.stack[i])
    &&& st.root matches Some(r) ==> built_ok(r)
}

proof fn lemma_tree_ok(ls: Seq<LineModel>, lenient: bool)
    requires
        forall|i: int| 0 <= i < ls.len() ==> parsed_line(#[trigger] ls[i]),
    ensures
        state_ok(tree_run(ls, lenient)),
    decreases ls.len(),
{
    if ls.len() > 0 {
        let init = ls.drop_last();
        assert forall|i: int| 0 <= i < init.len() implies parsed_line(#[trigger] init[i]) by {
            assert(init[i] == ls[i]);
        }
        lemma_tree_ok(init, lenient);
        let st = tree_run(init, lenient);
        let l = ls.last();
        assert(parsed_line(ls[ls.len() - 1]));
        let nx = tree_run(ls, lenient);
        assert(nx == tree_step(st, l, lenient));
        if st.error is None {
            if eq_ignore_case(l.name, "BEGIN"@) {
                let e = empty_component(l.value);
                assert(built_ok(e));
                assert forall|i: int| 0 <= i < nx.stack.len() implies built_ok(#[trigger] nx.stack[i]) by {
                    if i < st.stack.len() {
                        assert(nx.stack[i] == st.stack[i]);
                    }
                }
            } else if eq_ignore_case(l.name, "END"@) {
                if st.stack.len() > 0 {
                    let ended = st.stack.last();
                    let rest = st.stack.drop_last();
                    assert(built_ok(st.stack[st.stack.len() - 1]));
                    if rest.len() > 0 {
                        let top = rest.last();
                        assert(built_ok(st.stack[rest.len() - 1]));
                        let nt = with_child(top, ended);
                        assert(nt.children.drop_last() =~= top.children);
                        assert(built_ok(nt));
                        assert forall|i: int| 0 <= i < nx.stack.len() implies built_ok(#[trigger] nx.stack[i]) by {
                            if i < rest.len() - 1 {
                                assert(nx.stack[i] == st.stack[i]);
                            }
                        }
                    } else {
                        assert forall|i: int| 0 <= i < nx.stack.len() implies built_ok(#[trigger] nx.stack[i]) by {
                            assert(nx.stack[i] == st.stack[i]);
                        }
                    }
                }
            } else if st.stack.len() > 0 {
                let top = st.stack.last();
                assert(built_ok(st.stack[st.stack.len() - 1]));
                let nt = with_property(top, l);
                assert forall|i: int| 0 <= i < nt.properties.len() implies parsed_line(#[trigger] nt.properties[i])
                    && !eq_ignore_case(nt.properties[i].name, "BEGIN"@) && !eq_ignore_case(nt.properties[i].name, "END"@) by {
                    if i < top.properties.len() {
                        assert(nt.properties[i] == top.properties[i]);
                    }
                }
                assert(built_ok(nt));
                assert forall|i: int| 0 <= i < nx.stack.len() implies built_ok(#[trigger] nx.stack[i]) by {
                    if i < st.stack.len() - 1 {
                        assert(nx.stack[i] == st.stack[i]);
                    }
                }
            }
        }
    }
}

/// The parameters of a line have ASCII names and no double quote in
/// their names and values.
pub open spec fn plain_params(l: LineModel) -> bool {
    forall|i: int|
        0 <= i < l.params.len() ==> {
            let p = #[trigger] l.params[i];
            &&& all_ascii(p.name)
            &&& !p.name.contains('"')
            &&& forall|k: int| 0 <= k < p.values.len() ==> !(#[trigger] p.values[k]).contains('"')
        }
}

/// A tree whose component and parameter names are ASCII and whose
/// parameters hold no double quote.
pub open spec fn plain_names(c: ComponentModel) -> bool
    decreases c,
{
    &&& all_ascii(c.name)
    &&& forall|i: int| 0 <= i < c.properties.len() ==> plain_params(#[trigger] c.properties[i])
    &&& plain_names_children(c.children)
}

/// Every tree of the sequence is [`plain_names`].
pub open spec fn plain_names_children(cs: Seq<ComponentModel>) -> bool
    decreases cs,
{
    cs.len() == 0 || (plain_names_children(cs.drop_last()) && plain_names(cs.last()))
}

proof fn lemma_decoded_line_writable(l: LineModel)
    requires
        parsed_line(l),
        !eq_ignore_case(l.name, "BEGIN"@),
        !eq_ignore_case(l.name, "END"@),
        plain_params(decode_line(l)),
    ensures
        writable_line(decode_line(l)),
{
    let d = decode_line(l);
    assert(d.name == l.name && d.params == l.params);
    assert forall|i: int| 0 <= i < d.params.len() implies round_trippable_param(#[trigger] d.params[i])
        && param_on_one_line(d.params[i]) by {
        assert(parsed_param(l.params[i]));
        let p = d.params[i];
        assert(all_ascii(p.name) && !p.name.contains('"'));
    }
}

/// Decoding a built tree whose names are plain gives a writable tree.
proof fn lemma_decoded_writable(r: ComponentModel)
    requires
        built_ok(r),
        plain_names(decoded_component(r)),
    ensures
        writable(decoded_component(r)),
    decreases r,
{
    let d = decoded_component(r);
    assert forall|i: int| 0 <= i < d.properties.len() implies writable_line(#[trigger] d.properties[i]) by {
        assert(d.properties[i] == decode_line(r.properties[i]));
        assert(plain_params(d.properties[i]));
        lemma_decoded_line_writable(r.properties[i]);
    }
    lemma_decoded_children_writable(r.children);
}

/// [`lemma_decoded_writable`] for each tree of a sequence.
proof fn lemma_decoded_children_writable(rs: Seq<ComponentModel>)
    requires
        built_ok_children(rs),
        plain_names_children(decoded_children(rs)),
    ensures
        writable_children(decoded_children(rs)),
    decreases rs,
{
    if rs.len() > 0 {
        let d = decoded_children(rs);
        assert(d.drop_last() =~= decoded_children(rs.drop_last()));
        assert(d.last() == decoded_component(rs.last()));
        lemma_decoded_children_writable(rs.drop_last());
        lemma_decoded_writable(rs.last());
    }
}

/// What a strict parse gives is a calendar that can be written and read
/// back, when its component and parameter names are ASCII and its
/// parameters hold no double quote: it is [`writable`], a VCALENDAR, and
/// has VERSION and PRODID.
pub proof fn parsed_calendar_is_writable(input: Seq<char>)
    requires
        parse_spec(input, false) is Ok,
        plain_names(parse_spec(input, false)->Ok_0.0),
    ensures
        writable(parse_spec(input, false)->Ok_0.0),
        eq_ignore_case(parse_spec(input, false)->Ok_0.0.name, "VCALENDAR"@),
        has_property(parse_spec(input, false)->Ok_0.0, "VERSION"@),
        has_property(parse_spec(input, false)->Ok_0.0, "PRODID"@),
{
    let u = unfolded(lines_of(input), false);
    lemma_lines_no_lf(input);
    lemma_unfold_no_lf(lines_of(input), false);
    lemma_content_run_ok(u.logical, false);
    let ws = content_lines_of(input, false);
    lemma_tree_ok(ws, false);
    let st = tree_run(ws, false);
    let r = tree_outcome(st)->Ok_0;
    assert(built_ok(r));
    let t = decoded_component(r);
    assert(parse_spec(input, false)->Ok_0.0 == t);
    lemma_decoded_writable(r);
    // the checks on the top level
    if !has_property(r, "VERSION"@) {
        strict_requires_version(input);
    }
    if !has_property(r, "PRODID"@) {
        strict_requires_prodid(input);
    }
    if !eq_ignore_case(r.name, "VCALENDAR"@) {
        let pre = line_diags(input, false);
        let h = header_diags(r, false);
        let all = pre + st.diags + validate_diags(r, false);
        let first = seq![general(Severity::Error, msg_not_vcalendar(r.name))];
        let rest_h: Seq<crate::DiagnosticModel> = (if !has_property(r, "VERSION"@) {
            seq![general(Severity::Error, crate::parser::msg_missing_version())]
        } else {
            Seq::empty()
        }) + (if !has_property(r, "PRODID"@) {
            seq![general(Severity::Error, crate::parser::msg_missing_prodid())]
        } else {
            Seq::empty()
        }) + (if r.children.len() == 0 {
            seq![general(Severity::Warning, crate::parser::msg_no_children())]
        } else {
            Seq::empty()
        });
        assert(h =~= first + rest_h);
        assert(all =~= pre + st.diags + h + crate::parser::decode_diags(r, false));
        assert(h[0] == general(Severity::Error, msg_not_vcalendar(r.name)));
        assert(all[(pre.len() + st.diags.len()) as int] == h[0]);
        assert(all[(pre.len() + st.diags.len()) as int].severity == Severity::Error);
        assert(has_error(all));
    }
    let v = choose|i: int| 0 <= i < r.properties.len() && eq_ignore_case(#[trigger] r.properties[i].name, "VERSION"@);
    assert(t.properties[v] == decode_line(r.properties[v]));
    let q = choose|i: int| 0 <= i < r.properties.len() && eq_ignore_case(#[trigger] r.properties[i].name, "PRODID"@);
    assert(t.properties[q] == decode_line(r.properties[q]));
}

/// The document laws for what a strict parse gives: printing it and
/// parsing the text again in strict mode gives the calendar back with its
/// component, property and parameter names uppercased (line numbers set
/// aside), and printing that gives the same text. The calendar's component
/// and parameter names must be ASCII and its parameters must hold no
/// double quote.
pub proof fn parsed_calendar_round_trips(input: Seq<char>)
    requires
        parse_spec(input, false) is Ok,
        plain_names(parse_spec(input, false)->Ok_0.0),
    ensures
        parse_spec(component_text(parse_spec(input, false)->Ok_0.0), false) matches Ok((t2, _)) && erase_comp(t2)
            == reread(parse_spec(input, false)->Ok_0.0) && component_text(t2) == component_text(
            parse_spec(input, false)->Ok_0.0,
        ),
{
    parsed_calendar_is_writable(input);
    let t = parse_spec(input, false)->Ok_0.0;
    printed_calendar_parses_back(t);
    printing_is_stable(t);
}

} // verus!
