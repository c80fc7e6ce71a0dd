//! Pretty printing: uppercase component and parameter names, CRLF line
//! endings, TEXT values re-escaped, and lines folded at 75 octets.
use vstd::prelude::*;

use crate::chars::{
    char_octets, char_width, chars_of, lemma_octets_push, octets, push_char, push_chars,
    str_octets, to_uppercase, uppercased,
};
use crate::lines::{
    is_continuation, lemma_split_lf_append_plain, lemma_split_lf_nonempty, lemma_split_lf_push_lf,
    lines_of, split_lf, strip_cr, unfold_step, unfolded,
};
use crate::content::unquote_spec;
use crate::parser::decode_line;
use crate::text::{
    escape, escaped, is_text_property, is_text_property_name, rfc_text_name, rfc_text_names_are_text,
    unescape_inverts_escape, unescaped,
};
use crate::{
    component_model, components_model, lemma_components_model, Component, ComponentModel,
    ContentLine, LineModel, ParamModel,
};
use vstd::string::StringExecFns;

verus! {

/// The longest physical line, in octets, not counting its CRLF.
pub open spec fn fold_width() -> nat {
    75
}

/// Number of leading characters of `s` whose encoding fits in `budget` octets.
pub open spec fn fit_count(s: Seq<char>, budget: nat) -> nat
    decreases s.len(),
{
    if s.len() == 0 {
        0
    } else if char_octets(s[0]) > budget {
        0
    } else {
        1 + fit_count(s.drop_first(), (budget - char_octets(s[0])) as nat)
    }
}

/// The CRLF line terminator.
pub open spec fn crlf() -> Seq<char> {
    seq!['\r', '\n']
}

/// Folding of the characters that remain after the first physical line
/// (`first` false) or of a whole over-long line (`first` true): each physical
/// line takes as many characters as fit in 75 octets, continuation lines
/// start with one space that counts against that budget.
pub open spec fn fold_from(s: Seq<char>, first: bool) -> Seq<char>
    decreases s.len(),
{
    let k = fit_count(s, if first { 75 } else { 74 });
    if s.len() == 0 || k == 0 || k > s.len() {
        Seq::empty()
    } else {
        (if first { Seq::empty() } else { seq![' '] }) + s.take(k as int) + crlf() + fold_from(
            s.skip(k as int),
            false,
        )
    }
}

/// One logical line as it is written: followed by CRLF, folded when its
/// encoding is longer than 75 octets.
pub open spec fn folded(s: Seq<char>) -> Seq<char> {
    if octets(s) <= fold_width() {
        s + crlf()
    } else {
        fold_from(s, true)
    }
}

pub proof fn lemma_fit_count_bound(s: Seq<char>, budget: nat)
    ensures
        fit_count(s, budget) <= s.len(),
        s.len() > 0 && budget >= 4 ==> fit_count(s, budget) >= 1,
    decreases s.len(),
{
    if s.len() > 0 {
        lemma_octets_push(Seq::empty(), s[0]);
        if char_octets(s[0]) <= budget {
            lemma_fit_count_bound(s.drop_first(), (budget - char_octets(s[0])) as nat);
        }
    }
}

/// Writes one logical line, folded, followed by CRLF.
pub fn push_folded(line: &str, out: &mut String)
    ensures
        final(out)@ == old(out)@ + folded(line@),
{
    let n = str_octets(line);
    if n <= 75 {
        out.append(line);
        out.append("\r\n");
        proof {
            reveal_strlit("\r\n");
        }
        assert(old(out)@ + line@ + "\r\n"@ =~= old(out)@ + (line@ + crlf()));
        return;
    }
    let v = chars_of(line);
    let mut start: usize = 0;
    let mut first = true;
    let ghost produced: Seq<char> = Seq::empty();
    assert(v@.skip(0) =~= v@);
    while start < v.len()
        invariant
            v@ == line@,
            start <= v@.len(),
            out@ == old(out)@ + produced,
            produced + fold_from(v@.skip(start as int), first) == fold_from(v@, true),
        decreases v@.len() - start,
    {
        let budget: usize = if first { 75 } else { 74 };
        let ghost rest = v@.skip(start as int);
        let mut end: usize = start;
        let mut used: usize = 0;
        while end < v.len() && used + char_width(v[end]) <= budget
            invariant
                v@ == line@,
                start <= end <= v@.len(),
                used <= budget <= 75,
                rest == v@.skip(start as int),
                fit_count(rest, budget as nat) == (end - start) + fit_count(
                    v@.skip(end as int),
                    (budget - used) as nat,
                ),
            decreases v@.len() - end,
        {
            let w = char_width(v[end]);
            assert(v@.skip(end as int).drop_first() =~= v@.skip(end + 1));
            used = used + w;
            end = end + 1;
        }
        proof {
            if end < v@.len() {
                assert(v@.skip(end as int)[0] == v@[end as int]);
            }
            assert(fit_count(v@.skip(end as int), (budget - used) as nat) == 0);
            lemma_fit_count_bound(rest, budget as nat);
            assert(rest.take((end - start) as int) =~= v@.subrange(start as int, end as int));
            assert(rest.skip((end - start) as int) =~= v@.skip(end as int));
        }
        let ghost before = out@;
        if !first {
            push_char(out, ' ');
        }
        push_chars(out, &v, start, end);
        push_char(out, '\r');
        push_char(out, '\n');
        proof {
            let piece = (if first { Seq::empty() } else { seq![' '] }) + v@.subrange(
                start as int,
                end as int,
            ) + crlf();
            assert(out@ =~= before + piece);
            assert(fold_from(rest, first) == piece + fold_from(v@.skip(end as int), false));
            let prev = produced;
            produced = prev + piece;
            assert(produced + fold_from(v@.skip(end as int), false) =~= prev + (piece + fold_from(
                v@.skip(end as int),
                false,
            )));
        }
        start = end;
        first = false;
    }
    proof {
        assert(v@.skip(start as int) =~= Seq::<char>::empty());
        assert(produced + Seq::<char>::empty() =~= produced);
    }
}

/// Whether a parameter value must be written in double quotes.
pub open spec fn needs_quotes(v: Seq<char>) -> bool {
    v.contains(':') || v.contains(';') || v.contains(',')
}

/// A parameter value as written: quoted when it holds `:`, `;` or `,`.
pub open spec fn rendered_param_value(v: Seq<char>) -> Seq<char> {
    if needs_quotes(v) {
        seq!['"'] + v + seq!['"']
    } else {
        v
    }
}

/// The values of one parameter as written, separated by commas.
pub open spec fn rendered_values(vals: Seq<Seq<char>>) -> Seq<char>
    decreases vals.len(),
{
    if vals.len() == 0 {
        Seq::empty()
    } else if vals.len() == 1 {
        rendered_param_value(vals[0])
    } else {
        rendered_values(vals.drop_last()) + seq![','] + rendered_param_value(vals.last())
    }
}

/// The parameters of a property as written, `;NAME=v1,v2` for each, with
/// the given (uppercased) names in place of the parameters' own.
pub open spec fn rendered_params_named(ps: Seq<ParamModel>, names: Seq<Seq<char>>) -> Seq<char>
    decreases ps.len(),
{
    if ps.len() == 0 {
        Seq::empty()
    } else {
        rendered_params_named(ps.drop_last(), names.drop_last()) + seq![';'] + names.last() + seq!['=']
            + rendered_values(ps.last().values)
    }
}

/// The uppercased names of a sequence of parameters.
pub open spec fn upper_param_names(ps: Seq<ParamModel>) -> Seq<Seq<char>> {
    ps.map_values(|p: ParamModel| uppercased(p.name))
}

/// The value of a property as written: TEXT values are escaped, others
/// pass through unchanged.
pub open spec fn rendered_value(l: LineModel) -> Seq<char> {
    if is_text_property(l.name) {
        escaped(l.value)
    } else {
        l.value
    }
}

/// A property as one logical line, before folding, with the given
/// (uppercased) property and parameter names.
pub open spec fn rendered_property_named(l: LineModel, name: Seq<char>, param_names: Seq<Seq<char>>) -> Seq<
    char,
> {
    name + rendered_params_named(l.params, param_names) + seq![':'] + rendered_value(l)
}

/// A property as one logical line, before folding.
pub open spec fn rendered_property(l: LineModel) -> Seq<char> {
    rendered_property_named(l, uppercased(l.name), upper_param_names(l.params))
}

/// The properties of a component as written, one folded line each.
pub open spec fn properties_text(ls: Seq<LineModel>) -> Seq<char>
    decreases ls.len(),
{
    if ls.len() == 0 {
        Seq::empty()
    } else {
        properties_text(ls.drop_last()) + folded(rendered_property(ls.last()))
    }
}

/// The `BEGIN:NAME` line of a component.
pub open spec fn begin_line(name: Seq<char>) -> Seq<char> {
    "BEGIN:"@ + uppercased(name)
}

/// The `END:NAME` line of a component.
pub open spec fn end_line(name: Seq<char>) -> Seq<char> {
    "END:"@ + uppercased(name)
}

/// A component as written: its BEGIN line, its properties, its children
/// in order, and its END line.
pub open spec fn component_text(c: ComponentModel) -> Seq<char>
    decreases c,
{
    folded(begin_line(c.name)) + properties_text(c.properties) + children_text(c.children)
        + folded(end_line(c.name))
}

/// A sequence of components as written, one after another.
pub open spec fn children_text(cs: Seq<ComponentModel>) -> Seq<char>
    decreases cs,
{
    if cs.len() == 0 {
        Seq::empty()
    } else {
        children_text(cs.drop_last()) + component_text(cs.last())
    }
}

/// Quotes a parameter value when it holds a character that would end it.
pub fn render_param_value(v: &str) -> (r: String)
    ensures
        r@ == rendered_param_value(v@),
{
    let cs = chars_of(v);
    let mut special = false;
    let mut i: usize = 0;
    while i < cs.len()
        invariant
            cs@ == v@,
            i <= cs@.len(),
            special == exists|k: int| 0 <= k < i && (cs@[k] == ':' || cs@[k] == ';' || cs@[k] == ','),
        decreases cs@.len() - i,
    {
        let c = cs[i];
        if c == ':' || c == ';' || c == ',' {
            special = true;
        }
        i = i + 1;
    }
    proof {
        if special {
            let k = choose|k: int| 0 <= k < cs@.len() && (cs@[k] == ':' || cs@[k] == ';' || cs@[k] == ',');
            assert(cs@[k] == ':' ==> v@.contains(':'));
            assert(cs@[k] == ';' ==> v@.contains(';'));
            assert(cs@[k] == ',' ==> v@.contains(','));
        }
        if needs_quotes(v@) {
            if v@.contains(':') {
                let k = choose|k: int| 0 <= k < v@.len() && v@[k] == ':';
                assert(0 <= k < i && (cs@[k] == ':' || cs@[k] == ';' || cs@[k] == ','));
            } else if v@.contains(';') {
                let k = choose|k: int| 0 <= k < v@.len() && v@[k] == ';';
                assert(0 <= k < i && (cs@[k] == ':' || cs@[k] == ';' || cs@[k] == ','));
            } else {
                let k = choose|k: int| 0 <= k < v@.len() && v@[k] == ',';
                assert(0 <= k < i && (cs@[k] == ':' || cs@[k] == ';' || cs@[k] == ','));
            }
        }
    }
    let mut out = String::new();
    if special {
        push_char(&mut out, '"');
        out.append(v);
        push_char(&mut out, '"');
        assert(out@ =~= seq!['"'] + v@ + seq!['"']);
    } else {
        out.append(v);
        assert(out@ =~= v@);
    }
    out
}

/// Renders a property as one logical line from the names it is to be
/// written with: `name`, the parameters under `param_names` with their
/// values, `:`, and the value (escaped when it is TEXT).
pub fn render_property_named(prop: &ContentLine, name: &str, param_names: &Vec<String>) -> (r: String)
    requires
        param_names@.len() == prop.params@.len(),
    ensures
        r@ == rendered_property_named(prop@, name@, param_names@.map_values(|n: String| n@)),
{
    let ghost pm = prop@.params;
    let ghost nm = param_names@.map_values(|n: String| n@);
    let mut line = String::from_str(name);
    let mut j: usize = 0;
    assert(pm.take(0) =~= Seq::<ParamModel>::empty());
    assert(line@ =~= name@ + rendered_params_named(pm.take(0), nm.take(0)));
    while j < prop.params.len()
        invariant
            pm == prop@.params,
            nm == param_names@.map_values(|n: String| n@),
            param_names@.len() == prop.params@.len(),
            j <= prop.params@.len(),
            line@ == name@ + rendered_params_named(pm.take(j as int), nm.take(j as int)),
        decreases prop.params@.len() - j,
    {
        let param = &prop.params[j];
        push_char(&mut line, ';');
        line.append(param_names[j].as_str());
        push_char(&mut line, '=');
        let ghost vals = param@.values;
        let ghost mid = line@;
        let mut k: usize = 0;
        assert(vals.take(0) =~= Seq::<Seq<char>>::empty());
        while k < param.values.len()
            invariant
                vals == param@.values,
                k <= param.values@.len(),
                line@ == mid + rendered_values(vals.take(k as int)),
            decreases param.values@.len() - k,
        {
            if k > 0 {
                push_char(&mut line, ',');
            }
            let rv = render_param_value(param.values[k].as_str());
            line.append(rv.as_str());
            proof {
                assert(vals.take(k + 1).drop_last() =~= vals.take(k as int));
                if k == 0 {
                    assert(rendered_values(vals.take(0)) =~= Seq::<char>::empty());
                    assert(line@ =~= mid + rendered_values(vals.take(k + 1)));
                } else {
                    assert(line@ =~= mid + rendered_values(vals.take(k + 1)));
                }
            }
            k = k + 1;
        }
        proof {
            assert(vals.take(k as int) =~= vals);
            assert(pm.take(j + 1).drop_last() =~= pm.take(j as int));
            assert(nm.take(j + 1).drop_last() =~= nm.take(j as int));
            assert(nm.take(j + 1).last() == param_names@[j as int]@);
            assert(pm[j as int] == param@);
            assert(line@ =~= name@ + rendered_params_named(pm.take(j + 1), nm.take(j + 1)));
        }
        j = j + 1;
    }
    assert(pm.take(j as int) =~= pm);
    assert(nm.take(j as int) =~= nm);
    push_char(&mut line, ':');
    let name_chars = chars_of(prop.name.as_str());
    if is_text_property_name(&name_chars) {
        let e = escape(prop.value.as_str());
        line.append(e.as_str());
    } else {
        line.append(prop.value.as_str());
    }
    assert(line@ =~= rendered_property_named(prop@, name@, nm));
    line
}

/// Renders a property as one logical line: uppercased name, parameters,
/// `:`, and the value (escaped when it is TEXT).
fn render_property(prop: &ContentLine) -> (r: String)
    ensures
        r@ == rendered_property(prop@),
{
    let up = to_uppercase(prop.name.as_str());
    let mut names: Vec<String> = Vec::new();
    let mut j: usize = 0;
    while j < prop.params.len()
        invariant
            j <= prop.params@.len(),
            names@.len() == j,
            forall|k: int| 0 <= k < j ==> #[trigger] names@[k]@ == uppercased(prop.params@[k].name@),
        decreases prop.params@.len() - j,
    {
        names.push(to_uppercase(prop.params[j].name.as_str()));
        j = j + 1;
    }
    assert(names@.map_values(|n: String| n@) =~= upper_param_names(prop@.params));
    render_property_named(prop, up.as_str(), &names)
}

/// Writes a component, its properties and, recursively, its children.
pub fn write_component(component: &Component, out: &mut String)
    ensures
        final(out)@ == old(out)@ + component_text(component@),
    decreases component,
{
    let ghost cm = component@;
    let mut begin = String::from_str("BEGIN:");
    let up = to_uppercase(component.name.as_str());
    begin.append(up.as_str());
    push_folded(begin.as_str(), out);
    let ghost after_begin = out@;
    let ghost lm = cm.properties;
    let mut i: usize = 0;
    assert(lm.take(0) =~= Seq::<LineModel>::empty());
    while i < component.properties.len()
        invariant
            cm == component@,
            lm == cm.properties,
            i <= component.properties@.len(),
            out@ == after_begin + properties_text(lm.take(i as int)),
        decreases component.properties@.len() - i,
    {
        let r = render_property(&component.properties[i]);
        push_folded(r.as_str(), out);
        assert(lm.take(i + 1).drop_last() =~= lm.take(i as int));
        assert(out@ =~= after_begin + properties_text(lm.take(i + 1)));
        i = i + 1;
    }
    assert(lm.take(i as int) =~= lm);
    let ghost after_props = out@;
    let ghost kids = cm.children;
    proof {
        lemma_components_model(component.children@);
    }
    let mut j: usize = 0;
    assert(kids.take(0) =~= Seq::<ComponentModel>::empty());
    while j < component.children.len()
        invariant
            cm == component@,
            kids == cm.children,
            kids == components_model(component.children@),
            kids.len() == component.children@.len(),
            forall|k: int| 0 <= k < kids.len() ==> #[trigger] kids[k] == component_model(component.children@[k]),
            j <= component.children@.len(),
            out@ == after_props + children_text(kids.take(j as int)),
        decreases component.children@.len() - j,
    {
        let child = &component.children[j];
        proof {
            assert(decreases_to!(*component => component.children));
            assert(decreases_to!(component.children => component.children@));
            assert(decreases_to!(component.children@ => component.children@[j as int]));
        }
        write_component(child, out);
        assert(kids.take(j + 1).drop_last() =~= kids.take(j as int));
        assert(out@ =~= after_props + children_text(kids.take(j + 1)));
        j = j + 1;
    }
    assert(kids.take(j as int) =~= kids);
    let mut end = String::from_str("END:");
    end.append(up.as_str());
    push_folded(end.as_str(), out);
    assert(out@ =~= old(out)@ + component_text(cm));
}

/// Render a component tree back into RFC 5545 text: uppercase component and
/// parameter names, CRLF line endings, and lines folded at 75 octets.
pub fn print(calendar: &Component) -> (r: String)
    ensures
        r@ == component_text(calendar@),
{
    let mut out = String::new();
    write_component(calendar, &mut out);
    assert(out@ =~= component_text(calendar@));
    out
}

/// The physical lines that folding writes, without their CRLF.
pub open spec fn fold_lines(s: Seq<char>, first: bool) -> Seq<Seq<char>>
    decreases s.len(),
{
    let k = fit_count(s, if first { 75 } else { 74 });
    if s.len() == 0 || k == 0 || k > s.len() {
        Seq::empty()
    } else {
        seq![(if first { Seq::empty() } else { seq![' '] }) + s.take(k as int)] + fold_lines(
            s.skip(k as int),
            false,
        )
    }
}

proof fn lemma_no_lf_subrange(s: Seq<char>, a: int, b: int)
    requires
        0 <= a <= b <= s.len(),
        !s.contains('\n'),
    ensures
        !s.subrange(a, b).contains('\n'),
{
    if s.subrange(a, b).contains('\n') {
        let i = choose|i: int| 0 <= i < b - a && s.subrange(a, b)[i] == '\n';
        assert(s[a + i] == '\n');
    }
}

/// Splitting at `\n` what folding wrote after a line start gives its
/// physical lines, each still ending in `\r`.
pub proof fn lemma_fold_split(x: Seq<char>, s: Seq<char>, first: bool)
    requires
        split_lf(x).len() >= 1,
        split_lf(x).last().len() == 0,
        !s.contains('\n'),
    ensures
        split_lf(x + fold_from(s, first)) == split_lf(x).drop_last() + fold_lines(s, first).map_values(
            |l: Seq<char>| l.push('\r'),
        ) + seq![Seq::<char>::empty()],
    decreases s.len(),
{
    let p = split_lf(x);
    let k = fit_count(s, if first { 75 } else { 74 });
    if s.len() == 0 || k == 0 || k > s.len() {
        assert(x + fold_from(s, first) =~= x);
        assert(p.last() =~= Seq::<char>::empty());
        assert(fold_lines(s, first).map_values(|l: Seq<char>| l.push('\r')) =~= Seq::<Seq<char>>::empty());
        assert(p.drop_last() + Seq::<Seq<char>>::empty() + seq![Seq::<char>::empty()] =~= p);
    } else {
        let pre: Seq<char> = if first { Seq::empty() } else { seq![' '] };
        let chunk = s.take(k as int);
        let line = pre + chunk;
        let body = line.push('\r');
        let rest = s.skip(k as int);
        assert(!body.contains('\n')) by {
            lemma_no_lf_subrange(s, 0, k as int);
            assert(chunk =~= s.subrange(0, k as int));
            if body.contains('\n') {
                let i = choose|i: int| 0 <= i < body.len() && body[i] == '\n';
                if i < pre.len() {
                    assert(pre[i] == '\n');
                } else if i < line.len() {
                    assert(chunk[i - pre.len()] == '\n');
                }
            }
        }
        lemma_split_lf_append_plain(x, body);
        lemma_split_lf_push_lf(x + body);
        let x2 = (x + body).push('\n');
        assert(p.last() + body =~= body);
        assert(split_lf(x2) == p.update(p.len() - 1, body).push(Seq::empty()));
        lemma_split_lf_nonempty(x2);
        lemma_no_lf_subrange(s, k as int, s.len() as int);
        assert(rest =~= s.subrange(k as int, s.len() as int));
        lemma_fold_split(x2, rest, false);
        assert(x + fold_from(s, first) =~= x2 + fold_from(rest, false));
        let tail = fold_lines(rest, false).map_values(|l: Seq<char>| l.push('\r'));
        assert(fold_lines(s, first).map_values(|l: Seq<char>| l.push('\r')) =~= seq![body] + tail);
        assert(split_lf(x2).drop_last() =~= p.drop_last().push(body));
        assert(split_lf(x + fold_from(s, first)) =~= p.drop_last() + (seq![body] + tail) + seq![
            Seq::<char>::empty(),
        ]);
    }
}

/// The lines that the parser reads from a folded line are its physical lines.
pub proof fn lemma_lines_of_folded(s: Seq<char>)
    requires
        !s.contains('\n'),
    ensures
        lines_of(folded(s)) == if octets(s) <= fold_width() {
            seq![s]
        } else {
            fold_lines(s, true)
        },
{
    let e = Seq::<char>::empty();
    assert(split_lf(e) == seq![e]);
    if octets(s) <= fold_width() {
        let body = s.push('\r');
        assert(!body.contains('\n')) by {
            if body.contains('\n') {
                let i = choose|i: int| 0 <= i < body.len() && body[i] == '\n';
                assert(s[i] == '\n');
            }
        }
        lemma_split_lf_append_plain(e, body);
        assert(e + body =~= body);
        lemma_split_lf_push_lf(body);
        assert(folded(s) =~= body.push('\n'));
        assert(split_lf(folded(s)) =~= seq![body, e]);
        assert(strip_cr(body) == s);
        assert(lines_of(folded(s)) =~= seq![s]);
    } else {
        lemma_fold_split(e, s, true);
        assert(e + fold_from(s, true) =~= fold_from(s, true));
        let ls = fold_lines(s, true);
        let pieces = split_lf(folded(s));
        assert(pieces =~= ls.map_values(|l: Seq<char>| l.push('\r')) + seq![e]);
        assert(pieces.drop_last() =~= ls.map_values(|l: Seq<char>| l.push('\r')));
        assert forall|i: int| 0 <= i < ls.len() implies #[trigger] strip_cr(ls[i].push('\r')) == ls[i] by {
            assert(ls[i].push('\r').drop_last() =~= ls[i]);
        }
        assert(lines_of(folded(s)) =~= ls);
    }
}

proof fn lemma_octets_cons(c: char, t: Seq<char>)
    ensures
        octets(seq![c] + t) == char_octets(c) + octets(t),
{
    assert((seq![c] + t).drop_first() =~= t);
    assert((seq![c] + t)[0] == c);
}

proof fn lemma_fit_octets(s: Seq<char>, b: nat)
    ensures
        fit_count(s, b) <= s.len(),
        octets(s.take(fit_count(s, b) as int)) <= b,
    decreases s.len(),
{
    lemma_fit_count_bound(s, b);
    if s.len() == 0 || char_octets(s[0]) > b {
        assert(s.take(0) =~= Seq::<char>::empty());
    } else {
        let w = char_octets(s[0]);
        let t = s.drop_first();
        let k = fit_count(s, b);
        lemma_fit_octets(t, (b - w) as nat);
        assert(s.take(k as int) =~= seq![s[0]] + t.take(k - 1));
        lemma_octets_cons(s[0], t.take(k - 1));
    }
}

proof fn lemma_fold_lines_fit(s: Seq<char>, first: bool)
    ensures
        forall|i: int| 0 <= i < fold_lines(s, first).len() ==> octets(#[trigger] fold_lines(s, first)[i]) <= fold_width(),
    decreases s.len(),
{
    let b: nat = if first { 75 } else { 74 };
    let k = fit_count(s, b);
    if !(s.len() == 0 || k == 0 || k > s.len()) {
        lemma_fit_octets(s, b);
        lemma_fold_lines_fit(s.skip(k as int), false);
        let chunk = s.take(k as int);
        let line = (if first { Seq::empty() } else { seq![' '] }) + chunk;
        if first {
            assert(line =~= chunk);
        } else {
            lemma_octets_cons(' ', chunk);
            assert(char_octets(' ') == 1);
        }
        let ls = fold_lines(s, first);
        assert(ls =~= seq![line] + fold_lines(s.skip(k as int), false));
        assert forall|i: int| 0 <= i < ls.len() implies octets(#[trigger] ls[i]) <= fold_width() by {
            if i > 0 {
                assert(ls[i] == fold_lines(s.skip(k as int), false)[i - 1]);
            }
        }
    }
}

/// Every physical line that folding writes fits in 75 octets, as RFC 5545
/// asks; the parser reads exactly these lines back.
pub proof fn folded_lines_fit(s: Seq<char>)
    requires
        !s.contains('\n'),
    ensures
        forall|i: int| 0 <= i < lines_of(folded(s)).len() ==> octets(#[trigger] lines_of(folded(s))[i])
            <= fold_width(),
{
    lemma_lines_of_folded(s);
    if !(octets(s) <= fold_width()) {
        lemma_fold_lines_fit(s, true);
    }
}

/// Unfolding the continuation lines that folding writes appends their text
/// to the last logical line read so far, with no diagnostic.
pub proof fn lemma_unfold_continuations(pre_lines: Seq<Seq<char>>, rest: Seq<char>, lenient: bool)
    requires
        unfolded(pre_lines, lenient).logical.len() > 0,
    ensures
        unfolded(pre_lines + fold_lines(rest, false), lenient).diags == unfolded(pre_lines, lenient).diags,
        unfolded(pre_lines + fold_lines(rest, false), lenient).logical == unfolded(pre_lines, lenient).logical.update(
            unfolded(pre_lines, lenient).logical.len() - 1,
            (
                unfolded(pre_lines, lenient).logical.last().0,
                unfolded(pre_lines, lenient).logical.last().1 + rest,
            ),
        ),
    decreases rest.len(),
{
    lemma_fit_count_bound(rest, 74);
    let k = fit_count(rest, 74);
    let u = unfolded(pre_lines, lenient).logical;
    if rest.len() == 0 {
        assert(pre_lines + fold_lines(rest, false) =~= pre_lines);
        assert(u.last().1 + rest =~= u.last().1);
        assert(u.update(u.len() - 1, (u.last().0, u.last().1 + rest)) =~= u);
    } else {
        let chunk = rest.take(k as int);
        let line = seq![' '] + chunk;
        let l2 = pre_lines.push(line);
        assert(l2.drop_last() =~= pre_lines);
        assert(is_continuation(line));
        assert(line.drop_first() =~= chunk);
        assert(unfolded(l2, lenient) == unfold_step(unfolded(pre_lines, lenient), l2.len() as nat, line, lenient));
        let u2 = unfolded(l2, lenient).logical;
        assert(u2 == u.update(u.len() - 1, (u.last().0, u.last().1 + chunk)));
        lemma_unfold_continuations(l2, rest.skip(k as int), lenient);
        assert(pre_lines + fold_lines(rest, false) =~= l2 + fold_lines(rest.skip(k as int), false));
        assert(u.last().1 + chunk + rest.skip(k as int) =~= u.last().1 + rest);
        assert(u2.update(u2.len() - 1, (u2.last().0, u2.last().1 + rest.skip(k as int))) =~= u.update(
            u.len() - 1,
            (u.last().0, u.last().1 + rest),
        ));
    }
}

/// Folding is undone by the parser's unfolding: a line without `\n` that
/// does not itself start with a space or tab comes back whole, as one
/// logical line starting at line 1, with no diagnostic.
pub proof fn unfolding_undoes_folding(s: Seq<char>, lenient: bool)
    requires
        s.len() > 0,
        !s.contains('\n'),
        !is_continuation(s),
    ensures
        unfolded(lines_of(folded(s)), lenient).logical == seq![(1nat, s)],
        unfolded(lines_of(folded(s)), lenient).diags.len() == 0,
{
    lemma_lines_of_folded(s);
    let e = Seq::<Seq<char>>::empty();
    if octets(s) <= fold_width() {
        assert(seq![s].drop_last() =~= e);
        assert(unfolded(seq![s], lenient) == unfold_step(unfolded(e, lenient), 1, s, lenient));
        assert(unfolded(e, lenient).logical.len() == 0);
        assert(unfolded(seq![s], lenient).logical =~= seq![(1nat, s)]);
    } else {
        lemma_fit_count_bound(s, 75);
        let k = fit_count(s, 75);
        let first_line = s.take(k as int);
        let l1 = seq![first_line];
        assert(l1.drop_last() =~= e);
        assert(first_line[0] == s[0]);
        assert(unfolded(l1, lenient) == unfold_step(unfolded(e, lenient), 1, first_line, lenient));
        assert(unfolded(e, lenient).logical.len() == 0);
        assert(unfolded(e, lenient).diags.len() == 0);
        assert(unfolded(l1, lenient).logical =~= seq![(1nat, first_line)]);
        lemma_unfold_continuations(l1, s.skip(k as int), lenient);
        assert(seq![Seq::<char>::empty() + first_line] =~= l1);
        assert(fold_lines(s, true) =~= l1 + fold_lines(s.skip(k as int), false));
        assert(first_line + s.skip(k as int) =~= s);
        assert(seq![(1nat, first_line)].update(0, (1nat, first_line + s.skip(k as int))) =~= seq![(1nat, s)]);
    }
}

/// A TEXT value that the parser decoded is written re-escaped, and decoding
/// what is written gives the decoded value back.
pub proof fn written_text_value_decodes_back(l: LineModel)
    requires
        is_text_property(l.name),
        unescaped(l.value) is Ok,
    ensures
        rendered_value(decode_line(l)) == escaped(unescaped(l.value)->Ok_0),
        unescaped(rendered_value(decode_line(l))) == unescaped(l.value),
{
    unescape_inverts_escape(unescaped(l.value)->Ok_0);
}

/// Unquoting a parameter value as it is written gives the value back, when
/// the value holds no double quote.
pub proof fn unquote_inverts_rendering(v: Seq<char>)
    requires
        !v.contains('"'),
    ensures
        unquote_spec(rendered_param_value(v)) == v,
{
    if needs_quotes(v) {
        let r = seq!['"'] + v + seq!['"'];
        assert(r[0] == '"');
        assert(r.last() == '"');
        assert(r.subrange(1, r.len() - 1) =~= v);
    } else if v.len() >= 2 && v[0] == '"' {
        assert(v.contains('"'));
    }
}


/// A property of RFC 5545's TEXT list is written with its value escaped,
/// reads back decoded, and decoding what is written gives its value back.
pub proof fn rfc_text_values_are_escaped(l: LineModel)
    requires
        rfc_text_name(l.name),
    ensures
        rendered_value(l) == escaped(l.value),
        unescaped(rendered_value(l)) == Ok::<Seq<char>, int>(l.value),
        unescaped(l.value) matches Ok(v) ==> decode_line(l).value == v,
{
    rfc_text_names_are_text(l.name);
    unescape_inverts_escape(l.value);
}

} // verus!
