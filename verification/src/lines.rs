//! Physical lines of an input: splitting at line endings, the check for
//! bare LF terminators, and RFC 5545 unfolding of continuation lines.
use vstd::prelude::*;

use crate::{severity_for, severity_of, Diagnostic, DiagnosticModel, Severity};
use vstd::string::StringExecFns;

verus! {

/// The pieces of `s` between `\n` characters (like `str::split('\n')`).
pub open spec fn split_lf(s: Seq<char>) -> Seq<Seq<char>>
    decreases s.len(),
{
    if s.len() == 0 {
        seq![Seq::empty()]
    } else {
        let p = split_lf(s.drop_last());
        if s.last() == '\n' {
            p.push(Seq::empty())
        } else {
            p.update(p.len() - 1, p.last().push(s.last()))
        }
    }
}

/// A line that was ended by `\n` loses one `\r` before that `\n`.
pub open spec fn strip_cr(l: Seq<char>) -> Seq<char> {
    if l.len() > 0 && l.last() == '\r' {
        l.drop_last()
    } else {
        l
    }
}

/// The lines of a text as `str::lines` yields them: split at `\n`, a `\r`
/// right before a `\n` dropped, and no empty line after a final `\n`.
pub open spec fn lines_of(s: Seq<char>) -> Seq<Seq<char>> {
    let pieces = split_lf(s);
    let ended = pieces.drop_last().map_values(|l: Seq<char>| strip_cr(l));
    if pieces.last().len() == 0 {
        ended
    } else {
        ended.push(pieces.last())
    }
}

/// There is always at least one piece.
pub proof fn lemma_split_lf_nonempty(s: Seq<char>)
    ensures
        split_lf(s).len() >= 1,
    decreases s.len(),
{
    if s.len() > 0 {
        lemma_split_lf_nonempty(s.drop_last());
    }
}

/// Appending text without `\n` extends the last piece.
pub proof fn lemma_split_lf_append_plain(x: Seq<char>, t: Seq<char>)
    requires
        !t.contains('\n'),
    ensures
        split_lf(x + t) == split_lf(x).update(split_lf(x).len() - 1, split_lf(x).last() + t),
    decreases t.len(),
{
    lemma_split_lf_nonempty(x);
    if t.len() == 0 {
        assert(x + t =~= x);
        assert(split_lf(x).last() + t =~= split_lf(x).last());
        assert(split_lf(x).update(split_lf(x).len() - 1, split_lf(x).last()) =~= split_lf(x));
    } else {
        let t0 = t.drop_last();
        let c = t.last();
        assert(!t0.contains('\n')) by {
            if t0.contains('\n') {
                let i = choose|i: int| 0 <= i < t0.len() && t0[i] == '\n';
                assert(t[i] == '\n');
            }
        }
        assert(c != '\n') by {
            assert(t[t.len() - 1] == c);
        }
        lemma_split_lf_append_plain(x, t0);
        assert((x + t).drop_last() =~= x + t0);
        assert((x + t).last() == c);
        let p = split_lf(x);
        assert(split_lf(x + t0) == p.update(p.len() - 1, p.last() + t0));
        assert((p.last() + t0).push(c) =~= p.last() + t);
        assert(split_lf(x + t) =~= p.update(p.len() - 1, p.last() + t));
    }
}

/// Appending `\n` starts a new, empty piece.
pub proof fn lemma_split_lf_push_lf(x: Seq<char>)
    ensures
        split_lf(x.push('\n')) == split_lf(x).push(Seq::empty()),
{
    assert(x.push('\n').drop_last() =~= x);
}

/// The text with every CRLF written as a bare LF, as
/// `str::replace("\r\n", "\n")` gives it (the pattern cannot overlap
/// itself, so reading it from the end finds the same occurrences).
pub open spec fn crlf_as_lf(s: Seq<char>) -> Seq<char>
    decreases s.len(),
{
    if s.len() == 0 {
        Seq::empty()
    } else if s.len() >= 2 && s.last() == '\n' && s[s.len() - 2] == '\r' {
        crlf_as_lf(s.subrange(0, s.len() - 2)).push('\n')
    } else {
        crlf_as_lf(s.drop_last()).push(s.last())
    }
}

/// The last piece of `split_lf(s)` is a suffix of `s`.
proof fn lemma_split_lf_last_suffix(s: Seq<char>)
    ensures
        split_lf(s).last().len() <= s.len(),
        split_lf(s).last() == s.subrange(s.len() - split_lf(s).last().len(), s.len() as int),
    decreases s.len(),
{
    lemma_split_lf_nonempty(s);
    if s.len() > 0 {
        let p = s.drop_last();
        lemma_split_lf_last_suffix(p);
        lemma_split_lf_nonempty(p);
        if s.last() == '\n' {
            assert(split_lf(s).last() =~= Seq::<char>::empty());
            assert(s.subrange(s.len() as int, s.len() as int) =~= Seq::<char>::empty());
        } else {
            let l = split_lf(p).last();
            assert(split_lf(s).last() == l.push(s.last()));
            assert(l.push(s.last()) =~= s.subrange(s.len() - (l.len() + 1), s.len() as int));
        }
    }
}

/// Splitting the text with CRLF written as LF gives the same pieces, except
/// that each piece ended by `\n` loses one `\r` at its end.
proof fn lemma_split_lf_crlf_as_lf(s: Seq<char>)
    ensures
        split_lf(crlf_as_lf(s)) == split_lf(s).drop_last().map_values(|l: Seq<char>| strip_cr(l)).push(
            split_lf(s).last(),
        ),
    decreases s.len(),
{
    lemma_split_lf_nonempty(s);
    if s.len() == 0 {
        assert(split_lf(s).drop_last().map_values(|l: Seq<char>| strip_cr(l)).push(split_lf(s).last())
            =~= split_lf(s));
    } else if s.len() >= 2 && s.last() == '\n' && s[s.len() - 2] == '\r' {
        let q = s.subrange(0, s.len() - 2);
        let p = s.drop_last();
        lemma_split_lf_crlf_as_lf(q);
        lemma_split_lf_nonempty(q);
        let pq = split_lf(q);
        assert(p.drop_last() =~= q);
        assert(p.last() == '\r');
        let lp = pq.last().push('\r');
        assert(split_lf(p) == pq.update(pq.len() - 1, lp));
        assert(split_lf(s) == split_lf(p).push(Seq::empty()));
        assert(strip_cr(lp) =~= pq.last());
        assert(crlf_as_lf(s) == crlf_as_lf(q).push('\n'));
        lemma_split_lf_push_lf(crlf_as_lf(q));
        assert(split_lf(crlf_as_lf(s)) == split_lf(crlf_as_lf(q)).push(Seq::empty()));
        assert(split_lf(s).drop_last().map_values(|l: Seq<char>| strip_cr(l)) =~= pq.drop_last().map_values(
            |l: Seq<char>| strip_cr(l),
        ).push(pq.last()));
        assert(split_lf(crlf_as_lf(s)) =~= split_lf(s).drop_last().map_values(|l: Seq<char>| strip_cr(l)).push(
            split_lf(s).last(),
        ));
    } else {
        let p = s.drop_last();
        let c = s.last();
        lemma_split_lf_crlf_as_lf(p);
        lemma_split_lf_nonempty(p);
        let pp = split_lf(p);
        assert(crlf_as_lf(s) == crlf_as_lf(p).push(c));
        assert(crlf_as_lf(s).drop_last() =~= crlf_as_lf(p));
        if c == '\n' {
            lemma_split_lf_last_suffix(p);
            if pp.last().len() > 0 {
                assert(pp.last().last() == p.last());
                assert(p.last() == s[s.len() - 2]);
            }
            assert(strip_cr(pp.last()) == pp.last());
            assert(split_lf(s) == pp.push(Seq::empty()));
            assert(pp.drop_last().map_values(|l: Seq<char>| strip_cr(l)).push(pp.last()) =~= pp.map_values(
                |l: Seq<char>| strip_cr(l),
            ));
            assert(split_lf(crlf_as_lf(s)) =~= split_lf(s).drop_last().map_values(|l: Seq<char>| strip_cr(l)).push(
                split_lf(s).last(),
            ));
        } else {
            assert(split_lf(s) == pp.update(pp.len() - 1, pp.last().push(c)));
            assert(split_lf(crlf_as_lf(s)) =~= split_lf(s).drop_last().map_values(|l: Seq<char>| strip_cr(l)).push(
                split_lf(s).last(),
            ));
        }
    }
}

/// Whether no `\r` in the text is followed by another `\r`.
pub open spec fn no_double_cr(s: Seq<char>) -> bool {
    forall|i: int| 0 <= i < s.len() - 1 ==> !(#[trigger] s[i] == '\r' && s[i + 1] == '\r')
}

/// Whether a piece ends in two `\r`.
pub open spec fn ends_in_double_cr(l: Seq<char>) -> bool {
    l.len() >= 2 && l.last() == '\r' && l[l.len() - 2] == '\r'
}

/// Without two `\r` in a row in the text, no piece ends in two of them.
proof fn lemma_pieces_no_double_cr(s: Seq<char>)
    requires
        no_double_cr(s),
    ensures
        forall|i: int| 0 <= i < split_lf(s).len() ==> !ends_in_double_cr(#[trigger] split_lf(s)[i]),
    decreases s.len(),
{
    lemma_split_lf_nonempty(s);
    if s.len() > 0 {
        let p = s.drop_last();
        let c = s.last();
        assert(no_double_cr(p)) by {
            assert forall|i: int| 0 <= i < p.len() - 1 implies !(#[trigger] p[i] == '\r' && p[i + 1] == '\r') by {
                assert(p[i] == s[i] && p[i + 1] == s[i + 1]);
            }
        }
        lemma_pieces_no_double_cr(p);
        lemma_split_lf_nonempty(p);
        lemma_split_lf_last_suffix(p);
        let pp = split_lf(p);
        if c != '\n' {
            let l = pp.last().push(c);
            if ends_in_double_cr(l) {
                assert(pp.last().last() == p.last());
                assert(s[s.len() - 2] == '\r' && s[s.len() - 1] == '\r');
                assert(s[s.len() - 2] == '\r' && s[s.len() - 2 + 1] == '\r');
            }
            assert forall|i: int| 0 <= i < split_lf(s).len() implies !ends_in_double_cr(#[trigger] split_lf(s)[i]) by {
                if i < pp.len() - 1 {
                    assert(split_lf(s)[i] == pp[i]);
                }
            }
        } else {
            assert forall|i: int| 0 <= i < split_lf(s).len() implies !ends_in_double_cr(#[trigger] split_lf(s)[i]) by {
                if i < pp.len() {
                    assert(split_lf(s)[i] == pp[i]);
                }
            }
        }
    }
}

/// Writing CRLF as LF does not change the lines of a text in which every
/// `\r` is followed by `\n`.
pub proof fn lemma_lines_of_crlf_as_lf(s: Seq<char>)
    requires
        forall|i: int| 0 <= i < s.len() && #[trigger] s[i] == '\r' ==> i + 1 < s.len() && s[i + 1] == '\n',
    ensures
        lines_of(crlf_as_lf(s)) == lines_of(s),
{
    assert(no_double_cr(s)) by {
        assert forall|i: int| 0 <= i < s.len() - 1 implies !(#[trigger] s[i] == '\r' && s[i + 1] == '\r') by {
            if s[i] == '\r' {
                assert(s[i + 1] == '\n');
            }
        }
    }
    lemma_pieces_no_double_cr(s);
    lemma_split_lf_crlf_as_lf(s);
    lemma_split_lf_nonempty(s);
    let ps = split_lf(s);
    let qs = split_lf(crlf_as_lf(s));
    assert(qs.last() == ps.last());
    assert(qs.drop_last() =~= ps.drop_last().map_values(|l: Seq<char>| strip_cr(l)));
    assert forall|i: int| 0 <= i < ps.len() - 1 implies #[trigger] strip_cr(strip_cr(ps[i])) == strip_cr(
        ps[i],
    ) by {
        assert(!ends_in_double_cr(ps[i]));
        if ps[i].len() > 0 && ps[i].last() == '\r' {
            assert(ps[i].drop_last().len() == 0 || ps[i].drop_last().last() != '\r');
        }
    }
    assert(qs.drop_last().map_values(|l: Seq<char>| strip_cr(l)) =~= ps.drop_last().map_values(
        |l: Seq<char>| strip_cr(l),
    ));
}

/// The models of a vector of character vectors.
pub open spec fn char_lines(v: Seq<Vec<char>>) -> Seq<Seq<char>> {
    v.map_values(|l: Vec<char>| l@)
}

/// Splits a text into its lines, as `str::lines` does.
pub fn split_lines(v: &Vec<char>) -> (r: Vec<Vec<char>>)
    ensures
        char_lines(r@) == lines_of(v@),
{
    let mut done: Vec<Vec<char>> = Vec::new();
    let mut cur: Vec<char> = Vec::new();
    let mut i: usize = 0;
    assert(v@.take(0) =~= Seq::<char>::empty());
    assert(char_lines(done@) =~= Seq::<Seq<char>>::empty());
    while i < v.len()
        invariant
            i <= v@.len(),
            split_lf(v@.take(i as int)).len() >= 1,
            char_lines(done@) == split_lf(v@.take(i as int)).drop_last().map_values(
                |l: Seq<char>| strip_cr(l),
            ),
            cur@ == split_lf(v@.take(i as int)).last(),
        decreases v@.len() - i,
    {
        let c = v[i];
        let ghost p = split_lf(v@.take(i as int));
        proof {
            assert(v@.take(i + 1).drop_last() =~= v@.take(i as int));
            assert(v@.take(i + 1).last() == c);
            lemma_split_lf_nonempty(v@.take(i + 1));
        }
        if c == '\n' {
            let mut line = cur;
            if line.len() > 0 && line[line.len() - 1] == '\r' {
                line.pop();
            }
            assert(line@ == strip_cr(p.last()));
            let ghost before = done@;
            done.push(line);
            assert(char_lines(done@) =~= char_lines(before).push(line@));
            assert(p.drop_last().push(p.last()) =~= p);
            cur = Vec::new();
            proof {
                let q = split_lf(v@.take(i + 1));
                assert(q == p.push(Seq::empty()));
                assert(q.drop_last() =~= p);
                assert(char_lines(done@) =~= q.drop_last().map_values(|l: Seq<char>| strip_cr(l)));
                assert(cur@ =~= q.last());
            }
        } else {
            cur.push(c);
            proof {
                let q = split_lf(v@.take(i + 1));
                assert(q == p.update(p.len() - 1, p.last().push(c)));
                assert(q.drop_last() =~= p.drop_last());
                assert(char_lines(done@) =~= q.drop_last().map_values(|l: Seq<char>| strip_cr(l)));
            }
        }
        i = i + 1;
    }
    assert(v@.take(i as int) =~= v@);
    if cur.len() > 0 {
        let ghost before = done@;
        done.push(cur);
        assert(char_lines(done@) =~= char_lines(before).push(split_lf(v@).last()));
    }
    done
}

/// Number of `\n` characters in `s`.
pub open spec fn lf_count(s: Seq<char>) -> nat
    decreases s.len(),
{
    if s.len() == 0 {
        0
    } else {
        lf_count(s.drop_last()) + if s.last() == '\n' { 1nat } else { 0nat }
    }
}

proof fn lemma_lf_count_bound(s: Seq<char>)
    ensures
        lf_count(s) <= s.len(),
    decreases s.len(),
{
    if s.len() > 0 {
        lemma_lf_count_bound(s.drop_last());
    }
}

/// The message for a line that ends in `\n` without `\r` before it.
pub open spec fn msg_bare_lf() -> Seq<char> {
    "line is terminated with a bare LF, RFC 5545 requires CRLF"@
}

/// An error at the given line.
pub open spec fn error_at(line: nat, message: Seq<char>) -> DiagnosticModel {
    DiagnosticModel { severity: Severity::Error, line, message }
}

/// One error for each `\n` that has no `\r` right before it, at the
/// (1-based) number of the line that it ends.
pub open spec fn bare_lf_diags(s: Seq<char>) -> Seq<DiagnosticModel>
    decreases s.len(),
{
    if s.len() == 0 {
        Seq::empty()
    } else {
        let p = s.drop_last();
        bare_lf_diags(p) + if s.last() == '\n' && !(p.len() > 0 && p.last() == '\r') {
            seq![error_at(lf_count(p) + 1, msg_bare_lf())]
        } else {
            Seq::empty()
        }
    }
}

/// The models of a vector of diagnostics.
pub open spec fn diag_models(ds: Seq<Diagnostic>) -> Seq<DiagnosticModel> {
    ds.map_values(|d: Diagnostic| d@)
}

/// Appending one diagnostic appends its model.
pub proof fn lemma_diag_models_push(ds: Seq<Diagnostic>, d: Diagnostic)
    ensures
        diag_models(ds.push(d)) == diag_models(ds).push(d@),
{
    assert(diag_models(ds.push(d)) =~= diag_models(ds).push(d@));
}

/// In strict mode, reports every line that is terminated by a bare LF.
pub fn check_line_endings(input: &Vec<char>, lenient: bool, diagnostics: &mut Vec<Diagnostic>)
    ensures
        diag_models(final(diagnostics)@) == diag_models(old(diagnostics)@) + if lenient {
            Seq::empty()
        } else {
            bare_lf_diags(input@)
        },
{
    if lenient {
        assert(diag_models(diagnostics@) + Seq::<DiagnosticModel>::empty() =~= diag_models(diagnostics@));
        return;
    }
    let mut lfs: usize = 0;
    let mut i: usize = 0;
    assert(input@.take(0) =~= Seq::<char>::empty());
    assert(diag_models(diagnostics@) + Seq::<DiagnosticModel>::empty() =~= diag_models(diagnostics@));
    while i < input.len()
        invariant
            !lenient,
            i <= input@.len(),
            lfs == lf_count(input@.take(i as int)),
            diag_models(diagnostics@) == diag_models(old(diagnostics)@) + bare_lf_diags(input@.take(i as int)),
        decreases input@.len() - i,
    {
        let ghost p = input@.take(i as int);
        proof {
            assert(input@.take(i + 1).drop_last() =~= p);
            assert(input@.take(i + 1).last() == input@[i as int]);
            lemma_lf_count_bound(p);
        }
        if input[i] == '\n' {
            let has_cr = i > 0 && input[i - 1] == '\r';
            if !has_cr {
                let d = Diagnostic {
                    severity: Severity::Error,
                    line: lfs + 1,
                    message: String::from_str("line is terminated with a bare LF, RFC 5545 requires CRLF"),
                };
                proof {
                    lemma_diag_models_push(diagnostics@, d);
                }
                diagnostics.push(d);
            }
            assert(diag_models(diagnostics@) =~= diag_models(old(diagnostics)@) + bare_lf_diags(input@.take(i + 1)));
            lfs = lfs + 1;
        } else {
            assert(diag_models(diagnostics@) =~= diag_models(old(diagnostics)@) + bare_lf_diags(input@.take(i + 1)));
        }
        i = i + 1;
    }
    assert(input@.take(i as int) =~= input@);
}

/// A logical line: the number of the physical line where it starts, and
/// its text with continuation lines joined on.
pub struct LogicalLine {
    pub line_no: usize,
    pub text: Vec<char>,
}

/// The model of the state of unfolding: the logical lines so far and the
/// diagnostics raised.
pub struct UnfoldModel {
    pub logical: Seq<(nat, Seq<char>)>,
    pub diags: Seq<DiagnosticModel>,
}

/// The message for a continuation line at the very start of the input.
pub open spec fn msg_orphan_continuation() -> Seq<char> {
    "continuation line has no preceding line to fold onto"@
}

/// Whether a physical line continues the previous one.
pub open spec fn is_continuation(raw: Seq<char>) -> bool {
    raw.len() > 0 && (raw[0] == ' ' || raw[0] == '\t')
}

/// Unfolding one more physical line, numbered `line_no`. A continuation
/// line with nothing before it is reported with the mode's severity.
pub open spec fn unfold_step(st: UnfoldModel, line_no: nat, raw: Seq<char>, lenient: bool) -> UnfoldModel {
    if is_continuation(raw) {
        if st.logical.len() > 0 {
            let last = st.logical.last();
            UnfoldModel {
                logical: st.logical.update(st.logical.len() - 1, (last.0, last.1 + raw.drop_first())),
                diags: st.diags,
            }
        } else {
            UnfoldModel {
                logical: st.logical.push((line_no, raw.drop_first())),
                diags: st.diags.push(
                    DiagnosticModel {
                        severity: severity_for(lenient),
                        line: line_no,
                        message: msg_orphan_continuation(),
                    },
                ),
            }
        }
    } else if raw.len() > 0 {
        UnfoldModel { logical: st.logical.push((line_no, raw)), diags: st.diags }
    } else {
        st
    }
}

/// RFC 5545 line folding undone: a line that starts with a single space or
/// tab is a continuation of the previous line, with that one leading
/// character removed. Empty lines are dropped.
pub open spec fn unfolded(lines: Seq<Seq<char>>, lenient: bool) -> UnfoldModel
    decreases lines.len(),
{
    if lines.len() == 0 {
        UnfoldModel { logical: Seq::empty(), diags: Seq::empty() }
    } else {
        unfold_step(unfolded(lines.drop_last(), lenient), lines.len() as nat, lines.last(), lenient)
    }
}

/// The model of a logical line.
pub open spec fn logical_model(l: LogicalLine) -> (nat, Seq<char>) {
    (l.line_no as nat, l.text@)
}

/// The models of a vector of logical lines.
pub open spec fn logical_models(ls: Seq<LogicalLine>) -> Seq<(nat, Seq<char>)> {
    ls.map_values(|l: LogicalLine| logical_model(l))
}

/// Joins continuation lines onto the line they continue.
pub fn unfold(lines: &Vec<Vec<char>>, lenient: bool, diagnostics: &mut Vec<Diagnostic>) -> (r: Vec<
    LogicalLine,
>)
    ensures
        logical_models(r@) == unfolded(char_lines(lines@), lenient).logical,
        diag_models(final(diagnostics)@) == diag_models(old(diagnostics)@) + unfolded(
            char_lines(lines@),
            lenient,
        ).diags,
{
    let ghost ls = char_lines(lines@);
    let mut logical: Vec<LogicalLine> = Vec::new();
    let mut idx: usize = 0;
    assert(ls.take(0) =~= Seq::<Seq<char>>::empty());
    assert(logical_models(logical@) =~= Seq::<(nat, Seq<char>)>::empty());
    assert(diag_models(diagnostics@) + Seq::<DiagnosticModel>::empty() =~= diag_models(diagnostics@));
    while idx < lines.len()
        invariant
            ls == char_lines(lines@),
            idx <= lines@.len(),
            logical_models(logical@) == unfolded(ls.take(idx as int), lenient).logical,
            diag_models(diagnostics@) == diag_models(old(diagnostics)@) + unfolded(
                ls.take(idx as int),
                lenient,
            ).diags,
        decreases lines@.len() - idx,
    {
        let raw = &lines[idx];
        let line_no = idx + 1;
        let ghost st = unfolded(ls.take(idx as int), lenient);
        proof {
            assert(ls.take(idx + 1).drop_last() =~= ls.take(idx as int));
            assert(ls.take(idx + 1).last() == raw@);
            assert(unfolded(ls.take(idx + 1), lenient) == unfold_step(st, line_no as nat, raw@, lenient));
        }
        if raw.len() > 0 && (raw[0] == ' ' || raw[0] == '\t') {
            let ghost rest = raw@.drop_first();
            if logical.len() > 0 {
                let ghost old_log = logical@;
                let mut last = logical.pop().unwrap();
                assert(logical_models(old_log).last() == logical_model(last));
                let mut k: usize = 1;
                let ghost base = last.text@;
                let ghost ln = last.line_no;
                while k < raw.len()
                    invariant
                        1 <= k <= raw@.len(),
                        last.line_no == ln,
                        last.text@ == base + raw@.subrange(1, k as int),
                    decreases raw@.len() - k,
                {
                    last.text.push(raw[k]);
                    assert(raw@.subrange(1, k + 1) =~= raw@.subrange(1, k as int).push(raw@[k as int]));
                    k = k + 1;
                }
                assert(raw@.subrange(1, raw@.len() as int) =~= rest);
                let ghost popped = logical@;
                logical.push(last);
                proof {
                    assert(logical_models(popped) =~= st.logical.drop_last());
                    assert(st.logical.last() == (ln as nat, base));
                    assert(last.text@ =~= base + rest);
                    assert(logical_model(last) == (st.logical.last().0, st.logical.last().1 + rest));
                    assert(logical_models(logical@) =~= st.logical.update(
                        st.logical.len() - 1,
                        (st.logical.last().0, st.logical.last().1 + rest),
                    ));
                }
            } else {
                let mut text: Vec<char> = Vec::new();
                let mut k: usize = 1;
                while k < raw.len()
                    invariant
                        1 <= k <= raw@.len(),
                        text@ == raw@.subrange(1, k as int),
                    decreases raw@.len() - k,
                {
                    text.push(raw[k]);
                    assert(raw@.subrange(1, k + 1) =~= raw@.subrange(1, k as int).push(raw@[k as int]));
                    k = k + 1;
                }
                assert(raw@.subrange(1, raw@.len() as int) =~= rest);
                let d = Diagnostic {
                    severity: severity_of(lenient),
                    line: line_no,
                    message: String::from_str("continuation line has no preceding line to fold onto"),
                };
                proof {
                    lemma_diag_models_push(diagnostics@, d);
                }
                diagnostics.push(d);
                let ghost before = logical@;
                logical.push(LogicalLine { line_no, text });
                assert(logical_models(logical@) =~= logical_models(before).push((line_no as nat, rest)));
            }
        } else if raw.len() > 0 {
            let mut text: Vec<char> = Vec::new();
            let mut k: usize = 0;
            while k < raw.len()
                invariant
                    k <= raw@.len(),
                    text@ == raw@.subrange(0, k as int),
                decreases raw@.len() - k,
            {
                text.push(raw[k]);
                assert(raw@.subrange(0, k + 1) =~= raw@.subrange(0, k as int).push(raw@[k as int]));
                k = k + 1;
            }
            assert(raw@.subrange(0, raw@.len() as int) =~= raw@);
            let ghost before = logical@;
            logical.push(LogicalLine { line_no, text });
            assert(logical_models(logical@) =~= logical_models(before).push((line_no as nat, raw@)));
        }
        assert(diag_models(diagnostics@) =~= diag_models(old(diagnostics)@) + unfolded(ls.take(idx + 1), lenient).diags);
        idx = idx + 1;
    }
    assert(ls.take(idx as int) =~= ls);
    logical
}


/// How unfolding treats one more physical line: one that starts with a
/// space or a tab, after a logical line, is appended to it without that
/// first character; any other non-empty line starts a new logical line
/// carrying its own line number; an empty line is dropped.
pub proof fn unfolding_one_more_line(pre: Seq<Seq<char>>, raw: Seq<char>, lenient: bool)
    ensures
        raw.len() > 0 && (raw[0] == ' ' || raw[0] == '\t') && unfolded(pre, lenient).logical.len() > 0 ==> unfolded(
            pre.push(raw),
            lenient,
        ) == (UnfoldModel {
            logical: unfolded(pre, lenient).logical.update(
                unfolded(pre, lenient).logical.len() - 1,
                (
                    unfolded(pre, lenient).logical.last().0,
                    unfolded(pre, lenient).logical.last().1 + raw.subrange(1, raw.len() as int),
                ),
            ),
            diags: unfolded(pre, lenient).diags,
        }),
        raw.len() > 0 && raw[0] != ' ' && raw[0] != '\t' ==> unfolded(pre.push(raw), lenient) == (UnfoldModel {
            logical: unfolded(pre, lenient).logical.push((pre.len() + 1, raw)),
            diags: unfolded(pre, lenient).diags,
        }),
        raw.len() == 0 ==> unfolded(pre.push(raw), lenient) == unfolded(pre, lenient),
{
    assert(pre.push(raw).drop_last() =~= pre);
    if raw.len() > 0 {
        assert(raw.drop_first() =~= raw.subrange(1, raw.len() as int));
    }
}

} // verus!
