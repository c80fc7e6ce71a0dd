//! Building the component tree from content lines: BEGIN opens a
//! component, END closes the innermost open one, other lines are
//! properties of the innermost open component.
use vstd::prelude::*;

use crate::chars::{chars_eq_ignore_case, chars_of, decimal, eq_ignore_case, push_decimal, str_eq_ignore_case};
use crate::lines::{diag_models, lemma_diag_models_push};
use crate::{
    component_model, components_model, empty_component, lemma_components_model_push, Component,
    ComponentModel, ContentLine, Diagnostic, DiagnosticModel, LineModel, Severity,
};
use vstd::string::StringExecFns;

verus! {

/// The state of tree building: the open components (innermost last), the
/// finished top-level component, the warnings so far, and the error that
/// stopped the build, if any.
pub struct TreeModel {
    pub stack: Seq<ComponentModel>,
    pub root: Option<ComponentModel>,
    pub diags: Seq<DiagnosticModel>,
    pub error: Option<Seq<char>>,
}

/// `c` with one more child at the end.
pub open spec fn with_child(c: ComponentModel, child: ComponentModel) -> ComponentModel {
    ComponentModel { name: c.name, properties: c.properties, children: c.children.push(child) }
}

/// `c` with one more property at the end.
pub open spec fn with_property(c: ComponentModel, l: LineModel) -> ComponentModel {
    ComponentModel { name: c.name, properties: c.properties.push(l), children: c.children }
}

/// A warning at the given line.
pub open spec fn warning_at(line: nat, message: Seq<char>) -> DiagnosticModel {
    DiagnosticModel { severity: Severity::Warning, line, message }
}

/// The message for an END with nothing open.
pub open spec fn msg_unmatched_end(n: nat, value: Seq<char>) -> Seq<char> {
    "line "@ + decimal(n) + ": END:"@ + value + " has no matching BEGIN"@
}

/// The message for an END whose name is not that of the innermost open BEGIN.
pub open spec fn msg_mismatched_end(n: nat, value: Seq<char>, open: Seq<char>) -> Seq<char> {
    "line "@ + decimal(n) + ": END:"@ + value + " does not match the innermost open BEGIN:"@ + open
}

/// The message for a second top-level component.
pub open spec fn msg_second_top(n: nat) -> Seq<char> {
    "line "@ + decimal(n) + ": input has more than one top level component"@
}

/// The message for a property with no component open.
pub open spec fn msg_outside(n: nat, name: Seq<char>) -> Seq<char> {
    "line "@ + decimal(n) + ": property "@ + name + " appears outside of any BEGIN/END component"@
}

/// The message for a component still open at the end of the input.
pub open spec fn msg_unclosed(name: Seq<char>) -> Seq<char> {
    "component "@ + name + " was opened but never closed with END"@
}

/// The message for an input without any component.
pub open spec fn msg_no_top() -> Seq<char> {
    "input contained no top level component"@
}

/// The state before any line.
pub open spec fn tree_start() -> TreeModel {
    TreeModel { stack: Seq::empty(), root: None, diags: Seq::empty(), error: None }
}

/// The state after an END line that closes the innermost open component.
pub open spec fn close_step(st: TreeModel, l: LineModel, lenient: bool) -> TreeModel {
    let ended = st.stack.last();
    let rest = st.stack.drop_last();
    let msg = msg_mismatched_end(l.source_line, l.value, ended.name);
    let mismatch = !eq_ignore_case(ended.name, l.value);
    if mismatch && !lenient {
        TreeModel { stack: rest, root: st.root, diags: st.diags, error: Some(msg) }
    } else {
        let diags = if mismatch {
            st.diags.push(warning_at(l.source_line, msg))
        } else {
            st.diags
        };
        if rest.len() > 0 {
            TreeModel {
                stack: rest.update(rest.len() - 1, with_child(rest.last(), ended)),
                root: st.root,
                diags,
                error: None,
            }
        } else if st.root is Some {
            TreeModel { stack: rest, root: st.root, diags, error: Some(msg_second_top(l.source_line)) }
        } else {
            TreeModel { stack: rest, root: Some(ended), diags, error: None }
        }
    }
}

/// One content line applied to the state of tree building.
pub open spec fn tree_step(st: TreeModel, l: LineModel, lenient: bool) -> TreeModel {
    if st.error is Some {
        st
    } else if eq_ignore_case(l.name, "BEGIN"@) {
        TreeModel {
            stack: st.stack.push(empty_component(l.value)),
            root: st.root,
            diags: st.diags,
            error: None,
        }
    } else if eq_ignore_case(l.name, "END"@) {
        if st.stack.len() == 0 {
            TreeModel {
                stack: st.stack,
                root: st.root,
                diags: st.diags,
                error: Some(msg_unmatched_end(l.source_line, l.value)),
            }
        } else {
            close_step(st, l, lenient)
        }
    } else if st.stack.len() > 0 {
        TreeModel {
            stack: st.stack.update(st.stack.len() - 1, with_property(st.stack.last(), l)),
            root: st.root,
            diags: st.diags,
            error: None,
        }
    } else {
        TreeModel {
            stack: st.stack,
            root: st.root,
            diags: st.diags,
            error: Some(msg_outside(l.source_line, l.name)),
        }
    }
}

/// The state after all the given lines.
pub open spec fn tree_run(lines: Seq<LineModel>, lenient: bool) -> TreeModel
    decreases lines.len(),
{
    if lines.len() == 0 {
        tree_start()
    } else {
        tree_step(tree_run(lines.drop_last(), lenient), lines.last(), lenient)
    }
}

/// The tree that the lines describe, or the reason there is none.
pub open spec fn tree_outcome(st: TreeModel) -> Result<ComponentModel, Seq<char>> {
    if st.error is Some {
        Err(st.error->0)
    } else if st.stack.len() > 0 {
        Err(msg_unclosed(st.stack.last().name))
    } else if st.root is None {
        Err(msg_no_top())
    } else {
        Ok(st.root->0)
    }
}

/// The models of a vector of content lines.
pub open spec fn line_models(ls: Seq<ContentLine>) -> Seq<LineModel> {
    ls.map_values(|l: ContentLine| l@)
}

/// The model of an optional component.
pub open spec fn opt_model(r: Option<Component>) -> Option<ComponentModel> {
    match r {
        Some(c) => Some(component_model(c)),
        None => None,
    }
}

/// Once building has stopped with an error, later lines change nothing.
proof fn lemma_tree_error_stays(lines: Seq<LineModel>, lenient: bool, n: int)
    requires
        0 <= n <= lines.len(),
        tree_run(lines.take(n), lenient).error is Some,
    ensures
        tree_run(lines, lenient) == tree_run(lines.take(n), lenient),
    decreases lines.len() - n,
{
    if n < lines.len() {
        assert(lines.take(n + 1).drop_last() =~= lines.take(n));
        lemma_tree_error_stays(lines, lenient, n + 1);
    } else {
        assert(lines.take(n) =~= lines);
    }
}

proof fn lemma_components_model_drop_last(cs: Seq<Component>)
    requires
        cs.len() > 0,
    ensures
        components_model(cs.drop_last()) == components_model(cs).drop_last(),
        components_model(cs).last() == component_model(cs.last()),
        components_model(cs).len() == cs.len(),
{
    crate::lemma_components_model(cs);
    assert(components_model(cs.drop_last()) =~= components_model(cs).drop_last());
}

fn line_message(prefix_line: usize) -> (m: String)
    ensures
        m@ == "line "@ + decimal(prefix_line as nat),
{
    let mut m = String::from_str("line ");
    push_decimal(&mut m, prefix_line);
    m
}

/// Builds the component tree from content lines, in input order.
pub fn build_tree(lines: Vec<ContentLine>, lenient: bool, diagnostics: &mut Vec<Diagnostic>) -> (r: Result<
    Component,
    String,
>)
    ensures
        diag_models(final(diagnostics)@) == diag_models(old(diagnostics)@) + tree_run(
            line_models(lines@),
            lenient,
        ).diags,
        match tree_outcome(tree_run(line_models(lines@), lenient)) {
            Ok(c) => r matches Ok(t) && t@ == c,
            Err(m) => r matches Err(e) && e@ == m,
        },
{
    let ghost lm = line_models(lines@);
    let ghost all = lines@;
    let mut stack: Vec<Component> = Vec::new();
    let mut root: Option<Component> = None;
    let ghost base = diag_models(diagnostics@);
    assert(lm.take(0) =~= Seq::<LineModel>::empty());
    assert(components_model(stack@) =~= Seq::<ComponentModel>::empty());
    assert(base + Seq::<DiagnosticModel>::empty() =~= base);
    for line in it: lines.into_iter()
        invariant
            it.seq() == all,
            lm == line_models(all),
            base == diag_models(old(diagnostics)@),
            tree_run(lm.take(it.index() as int), lenient).error is None,
            components_model(stack@) == tree_run(lm.take(it.index() as int), lenient).stack,
            opt_model(root) == tree_run(lm.take(it.index() as int), lenient).root,
            diag_models(diagnostics@) == base + tree_run(lm.take(it.index() as int), lenient).diags,
    {
        let ghost i = it.index() as int;
        let ghost st = tree_run(lm.take(i), lenient);
        proof {
            assert(lm.take(i + 1).drop_last() =~= lm.take(i));
            assert(lm.take(i + 1).last() == line@);
            assert(tree_run(lm.take(i + 1), lenient) == tree_step(st, line@, lenient));
            crate::lemma_components_model(stack@);
        }
        let name = chars_of(line.name.as_str());
        if chars_eq_ignore_case(&name, "BEGIN") {
            let c = Component::new(line.value);
            proof {
                lemma_components_model_push(stack@, c);
            }
            stack.push(c);
        } else if chars_eq_ignore_case(&name, "END") {
            let ended = match stack.pop() {
                Some(e) => e,
                None => {
                    let mut m = line_message(line.source_line);
                    m.append(": END:");
                    m.append(line.value.as_str());
                    m.append(" has no matching BEGIN");
                    proof {
                        lemma_tree_error_stays(lm, lenient, i + 1);
                        assert(lm.take(lm.len() as int) =~= lm);
                    }
                    return Err(m);
                },
            };
            proof {
                lemma_components_model_drop_last(stack@.push(ended));
                assert(stack@.push(ended).drop_last() =~= stack@);
            }
            let matches = str_eq_ignore_case(ended.name.as_str(), line.value.as_str());
            if !matches {
                let mut m = line_message(line.source_line);
                m.append(": END:");
                m.append(line.value.as_str());
                m.append(" does not match the innermost open BEGIN:");
                m.append(ended.name.as_str());
                if lenient {
                    let d = Diagnostic { severity: Severity::Warning, line: line.source_line, message: m };
                    proof {
                        lemma_diag_models_push(diagnostics@, d);
                    }
                    diagnostics.push(d);
                } else {
                    proof {
                        lemma_tree_error_stays(lm, lenient, i + 1);
                    }
                    return Err(m);
                }
            }
            if stack.len() > 0 {
                let mut top = stack.pop().unwrap();
                proof {
                    lemma_components_model_drop_last(stack@.push(top));
                    assert(stack@.push(top).drop_last() =~= stack@);
                    lemma_components_model_push(top.children@, ended);
                }
                top.children.push(ended);
                proof {
                    lemma_components_model_push(stack@, top);
                }
                stack.push(top);
                assert(components_model(stack@) =~= tree_run(lm.take(i + 1), lenient).stack);
            } else {
                if root.is_some() {
                    let mut m = line_message(line.source_line);
                    m.append(": input has more than one top level component");
                    proof {
                        lemma_tree_error_stays(lm, lenient, i + 1);
                    }
                    return Err(m);
                }
                root = Some(ended);
            }
        } else {
            if stack.len() > 0 {
                let mut top = stack.pop().unwrap();
                proof {
                    lemma_components_model_drop_last(stack@.push(top));
                    assert(stack@.push(top).drop_last() =~= stack@);
                }
                let ghost lv = line@;
                let ghost before_props = top.properties@;
                top.properties.push(line);
                proof {
                    assert(top.properties@.map_values(|l: ContentLine| l@) =~= before_props.map_values(
                        |l: ContentLine| l@,
                    ).push(lv));
                    lemma_components_model_push(stack@, top);
                }
                stack.push(top);
                assert(components_model(stack@) =~= tree_run(lm.take(i + 1), lenient).stack);
            } else {
                let mut m = line_message(line.source_line);
                m.append(": property ");
                m.append(line.name.as_str());
                m.append(" appears outside of any BEGIN/END component");
                proof {
                    lemma_tree_error_stays(lm, lenient, i + 1);
                }
                return Err(m);
            }
        }
    }
    assert(lm.take(lm.len() as int) =~= lm);
    match stack.pop() {
        Some(unclosed) => {
            proof {
                lemma_components_model_drop_last(stack@.push(unclosed));
            }
            let mut m = String::from_str("component ");
            m.append(unclosed.name.as_str());
            m.append(" was opened but never closed with END");
            Err(m)
        },
        None => match root {
            Some(t) => Ok(t),
            None => Err(String::from_str("input contained no top level component")),
        },
    }
}


/// In lenient mode an END closes the innermost open component whatever
/// name it gives: nothing fails (unless the closed component would be a
/// second top-level one), the component goes to its parent or becomes the
/// top-level one, and a name that differs (ASCII case ignored) from the
/// one it was opened with adds exactly one warning.
pub proof fn lenient_end_closes_innermost(st: TreeModel, l: LineModel)
    requires
        st.error is None,
        eq_ignore_case(l.name, "END"@),
        st.stack.len() >= 1,
        st.stack.len() > 1 || st.root is None,
    ensures
        tree_step(st, l, true).error is None,
        tree_step(st, l, true).stack.len() == st.stack.len() - 1,
        st.stack.len() == 1 ==> tree_step(st, l, true).root == Some(st.stack.last()),
        st.stack.len() > 1 ==> tree_step(st, l, true).stack.last().children.last() == st.stack.last()
            && tree_step(st, l, true).root == st.root,
        tree_step(st, l, true).diags == if eq_ignore_case(st.stack.last().name, l.value) {
            st.diags
        } else {
            st.diags.push(warning_at(l.source_line, msg_mismatched_end(l.source_line, l.value, st.stack.last().name)))
        },
{
    reveal_strlit("END");
    reveal_strlit("BEGIN");
    assert(!eq_ignore_case(l.name, "BEGIN"@));
}


/// What one line does to the tree in either mode: BEGIN opens a new empty
/// component named by its value; an END with nothing open, a property
/// outside any component, and a second top-level component stop the
/// build; an error, once raised, stays.
pub proof fn structure_of_one_step(st: TreeModel, l: LineModel, lenient: bool)
    ensures
        st.error is Some ==> tree_step(st, l, lenient).error == st.error,
        st.error is None && eq_ignore_case(l.name, "BEGIN"@) ==> tree_step(st, l, lenient).error is None
            && tree_step(st, l, lenient).stack == st.stack.push(empty_component(l.value)),
        st.error is None && eq_ignore_case(l.name, "END"@) && st.stack.len() == 0 ==> tree_step(
            st,
            l,
            lenient,
        ).error is Some,
        st.error is None && !eq_ignore_case(l.name, "BEGIN"@) && !eq_ignore_case(l.name, "END"@) && st.stack.len()
            == 0 ==> tree_step(st, l, lenient).error is Some,
        st.error is None && eq_ignore_case(l.name, "END"@) && st.stack.len() == 1 && st.root is Some ==> tree_step(
            st,
            l,
            lenient,
        ).error is Some,
        st.error is None && !eq_ignore_case(l.name, "BEGIN"@) && !eq_ignore_case(l.name, "END"@) && st.stack.len()
            > 0 ==> tree_step(st, l, lenient).error is None && tree_step(st, l, lenient).stack.len() == st.stack.len()
            && tree_step(st, l, lenient).stack.last().properties == st.stack.last().properties.push(l),
{
    reveal_strlit("END");
    reveal_strlit("BEGIN");
    if eq_ignore_case(l.name, "END"@) {
        assert(!eq_ignore_case(l.name, "BEGIN"@));
    }
}

} // verus!
