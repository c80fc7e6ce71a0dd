//! Parsing a full iCalendar document: line endings, unfolding, content
//! lines, the component tree, and validation of the result.
use vstd::prelude::*;

use crate::chars::{chars_of, decimal, eq_ignore_case, octets, push_decimal};
use crate::content::{content_line_spec, parse_content_line};
use crate::lines::{
    bare_lf_diags, check_line_endings, crlf_as_lf, lemma_lines_of_crlf_as_lf, diag_models, error_at, lemma_diag_models_push,
    lines_of, logical_models, split_lines, unfold, unfolded, LogicalLine,
};
use crate::text::{is_text_property, is_text_property_name, unescape, unescaped};
use crate::tree::{build_tree, line_models, tree_outcome, tree_run, warning_at};
use crate::{
    severity_for, severity_of, component_model, components_model, lemma_components_model,
    Component, ComponentModel, ContentLine, Diagnostic, DiagnosticModel, LineModel, ParseOutcome,
    Severity,
};
use vstd::string::StringExecFns;

verus! {

/// The message for a TEXT value with an invalid escape at byte `offset`.
pub open spec fn msg_bad_escape(name: Seq<char>, offset: nat) -> Seq<char> {
    "property "@ + name + " has an invalid escape sequence at offset "@ + decimal(offset)
        + ", only \\\\, \\;, \\, \\n and \\N are valid"@
}

/// A property with its TEXT value decoded; other properties, and TEXT values
/// that do not decode, stay as they are.
pub open spec fn decode_line(l: LineModel) -> LineModel {
    if is_text_property(l.name) && unescaped(l.value) is Ok {
        LineModel {
            name: l.name,
            params: l.params,
            value: unescaped(l.value)->Ok_0,
            source_line: l.source_line,
        }
    } else {
        l
    }
}

/// The diagnostic for a TEXT value that does not decode, if this is one.
pub open spec fn line_decode_diags(l: LineModel, lenient: bool) -> Seq<DiagnosticModel> {
    if is_text_property(l.name) && unescaped(l.value) is Err {
        seq![
            DiagnosticModel {
                severity: severity_for(lenient),
                line: l.source_line,
                message: msg_bad_escape(l.name, octets(l.value.take(unescaped(l.value)->Err_0))),
            },
        ]
    } else {
        Seq::empty()
    }
}

/// The decoding diagnostics of a sequence of properties, in order.
pub open spec fn props_decode_diags(ls: Seq<LineModel>, lenient: bool) -> Seq<DiagnosticModel>
    decreases ls.len(),
{
    if ls.len() == 0 {
        Seq::empty()
    } else {
        props_decode_diags(ls.drop_last(), lenient) + line_decode_diags(ls.last(), lenient)
    }
}

/// A component tree with every TEXT value decoded.
pub open spec fn decoded_component(c: ComponentModel) -> ComponentModel
    decreases c,
{
    ComponentModel {
        name: c.name,
        properties: c.properties.map_values(|l: LineModel| decode_line(l)),
        children: decoded_children(c.children),
    }
}

/// A sequence of component trees, each decoded.
pub open spec fn decoded_children(cs: Seq<ComponentModel>) -> Seq<ComponentModel>
    decreases cs,
{
    if cs.len() == 0 {
        Seq::empty()
    } else {
        decoded_children(cs.drop_last()).push(decoded_component(cs.last()))
    }
}

/// The decoding diagnostics of a tree: its own properties first, then each
/// child's, depth first.
pub open spec fn decode_diags(c: ComponentModel, lenient: bool) -> Seq<DiagnosticModel>
    decreases c,
{
    props_decode_diags(c.properties, lenient) + children_decode_diags(c.children, lenient)
}

/// The decoding diagnostics of a sequence of trees, in order.
pub open spec fn children_decode_diags(cs: Seq<ComponentModel>, lenient: bool) -> Seq<DiagnosticModel>
    decreases cs,
{
    if cs.len() == 0 {
        Seq::empty()
    } else {
        children_decode_diags(cs.drop_last(), lenient) + decode_diags(cs.last(), lenient)
    }
}

/// Decodes one TEXT property value, reporting an invalid escape.
fn decode_property(prop: ContentLine, lenient: bool, diagnostics: &mut Vec<Diagnostic>) -> (r: ContentLine)
    ensures
        r@ == decode_line(prop@),
        diag_models(final(diagnostics)@) == diag_models(old(diagnostics)@) + line_decode_diags(
            prop@,
            lenient,
        ),
{
    let mut prop = prop;
    let name = chars_of(prop.name.as_str());
    if !is_text_property_name(&name) {
        assert(diag_models(diagnostics@) + Seq::<DiagnosticModel>::empty() =~= diag_models(diagnostics@));
        return prop;
    }
    match unescape(prop.value.as_str()) {
        Ok(decoded) => {
            prop.value = decoded;
            assert(diag_models(diagnostics@) + Seq::<DiagnosticModel>::empty() =~= diag_models(diagnostics@));
            prop
        },
        Err(offset) => {
            let mut m = String::from_str("property ");
            m.append(prop.name.as_str());
            m.append(" has an invalid escape sequence at offset ");
            push_decimal(&mut m, offset);
            m.append(", only \\\\, \\;, \\, \\n and \\N are valid");
            let severity = if lenient { Severity::Warning } else { Severity::Error };
            let d = Diagnostic { severity, line: prop.source_line, message: m };
            proof {
                lemma_diag_models_push(diagnostics@, d);
            }
            diagnostics.push(d);
            prop
        },
    }
}

/// Decode each TEXT property's value in place, from its RFC 5545 §3.3.11
/// escaped form on the wire to the literal text it represents. The writer
/// re-escapes from this literal form rather than ever touching the raw bytes
/// that were read from the source, so the escaping logic has exactly one
/// place it can drift from the spec.
fn decode_text_properties(component: &mut Component, lenient: bool, diagnostics: &mut Vec<Diagnostic>)
    ensures
        component_model(*final(component)) == decoded_component(component_model(*old(component))),
        diag_models(final(diagnostics)@) == diag_models(old(diagnostics)@) + decode_diags(
            component_model(*old(component)),
            lenient,
        ),
    decreases *old(component),
{
    let ghost cm = component_model(*component);
    let ghost base = diag_models(diagnostics@);
    let mut props: Vec<ContentLine> = Vec::new();
    std::mem::swap(&mut props, &mut component.properties);
    let ghost pm = props@.map_values(|l: ContentLine| l@);
    assert(pm == cm.properties);
    let mut new_props: Vec<ContentLine> = Vec::new();
    assert(pm.take(0) =~= Seq::<LineModel>::empty());
    assert(base + Seq::<DiagnosticModel>::empty() =~= base);
    for prop in it: props.into_iter()
        invariant
            pm == it.seq().map_values(|l: ContentLine| l@),
            new_props@.len() == it.index(),
            forall|k: int| 0 <= k < it.index() ==> #[trigger] new_props@[k]@ == decode_line(pm[k]),
            diag_models(diagnostics@) == base + props_decode_diags(pm.take(it.index() as int), lenient),
    {
        let ghost i = it.index() as int;
        let ghost pv = prop@;
        let np = decode_property(prop, lenient, diagnostics);
        new_props.push(np);
        proof {
            assert(pm.take(i + 1).drop_last() =~= pm.take(i));
            assert(pm.take(i + 1).last() == pv);
            assert(diag_models(diagnostics@) =~= base + props_decode_diags(pm.take(i + 1), lenient));
        }
    }
    assert(pm.take(pm.len() as int) =~= pm);
    component.properties = new_props;
    let ghost after_props = diag_models(diagnostics@);
    let mut kids: Vec<Component> = Vec::new();
    std::mem::swap(&mut kids, &mut component.children);
    let ghost old_kids = kids@;
    proof {
        lemma_components_model(old_kids);
    }
    let ghost km = cm.children;
    let mut new_kids: Vec<Component> = Vec::new();
    assert(km.take(0) =~= Seq::<ComponentModel>::empty());
    assert(after_props + Seq::<DiagnosticModel>::empty() =~= after_props);
    for child in it: kids.into_iter()
        invariant
            it.seq() == old_kids,
            old_kids == old(component).children@,
            km == components_model(old_kids),
            km.len() == old_kids.len(),
            forall|k: int| 0 <= k < km.len() ==> #[trigger] km[k] == component_model(old_kids[k]),
            new_kids@.len() == it.index(),
            forall|k: int| 0 <= k < it.index() ==> #[trigger] component_model(new_kids@[k])
                == decoded_component(km[k]),
            diag_models(diagnostics@) == after_props + children_decode_diags(km.take(it.index() as int), lenient),
    {
        let ghost i = it.index() as int;
        let mut child = child;
        proof {
            assert(child == old_kids[i]);
            assert(decreases_to!(*old(component) => old(component).children));
            assert(decreases_to!(old(component).children => old(component).children@));
            assert(decreases_to!(old(component).children@ => old(component).children@[i]));
        }
        decode_text_properties(&mut child, lenient, diagnostics);
        new_kids.push(child);
        proof {
            assert(km.take(i + 1).drop_last() =~= km.take(i));
            assert(km.take(i + 1).last() == km[i]);
            assert(diag_models(diagnostics@) =~= after_props + children_decode_diags(km.take(i + 1), lenient));
        }
    }
    assert(km.take(km.len() as int) =~= km);
    component.children = new_kids;
    proof {
        lemma_components_model(new_kids@);
        lemma_decoded_children(km);
        assert(components_model(component.children@) =~= decoded_children(km));
        assert(component.properties@.map_values(|l: ContentLine| l@) =~= cm.properties.map_values(
            |l: LineModel| decode_line(l),
        ));
        assert(diag_models(diagnostics@) =~= base + decode_diags(cm, lenient));
    }
}

/// `decoded_children` decodes each tree, position by position.
proof fn lemma_decoded_children(cs: Seq<ComponentModel>)
    ensures
        decoded_children(cs).len() == cs.len(),
        forall|i: int| 0 <= i < cs.len() ==> #[trigger] decoded_children(cs)[i] == decoded_component(cs[i]),
    decreases cs.len(),
{
    if cs.len() > 0 {
        lemma_decoded_children(cs.drop_last());
    }
}

/// Whether a component has a property of the given name (ASCII case ignored).
pub open spec fn has_property(c: ComponentModel, name: Seq<char>) -> bool {
    exists|i: int| 0 <= i < c.properties.len() && eq_ignore_case(#[trigger] c.properties[i].name, name)
}

/// The message for a top-level component that is not VCALENDAR.
pub open spec fn msg_not_vcalendar(name: Seq<char>) -> Seq<char> {
    "top level component is "@ + name + ", RFC 5545 requires VCALENDAR"@
}

/// The message for a calendar without VERSION.
pub open spec fn msg_missing_version() -> Seq<char> {
    "VCALENDAR is missing the required VERSION property"@
}

/// The message for a calendar without PRODID.
pub open spec fn msg_missing_prodid() -> Seq<char> {
    "VCALENDAR is missing the required PRODID property"@
}

/// The message for a calendar without sub-components.
pub open spec fn msg_no_children() -> Seq<char> {
    "VCALENDAR has no sub components such as VEVENT or VTODO"@
}

/// A diagnostic without a line number.
pub open spec fn general(severity: Severity, message: Seq<char>) -> DiagnosticModel {
    DiagnosticModel { severity, line: 0, message }
}

/// The diagnostics of the checks on the top-level component: it must be a
/// VCALENDAR with VERSION and PRODID, and it should have sub-components.
pub open spec fn header_diags(c: ComponentModel, lenient: bool) -> Seq<DiagnosticModel> {
    let sev = severity_for(lenient);
    (if !eq_ignore_case(c.name, "VCALENDAR"@) {
        seq![general(sev, msg_not_vcalendar(c.name))]
    } else {
        Seq::empty()
    }) + (if !has_property(c, "VERSION"@) {
        seq![general(sev, msg_missing_version())]
    } else {
        Seq::empty()
    }) + (if !has_property(c, "PRODID"@) {
        seq![general(sev, msg_missing_prodid())]
    } else {
        Seq::empty()
    }) + (if c.children.len() == 0 {
        seq![general(Severity::Warning, msg_no_children())]
    } else {
        Seq::empty()
    })
}

/// All diagnostics of validating a tree: the top-level checks, then the
/// decoding of TEXT values.
pub open spec fn validate_diags(c: ComponentModel, lenient: bool) -> Seq<DiagnosticModel> {
    header_diags(c, lenient) + decode_diags(c, lenient)
}

fn push_diag(diagnostics: &mut Vec<Diagnostic>, severity: Severity, line: usize, message: String)
    ensures
        diag_models(final(diagnostics)@) == diag_models(old(diagnostics)@).push(
            DiagnosticModel { severity, line: line as nat, message: message@ },
        ),
{
    let d = Diagnostic { severity, line, message };
    proof {
        lemma_diag_models_push(diagnostics@, d);
    }
    diagnostics.push(d);
}

/// Checks the top-level component and decodes TEXT values in the tree.
fn validate(tree: &mut Component, lenient: bool, diagnostics: &mut Vec<Diagnostic>)
    ensures
        component_model(*final(tree)) == decoded_component(component_model(*old(tree))),
        diag_models(final(diagnostics)@) == diag_models(old(diagnostics)@) + validate_diags(
            component_model(*old(tree)),
            lenient,
        ),
{
    let ghost cm = component_model(*tree);
    let ghost base = diag_models(diagnostics@);
    let severity = if lenient { Severity::Warning } else { Severity::Error };
    let name = chars_of(tree.name.as_str());
    let is_cal = crate::chars::chars_eq_ignore_case(&name, "VCALENDAR");
    if !is_cal {
        let mut m = String::from_str("top level component is ");
        m.append(tree.name.as_str());
        m.append(", RFC 5545 requires VCALENDAR");
        push_diag(diagnostics, severity, 0, m);
    }
    let has_version = tree.property("VERSION").is_some();
    proof {
        lemma_has_property(*tree, "VERSION"@);
    }
    if !has_version {
        push_diag(diagnostics, severity, 0, String::from_str("VCALENDAR is missing the required VERSION property"));
    }
    let has_prodid = tree.property("PRODID").is_some();
    proof {
        lemma_has_property(*tree, "PRODID"@);
    }
    if !has_prodid {
        push_diag(diagnostics, severity, 0, String::from_str("VCALENDAR is missing the required PRODID property"));
    }
    proof {
        lemma_components_model(tree.children@);
    }
    if tree.children.len() == 0 {
        push_diag(
            diagnostics,
            Severity::Warning,
            0,
            String::from_str("VCALENDAR has no sub components such as VEVENT or VTODO"),
        );
    }
    assert(diag_models(diagnostics@) =~= base + header_diags(cm, lenient));
    decode_text_properties(tree, lenient, diagnostics);
    assert(diag_models(diagnostics@) =~= base + validate_diags(cm, lenient));
}

/// `has_property` on the model agrees with the names of the exec properties.
proof fn lemma_has_property(c: Component, name: Seq<char>)
    ensures
        has_property(component_model(c), name) <==> exists|i: int|
            0 <= i < c.properties@.len() && eq_ignore_case(#[trigger] c.properties@[i].name@, name),
{
    let m = component_model(c);
    if has_property(m, name) {
        let i = choose|i: int| 0 <= i < m.properties.len() && eq_ignore_case(#[trigger] m.properties[i].name, name);
        assert(m.properties[i] == c.properties@[i]@);
        assert(eq_ignore_case(c.properties@[i].name@, name));
    }
    if exists|i: int| 0 <= i < c.properties@.len() && eq_ignore_case(#[trigger] c.properties@[i].name@, name) {
        let i = choose|i: int| 0 <= i < c.properties@.len() && eq_ignore_case(#[trigger] c.properties@[i].name@, name);
        assert(m.properties[i] == c.properties@[i]@);
        assert(eq_ignore_case(m.properties[i].name, name));
    }
}

/// The state of content-line parsing: the lines parsed so far and the
/// errors for the ones that did not parse.
pub struct ContentModel {
    pub lines: Seq<LineModel>,
    pub diags: Seq<DiagnosticModel>,
}

/// One logical line parsed; an empty one is skipped, one that is not a
/// content line is reported with the mode's severity.
pub open spec fn content_step(st: ContentModel, l: (nat, Seq<char>), lenient: bool) -> ContentModel {
    if l.1.len() == 0 {
        st
    } else {
        match content_line_spec(l.1, l.0) {
            Ok(cl) => ContentModel { lines: st.lines.push(cl), diags: st.diags },
            Err(m) => ContentModel {
                lines: st.lines,
                diags: st.diags.push(DiagnosticModel { severity: severity_for(lenient), line: l.0, message: m }),
            },
        }
    }
}

/// All logical lines parsed, in order.
pub open spec fn content_run(ls: Seq<(nat, Seq<char>)>, lenient: bool) -> ContentModel
    decreases ls.len(),
{
    if ls.len() == 0 {
        ContentModel { lines: Seq::empty(), diags: Seq::empty() }
    } else {
        content_step(content_run(ls.drop_last(), lenient), ls.last(), lenient)
    }
}

/// Whether any of the diagnostics is an error.
pub open spec fn has_error(ds: Seq<DiagnosticModel>) -> bool {
    exists|i: int| 0 <= i < ds.len() && #[trigger] ds[i].severity == Severity::Error
}

fn any_error(diagnostics: &Vec<Diagnostic>) -> (r: bool)
    ensures
        r == has_error(diag_models(diagnostics@)),
{
    let mut i: usize = 0;
    while i < diagnostics.len()
        invariant
            i <= diagnostics@.len(),
            forall|k: int| 0 <= k < i ==> #[trigger] diagnostics@[k].severity != Severity::Error,
        decreases diagnostics@.len() - i,
    {
        if diagnostics[i].severity == Severity::Error {
            assert(diag_models(diagnostics@)[i as int].severity == Severity::Error);
            return true;
        }
        i = i + 1;
    }
    proof {
        if has_error(diag_models(diagnostics@)) {
            let k = choose|k: int| 0 <= k < diag_models(diagnostics@).len()
                && #[trigger] diag_models(diagnostics@)[k].severity == Severity::Error;
            assert(diagnostics@[k].severity == Severity::Error);
        }
    }
    false
}

/// The diagnostics raised before the tree is built: bare LFs (strict mode
/// only), orphan continuation lines, and content lines that do not parse.
pub open spec fn line_diags(input: Seq<char>, lenient: bool) -> Seq<DiagnosticModel> {
    (if lenient {
        Seq::empty()
    } else {
        bare_lf_diags(input)
    }) + unfolded(lines_of(input), lenient).diags + content_run(
        unfolded(lines_of(input), lenient).logical,
        lenient,
    ).diags
}

/// The content lines of an input, in order.
pub open spec fn content_lines_of(input: Seq<char>, lenient: bool) -> Seq<LineModel> {
    content_run(unfolded(lines_of(input), lenient).logical, lenient).lines
}

/// What parsing an input gives: the decoded tree and all diagnostics, or
/// the diagnostics that made it fail.
///
/// Strict mode fails when any diagnostic is an error, after building and
/// validating as much as it can, so that all problems are reported at
/// once. Lenient mode fails only where the BEGIN/END structure is corrupt:
/// the tree builder's error is then added, at line 0.
pub open spec fn parse_spec(input: Seq<char>, lenient: bool) -> Result<
    (ComponentModel, Seq<DiagnosticModel>),
    Seq<DiagnosticModel>,
> {
    let pre = line_diags(input, lenient);
    let st = tree_run(content_lines_of(input, lenient), lenient);
    match tree_outcome(st) {
        Err(m) => Err(pre + st.diags + seq![error_at(0, m)]),
        Ok(tree) => {
            let all = pre + st.diags + validate_diags(tree, lenient);
            if !lenient && has_error(all) {
                Err(all)
            } else {
                Ok((decoded_component(tree), all))
            }
        },
    }
}

/// Parses all logical lines, reporting the ones that are not content lines.
fn parse_lines(logical: &Vec<LogicalLine>, lenient: bool, diagnostics: &mut Vec<Diagnostic>) -> (r: Vec<
    ContentLine,
>)
    ensures
        line_models(r@) == content_run(logical_models(logical@), lenient).lines,
        diag_models(final(diagnostics)@) == diag_models(old(diagnostics)@) + content_run(
            logical_models(logical@),
            lenient,
        ).diags,
{
    let ghost lm = logical_models(logical@);
    let ghost base = diag_models(diagnostics@);
    let mut content_lines: Vec<ContentLine> = Vec::new();
    let mut idx: usize = 0;
    assert(lm.take(0) =~= Seq::<(nat, Seq<char>)>::empty());
    assert(line_models(content_lines@) =~= Seq::<LineModel>::empty());
    assert(base + Seq::<DiagnosticModel>::empty() =~= base);
    while idx < logical.len()
        invariant
            lm == logical_models(logical@),
            base == diag_models(old(diagnostics)@),
            idx <= logical@.len(),
            line_models(content_lines@) == content_run(lm.take(idx as int), lenient).lines,
            diag_models(diagnostics@) == base + content_run(lm.take(idx as int), lenient).diags,
        decreases logical@.len() - idx,
    {
        let l = &logical[idx];
        proof {
            assert(lm.take(idx + 1).drop_last() =~= lm.take(idx as int));
            assert(lm.take(idx + 1).last() == (l.line_no as nat, l.text@));
        }
        if l.text.len() > 0 {
            match parse_content_line(&l.text, l.line_no) {
                Ok(cl) => {
                    let ghost before = content_lines@;
                    content_lines.push(cl);
                    assert(line_models(content_lines@) =~= line_models(before).push(cl@));
                },
                Err(message) => {
                    push_diag(diagnostics, severity_of(lenient), l.line_no, message);
                },
            }
        }
        assert(diag_models(diagnostics@) =~= base + content_run(lm.take(idx + 1), lenient).diags);
        idx = idx + 1;
    }
    assert(lm.take(idx as int) =~= lm);
    content_lines
}

/// Parse a full iCalendar document.
///
/// In strict mode (`lenient = false`) the input is checked as far as its
/// structure allows, and if any diagnostic is an error all of them are
/// returned as `Err`. In lenient mode, spec violations that don't corrupt
/// the BEGIN/END structure are downgraded to warnings and parsing continues.
pub fn parse(input: &str, lenient: bool) -> (r: Result<ParseOutcome, Vec<Diagnostic>>)
    ensures
        match parse_spec(input@, lenient) {
            Ok((tree, ds)) => r matches Ok(o) && o.calendar@ == tree && diag_models(o.diagnostics@) == ds,
            Err(ds) => r matches Err(e) && diag_models(e@) == ds,
        },
{
    let chars = chars_of(input);
    let mut diagnostics: Vec<Diagnostic> = Vec::new();
    assert(diag_models(diagnostics@) =~= Seq::<DiagnosticModel>::empty());
    check_line_endings(&chars, lenient, &mut diagnostics);
    let physical = split_lines(&chars);
    let logical = unfold(&physical, lenient, &mut diagnostics);
    let content_lines = parse_lines(&logical, lenient, &mut diagnostics);
    let ghost pre = line_diags(input@, lenient);
    assert(diag_models(diagnostics@) =~= pre);
    let ghost st = tree_run(content_lines_of(input@, lenient), lenient);
    let mut tree = match build_tree(content_lines, lenient, &mut diagnostics) {
        Ok(t) => t,
        Err(message) => {
            push_diag(&mut diagnostics, Severity::Error, 0, message);
            assert(diag_models(diagnostics@) =~= pre + st.diags + seq![error_at(0, tree_outcome(st)->Err_0)]);
            return Err(diagnostics);
        },
    };
    let ghost tm = component_model(tree);
    validate(&mut tree, lenient, &mut diagnostics);
    assert(diag_models(diagnostics@) =~= pre + st.diags + validate_diags(tm, lenient));
    if !lenient && any_error(&diagnostics) {
        return Err(diagnostics);
    }
    Ok(ParseOutcome { calendar: tree, diagnostics })
}

/// In strict mode a successful parse carries no error, only warnings.
pub proof fn strict_success_has_no_errors(input: Seq<char>)
    ensures
        parse_spec(input, false) matches Ok((_, ds)) ==> !has_error(ds),
{
}

proof fn lemma_bare_lf_diags_are_errors(s: Seq<char>)
    ensures
        forall|i: int| 0 <= i < bare_lf_diags(s).len() ==> (#[trigger] bare_lf_diags(s)[i]).severity
            == Severity::Error && bare_lf_diags(s)[i].line >= 1,
    decreases s.len(),
{
    if s.len() > 0 {
        lemma_bare_lf_diags_are_errors(s.drop_last());
    }
}

/// An error among the first diagnostics stays an error among all of them.
proof fn lemma_has_error_prefix(a: Seq<DiagnosticModel>, b: Seq<DiagnosticModel>)
    requires
        has_error(a),
    ensures
        has_error(a + b),
{
    let i = choose|i: int| 0 <= i < a.len() && #[trigger] a[i].severity == Severity::Error;
    assert((a + b)[i] == a[i]);
}

/// An error among the last diagnostics stays an error among all of them.
proof fn lemma_has_error_suffix(a: Seq<DiagnosticModel>, b: Seq<DiagnosticModel>)
    requires
        has_error(b),
    ensures
        has_error(a + b),
{
    let i = choose|i: int| 0 <= i < b.len() && #[trigger] b[i].severity == Severity::Error;
    assert((a + b)[a.len() + i] == b[i]);
}

/// Strict mode requires CRLF: an input with a line ended by a bare LF is
/// rejected, and the bare LF is among the reasons given.
pub proof fn strict_rejects_bare_lf(input: Seq<char>)
    requires
        bare_lf_diags(input).len() > 0,
    ensures
        parse_spec(input, false) matches Err(ds) && ds[0] == bare_lf_diags(input)[0],
{
    lemma_bare_lf_diags_are_errors(input);
    let pre = line_diags(input, false);
    assert(pre[0] == bare_lf_diags(input)[0]);
    assert(pre[0].severity == Severity::Error);
    assert(has_error(pre));
    let st = tree_run(content_lines_of(input, false), false);
    if let Ok(tree) = tree_outcome(st) {
        lemma_has_error_prefix(pre, st.diags + validate_diags(tree, false));
        assert(pre + st.diags + validate_diags(tree, false) =~= pre + (st.diags + validate_diags(tree, false)));
    }
}

/// Lenient mode fails only where the BEGIN/END structure is corrupt: the
/// tree builder failed, and its error is the last diagnostic, at line 0.
pub proof fn lenient_fails_only_on_structure(input: Seq<char>)
    ensures
        parse_spec(input, true) matches Err(ds) ==> {
            &&& tree_outcome(tree_run(content_lines_of(input, true), true)) matches Err(m)
            &&& ds.len() > 0
            &&& ds.last() == error_at(0, m)
        },
{
}

/// An END whose name is not that of the innermost open BEGIN stops the
/// build in strict mode and is a warning in lenient mode.
pub proof fn mismatched_end_strict_vs_lenient(st: crate::tree::TreeModel, l: LineModel)
    requires
        st.error is None,
        eq_ignore_case(l.name, "END"@),
        !eq_ignore_case(l.name, "BEGIN"@),
        st.stack.len() > 1,
        !eq_ignore_case(st.stack.last().name, l.value),
    ensures
        crate::tree::tree_step(st, l, false).error == Some(
            crate::tree::msg_mismatched_end(l.source_line, l.value, st.stack.last().name),
        ),
        crate::tree::tree_step(st, l, true).error is None,
        crate::tree::tree_step(st, l, true).diags == st.diags.push(
            warning_at(l.source_line, crate::tree::msg_mismatched_end(l.source_line, l.value, st.stack.last().name)),
        ),
{
}

/// A missing VERSION or PRODID, or a top-level component other than
/// VCALENDAR, is an error in strict mode and a warning in lenient mode; a
/// calendar without sub-components is only ever a warning.
pub proof fn header_severity(c: ComponentModel, lenient: bool)
    ensures
        forall|i: int| 0 <= i < header_diags(c, lenient).len() ==> {
            ||| (#[trigger] header_diags(c, lenient)[i]).severity == severity_for(lenient)
            ||| header_diags(c, lenient)[i] == general(Severity::Warning, msg_no_children())
        },
{
    let sev = severity_for(lenient);
    let a: Seq<DiagnosticModel> = if !eq_ignore_case(c.name, "VCALENDAR"@) {
        seq![general(sev, msg_not_vcalendar(c.name))]
    } else {
        Seq::empty()
    };
    let b: Seq<DiagnosticModel> = if !has_property(c, "VERSION"@) {
        seq![general(sev, msg_missing_version())]
    } else {
        Seq::empty()
    };
    let d: Seq<DiagnosticModel> = if !has_property(c, "PRODID"@) {
        seq![general(sev, msg_missing_prodid())]
    } else {
        Seq::empty()
    };
    let e: Seq<DiagnosticModel> = if c.children.len() == 0 {
        seq![general(Severity::Warning, msg_no_children())]
    } else {
        Seq::empty()
    };
    let h = header_diags(c, lenient);
    assert(h == a + b + d + e);
    assert forall|i: int| 0 <= i < h.len() implies {
        ||| (#[trigger] h[i]).severity == sev
        ||| h[i] == general(Severity::Warning, msg_no_children())
    } by {
        if i < a.len() {
            assert(h[i] == a[i]);
        } else if i < a.len() + b.len() {
            assert(h[i] == b[i - a.len()]);
        } else if i < a.len() + b.len() + d.len() {
            assert(h[i] == d[i - a.len() - b.len()]);
        } else {
            assert(h[i] == e[i - a.len() - b.len() - d.len()]);
        }
    }
}

/// In strict mode a calendar without VERSION is rejected.
pub proof fn strict_requires_version(input: Seq<char>)
    requires
        tree_outcome(tree_run(content_lines_of(input, false), false)) matches Ok(t) && !has_property(t, "VERSION"@),
    ensures
        parse_spec(input, false) is Err,
{
    let pre = line_diags(input, false);
    {
        let st = tree_run(content_lines_of(input, false), false);
        let t = tree_outcome(st)->Ok_0;
        let h = header_diags(t, false);
        let first: Seq<DiagnosticModel> = if !eq_ignore_case(t.name, "VCALENDAR"@) {
            seq![general(Severity::Error, msg_not_vcalendar(t.name))]
        } else {
            Seq::empty()
        };
        let all = pre + st.diags + validate_diags(t, false);
        let k = pre.len() + st.diags.len() + first.len();
        let rest_h: Seq<DiagnosticModel> = (if !has_property(t, "PRODID"@) {
            seq![general(Severity::Error, msg_missing_prodid())]
        } else {
            Seq::empty()
        }) + (if t.children.len() == 0 {
            seq![general(Severity::Warning, msg_no_children())]
        } else {
            Seq::empty()
        });
        assert(h =~= first + seq![general(Severity::Error, msg_missing_version())] + rest_h);
        assert(h[first.len() as int] == general(Severity::Error, msg_missing_version()));
        assert(all =~= pre + st.diags + h + decode_diags(t, false));
        assert(all[k as int] == h[first.len() as int]);
        assert(all[k as int].severity == Severity::Error);
        assert(has_error(all));
        assert(parse_spec(input, false) == Err::<(ComponentModel, Seq<DiagnosticModel>), Seq<DiagnosticModel>>(all));
    }
}

/// In strict mode a calendar without PRODID is rejected.
pub proof fn strict_requires_prodid(input: Seq<char>)
    requires
        tree_outcome(tree_run(content_lines_of(input, false), false)) matches Ok(t) && !has_property(t, "PRODID"@),
    ensures
        parse_spec(input, false) is Err,
{
    let pre = line_diags(input, false);
    {
        let st = tree_run(content_lines_of(input, false), false);
        let t = tree_outcome(st)->Ok_0;
        let h = header_diags(t, false);
        let first: Seq<DiagnosticModel> = (if !eq_ignore_case(t.name, "VCALENDAR"@) {
            seq![general(Severity::Error, msg_not_vcalendar(t.name))]
        } else {
            Seq::empty()
        }) + (if !has_property(t, "VERSION"@) {
            seq![general(Severity::Error, msg_missing_version())]
        } else {
            Seq::empty()
        });
        let all = pre + st.diags + validate_diags(t, false);
        let k = pre.len() + st.diags.len() + first.len();
        let rest_h: Seq<DiagnosticModel> = if t.children.len() == 0 {
            seq![general(Severity::Warning, msg_no_children())]
        } else {
            Seq::empty()
        };
        assert(h =~= first + seq![general(Severity::Error, msg_missing_prodid())] + rest_h);
        assert(h[first.len() as int] == general(Severity::Error, msg_missing_prodid()));
        assert(all =~= pre + st.diags + h + decode_diags(t, false));
        assert(all[k as int] == h[first.len() as int]);
        assert(all[k as int].severity == Severity::Error);
        assert(has_error(all));
        assert(parse_spec(input, false) == Err::<(ComponentModel, Seq<DiagnosticModel>), Seq<DiagnosticModel>>(all));
    }
}

/// A failed parse always explains itself: among its diagnostics there is
/// at least one error.
pub proof fn failure_reports_an_error(input: Seq<char>, lenient: bool)
    ensures
        parse_spec(input, lenient) matches Err(ds) ==> has_error(ds),
{
    let pre = line_diags(input, lenient);
    let st = tree_run(content_lines_of(input, lenient), lenient);
    if let Err(m) = tree_outcome(st) {
        let ds = pre + st.diags + seq![error_at(0, m)];
        assert(ds[ds.len() - 1] == error_at(0, m));
        assert(ds[ds.len() - 1].severity == Severity::Error);
    }
}

/// Whether every diagnostic is a warning.
pub open spec fn all_warnings(ds: Seq<DiagnosticModel>) -> bool {
    forall|i: int| 0 <= i < ds.len() ==> #[trigger] ds[i].severity == Severity::Warning
}

proof fn lemma_all_warnings_concat(a: Seq<DiagnosticModel>, b: Seq<DiagnosticModel>)
    requires
        all_warnings(a),
        all_warnings(b),
    ensures
        all_warnings(a + b),
{
    assert forall|i: int| 0 <= i < (a + b).len() implies #[trigger] (a + b)[i].severity == Severity::Warning by {
        if i < a.len() {
            assert((a + b)[i] == a[i]);
        } else {
            assert((a + b)[i] == b[i - a.len()]);
        }
    }
}

proof fn lemma_unfold_lenient_warnings(ls: Seq<Seq<char>>)
    ensures
        all_warnings(unfolded(ls, true).diags),
    decreases ls.len(),
{
    if ls.len() > 0 {
        lemma_unfold_lenient_warnings(ls.drop_last());
    }
}

proof fn lemma_content_lenient_warnings(ls: Seq<(nat, Seq<char>)>)
    ensures
        all_warnings(content_run(ls, true).diags),
    decreases ls.len(),
{
    if ls.len() > 0 {
        lemma_content_lenient_warnings(ls.drop_last());
    }
}

proof fn lemma_tree_lenient_warnings(ls: Seq<LineModel>)
    ensures
        all_warnings(tree_run(ls, true).diags),
    decreases ls.len(),
{
    if ls.len() > 0 {
        lemma_tree_lenient_warnings(ls.drop_last());
    }
}

proof fn lemma_props_lenient_warnings(ls: Seq<LineModel>)
    ensures
        all_warnings(props_decode_diags(ls, true)),
    decreases ls.len(),
{
    if ls.len() > 0 {
        lemma_props_lenient_warnings(ls.drop_last());
        lemma_all_warnings_concat(props_decode_diags(ls.drop_last(), true), line_decode_diags(ls.last(), true));
    }
}

proof fn lemma_decode_lenient_warnings(c: ComponentModel)
    ensures
        all_warnings(decode_diags(c, true)),
    decreases c,
{
    lemma_props_lenient_warnings(c.properties);
    lemma_children_lenient_warnings(c.children);
    lemma_all_warnings_concat(props_decode_diags(c.properties, true), children_decode_diags(c.children, true));
}

proof fn lemma_children_lenient_warnings(cs: Seq<ComponentModel>)
    ensures
        all_warnings(children_decode_diags(cs, true)),
    decreases cs,
{
    if cs.len() > 0 {
        lemma_children_lenient_warnings(cs.drop_last());
        lemma_decode_lenient_warnings(cs.last());
        lemma_all_warnings_concat(children_decode_diags(cs.drop_last(), true), decode_diags(cs.last(), true));
    }
}

/// In lenient mode every violation that leaves the BEGIN/END structure
/// intact is a warning: a successful lenient parse carries warnings only.
pub proof fn lenient_success_has_only_warnings(input: Seq<char>)
    ensures
        parse_spec(input, true) matches Ok((_, ds)) ==> all_warnings(ds) && !has_error(ds),
{
    let st = tree_run(content_lines_of(input, true), true);
    if let Ok(tree) = tree_outcome(st) {
        let u = unfolded(lines_of(input), true);
        lemma_unfold_lenient_warnings(lines_of(input));
        lemma_content_lenient_warnings(u.logical);
        assert(all_warnings(Seq::<DiagnosticModel>::empty()));
        lemma_all_warnings_concat(Seq::empty(), u.diags);
        lemma_all_warnings_concat(Seq::<DiagnosticModel>::empty() + u.diags, content_run(u.logical, true).diags);
        let pre = line_diags(input, true);
        lemma_tree_lenient_warnings(content_lines_of(input, true));
        lemma_all_warnings_concat(pre, st.diags);
        header_severity(tree, true);
        assert(all_warnings(header_diags(tree, true)));
        lemma_decode_lenient_warnings(tree);
        lemma_all_warnings_concat(header_diags(tree, true), decode_diags(tree, true));
        lemma_all_warnings_concat(pre + st.diags, validate_diags(tree, true));
        let all = pre + st.diags + validate_diags(tree, true);
        if has_error(all) {
            let i = choose|i: int| 0 <= i < all.len() && #[trigger] all[i].severity == Severity::Error;
            assert(all[i].severity == Severity::Warning);
        }
    }
}

/// Whether a diagnostic is an error tied to a line, as every bare-LF
/// report is.
pub open spec fn is_line_error(d: DiagnosticModel) -> bool {
    d.severity == Severity::Error && d.line >= 1
}

/// The diagnostics of a parse, whether it succeeded or failed.
pub open spec fn parse_diags(r: Result<(ComponentModel, Seq<DiagnosticModel>), Seq<DiagnosticModel>>) -> Seq<
    DiagnosticModel,
> {
    match r {
        Ok((_, ds)) => ds,
        Err(ds) => ds,
    }
}

/// Lenient mode never reports a bare LF: no diagnostic of a lenient parse
/// is an error tied to a line, while every bare-LF report is one.
pub proof fn lenient_reports_no_bare_lf(input: Seq<char>)
    ensures
        forall|i: int| 0 <= i < parse_diags(parse_spec(input, true)).len() ==> !is_line_error(
            #[trigger] parse_diags(parse_spec(input, true))[i],
        ),
        forall|s: Seq<char>, k: int| 0 <= k < bare_lf_diags(s).len() ==> is_line_error(#[trigger] bare_lf_diags(s)[k]),
{
    assert forall|s: Seq<char>, k: int| 0 <= k < bare_lf_diags(s).len() implies is_line_error(
        #[trigger] bare_lf_diags(s)[k],
    ) by {
        lemma_bare_lf_diags_are_errors(s);
    }
    lenient_success_has_only_warnings(input);
    let pre = line_diags(input, true);
    let st = tree_run(content_lines_of(input, true), true);
    let ds = parse_diags(parse_spec(input, true));
    match tree_outcome(st) {
        Err(m) => {
            let u = unfolded(lines_of(input), true);
            lemma_unfold_lenient_warnings(lines_of(input));
            lemma_content_lenient_warnings(u.logical);
            assert(all_warnings(Seq::<DiagnosticModel>::empty()));
            lemma_all_warnings_concat(Seq::empty(), u.diags);
            lemma_all_warnings_concat(Seq::<DiagnosticModel>::empty() + u.diags, content_run(u.logical, true).diags);
            lemma_tree_lenient_warnings(content_lines_of(input, true));
            lemma_all_warnings_concat(pre, st.diags);
            let w = pre + st.diags;
            assert(ds == w + seq![error_at(0, m)]);
            assert forall|i: int| 0 <= i < ds.len() implies !is_line_error(#[trigger] ds[i]) by {
                if i < w.len() {
                    assert(ds[i] == w[i]);
                } else {
                    assert(ds[i] == error_at(0, m));
                }
            }
        },
        Ok(_) => {
            assert forall|i: int| 0 <= i < ds.len() implies !is_line_error(#[trigger] ds[i]) by {
                assert(ds[i].severity == Severity::Warning);
            }
        },
    }
}

/// In lenient mode CRLF and bare LF line endings parse alike: an input in
/// which every `\r` ends a line gives the same result, tree and
/// diagnostics, when its CRLFs are written as LFs.
pub proof fn lenient_crlf_and_lf_agree(input: Seq<char>)
    requires
        forall|i: int| 0 <= i < input.len() && #[trigger] input[i] == '\r' ==> i + 1 < input.len() && input[i + 1]
            == '\n',
    ensures
        parse_spec(crlf_as_lf(input), true) == parse_spec(input, true),
        forall|i: int| 0 <= i < parse_diags(parse_spec(input, true)).len() ==> !is_line_error(
            #[trigger] parse_diags(parse_spec(input, true))[i],
        ),
{
    lemma_lines_of_crlf_as_lf(input);
    lenient_reports_no_bare_lf(input);
}

} // verus!
