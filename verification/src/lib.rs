//! A validating parser and pretty printer for iCalendar (RFC 5545) files.
//!
//! The shared `Component` / `ContentLine` / `Diagnostic` types live here,
//! each with a mathematical model (its view) that the contracts of the
//! parser and the writer speak of.
use vstd::prelude::*;

pub mod chars;
pub mod content;
pub mod document;
pub mod lines;
pub mod parsed;
pub mod parser;
pub mod roundtrip;
pub mod text;
pub mod tree;
pub mod writer;

use crate::chars::{chars_eq_ignore_case, chars_of, decimal, eq_ignore_case, push_decimal};
use vstd::string::StringExecFns;

verus! {

/// A single parameter attached to a property, e.g. `TZID=America/Chicago` in
/// `DTSTART;TZID=America/Chicago:20260101T090000`.
#[derive(Debug)]
pub struct Param {
    pub name: String,
    pub values: Vec<String>,
}

/// The model of a [`Param`]: its name and its values as character sequences.
pub struct ParamModel {
    pub name: Seq<char>,
    pub values: Seq<Seq<char>>,
}

impl View for Param {
    type V = ParamModel;

    open spec fn view(&self) -> ParamModel {
        ParamModel { name: self.name@, values: self.values@.map_values(|v: String| v@) }
    }
}

/// One unfolded, parsed line of an iCalendar file: `NAME;params:value`.
#[derive(Debug)]
pub struct ContentLine {
    pub name: String,
    pub params: Vec<Param>,
    pub value: String,
    pub source_line: usize,
}

/// The model of a [`ContentLine`].
pub struct LineModel {
    pub name: Seq<char>,
    pub params: Seq<ParamModel>,
    pub value: Seq<char>,
    pub source_line: nat,
}

impl View for ContentLine {
    type V = LineModel;

    open spec fn view(&self) -> LineModel {
        LineModel {
            name: self.name@,
            params: self.params@.map_values(|p: Param| p@),
            value: self.value@,
            source_line: self.source_line as nat,
        }
    }
}

/// A BEGIN/END block such as VCALENDAR, VEVENT, or VALARM, holding its own
/// properties and any nested components.
#[derive(Debug)]
pub struct Component {
    pub name: String,
    pub properties: Vec<ContentLine>,
    pub children: Vec<Component>,
}

/// The model of a [`Component`]: a tree of names and property lines.
pub struct ComponentModel {
    pub name: Seq<char>,
    pub properties: Seq<LineModel>,
    pub children: Seq<ComponentModel>,
}

/// The model of one component.
pub open spec fn component_model(c: Component) -> ComponentModel
    decreases c,
{
    ComponentModel {
        name: c.name@,
        properties: c.properties@.map_values(|l: ContentLine| l@),
        children: components_model(c.children@),
    }
}

/// The models of a sequence of components, in order.
pub open spec fn components_model(cs: Seq<Component>) -> Seq<ComponentModel>
    decreases cs,
{
    if cs.len() == 0 {
        Seq::empty()
    } else {
        components_model(cs.drop_last()).push(component_model(cs.last()))
    }
}

impl View for Component {
    type V = ComponentModel;

    open spec fn view(&self) -> ComponentModel {
        component_model(*self)
    }
}

/// `components_model` maps each component to its model, position by position.
pub proof fn lemma_components_model(cs: Seq<Component>)
    ensures
        components_model(cs).len() == cs.len(),
        forall|i: int| 0 <= i < cs.len() ==> #[trigger] components_model(cs)[i] == component_model(cs[i]),
    decreases cs.len(),
{
    if cs.len() > 0 {
        lemma_components_model(cs.drop_last());
    }
}

/// The models of `cs.push(c)` are those of `cs` followed by that of `c`.
pub proof fn lemma_components_model_push(cs: Seq<Component>, c: Component)
    ensures
        components_model(cs.push(c)) == components_model(cs).push(component_model(c)),
{
    assert(cs.push(c).drop_last() =~= cs);
}

impl Clone for Param {
    fn clone(&self) -> (r: Self)
        ensures
            r@ == self@,
    {
        let mut values: Vec<String> = Vec::new();
        let mut i: usize = 0;
        while i < self.values.len()
            invariant
                i <= self.values@.len(),
                values@.len() == i,
                forall|k: int| 0 <= k < i ==> #[trigger] values@[k]@ == self.values@[k]@,
            decreases self.values@.len() - i,
        {
            values.push(self.values[i].clone());
            i = i + 1;
        }
        let r = Param { name: self.name.clone(), values };
        assert(r@.values =~= self@.values);
        r
    }
}

impl Clone for ContentLine {
    fn clone(&self) -> (r: Self)
        ensures
            r@ == self@,
    {
        let mut params: Vec<Param> = Vec::new();
        let mut i: usize = 0;
        while i < self.params.len()
            invariant
                i <= self.params@.len(),
                params@.len() == i,
                forall|k: int| 0 <= k < i ==> #[trigger] params@[k]@ == self.params@[k]@,
            decreases self.params@.len() - i,
        {
            params.push(self.params[i].clone());
            i = i + 1;
        }
        let r = ContentLine {
            name: self.name.clone(),
            params,
            value: self.value.clone(),
            source_line: self.source_line,
        };
        assert(r@.params =~= self@.params);
        r
    }
}

impl Clone for Component {
    fn clone(&self) -> (r: Self)
        ensures
            r@ == self@,
        decreases self,
    {
        let mut properties: Vec<ContentLine> = Vec::new();
        let mut i: usize = 0;
        while i < self.properties.len()
            invariant
                i <= self.properties@.len(),
                properties@.len() == i,
                forall|k: int| 0 <= k < i ==> #[trigger] properties@[k]@ == self.properties@[k]@,
            decreases self.properties@.len() - i,
        {
            properties.push(self.properties[i].clone());
            i = i + 1;
        }
        let mut children: Vec<Component> = Vec::new();
        let mut j: usize = 0;
        while j < self.children.len()
            invariant
                j <= self.children@.len(),
                children@.len() == j,
                forall|k: int| 0 <= k < j ==> #[trigger] component_model(children@[k]) == component_model(
                    self.children@[k],
                ),
            decreases self.children@.len() - j,
        {
            proof {
                assert(decreases_to!(*self => self.children));
                assert(decreases_to!(self.children => self.children@));
                assert(decreases_to!(self.children@ => self.children@[j as int]));
            }
            let c = self.children[j].clone();
            children.push(c);
            j = j + 1;
        }
        let r = Component { name: self.name.clone(), properties, children };
        proof {
            lemma_components_model(r.children@);
            lemma_components_model(self.children@);
            assert(components_model(r.children@) =~= components_model(self.children@));
            assert(r.properties@.map_values(|l: ContentLine| l@) =~= self.properties@.map_values(
                |l: ContentLine| l@,
            ));
        }
        r
    }
}

/// A component with the given name and no properties or children.
pub open spec fn empty_component(name: Seq<char>) -> ComponentModel {
    ComponentModel { name, properties: Seq::empty(), children: Seq::empty() }
}

impl Component {
    /// A component with the given name and nothing in it.
    pub fn new(name: String) -> (c: Component)
        ensures
            c@ == empty_component(name@),
    {
        let c = Component { name, properties: Vec::new(), children: Vec::new() };
        assert(c.properties@.map_values(|l: ContentLine| l@) =~= Seq::<LineModel>::empty());
        c
    }

    /// The first property whose name equals `name`, ignoring ASCII case.
    pub fn property(&self, name: &str) -> (r: Option<&ContentLine>)
        ensures
            r is Some <==> exists|i: int|
                0 <= i < self.properties@.len() && eq_ignore_case(#[trigger] self.properties@[i].name@, name@),
            r matches Some(l) ==> exists|i: int|
                0 <= i < self.properties@.len() && *l == self.properties@[i]
                && eq_ignore_case(self.properties@[i].name@, name@)
                && forall|k: int| 0 <= k < i ==> !eq_ignore_case(#[trigger] self.properties@[k].name@, name@),
    {
        let mut i: usize = 0;
        while i < self.properties.len()
            invariant
                i <= self.properties@.len(),
                forall|k: int| 0 <= k < i ==> !eq_ignore_case(#[trigger] self.properties@[k].name@, name@),
            decreases self.properties@.len() - i,
        {
            let pname = chars_of(self.properties[i].name.as_str());
            if chars_eq_ignore_case(&pname, name) {
                return Some(&self.properties[i]);
            }
            i = i + 1;
        }
        None
    }
}

/// How serious a diagnostic is.
#[derive(Debug, Clone, Copy, PartialEq, Eq, Structural)]
pub enum Severity {
    Error,
    Warning,
}

/// A problem found in the input, at a 1-based line (0 when it concerns
/// the document as a whole).
#[derive(Debug, Clone)]
pub struct Diagnostic {
    pub severity: Severity,
    pub line: usize,
    pub message: String,
}

/// The model of a [`Diagnostic`].
pub struct DiagnosticModel {
    pub severity: Severity,
    pub line: nat,
    pub message: Seq<char>,
}

/// The severity of spec violations that leave the BEGIN/END structure
/// intact: errors in strict mode, warnings in lenient mode.
pub open spec fn severity_for(lenient: bool) -> Severity {
    if lenient {
        Severity::Warning
    } else {
        Severity::Error
    }
}

/// Decides [`severity_for`].
pub fn severity_of(lenient: bool) -> (s: Severity)
    ensures
        s == severity_for(lenient),
{
    if lenient {
        Severity::Warning
    } else {
        Severity::Error
    }
}

impl View for Diagnostic {
    type V = DiagnosticModel;

    open spec fn view(&self) -> DiagnosticModel {
        DiagnosticModel { severity: self.severity, line: self.line as nat, message: self.message@ }
    }
}

/// The text of a diagnostic: `error: msg` when it has no line, else
/// `error at line N: msg` (and `warning` for warnings).
pub open spec fn diagnostic_text(d: DiagnosticModel) -> Seq<char> {
    let kind = match d.severity {
        Severity::Error => "error"@,
        Severity::Warning => "warning"@,
    };
    if d.line == 0 {
        kind + ": "@ + d.message
    } else {
        kind + " at line "@ + decimal(d.line) + ": "@ + d.message
    }
}

impl Diagnostic {
    /// Renders the diagnostic as it is shown to the user.
    pub fn to_string(&self) -> (s: String)
        ensures
            s@ == diagnostic_text(self@),
    {
        let mut s = match self.severity {
            Severity::Error => String::from_str("error"),
            Severity::Warning => String::from_str("warning"),
        };
        if self.line == 0 {
            s.append(": ");
        } else {
            s.append(" at line ");
            push_decimal(&mut s, self.line);
            s.append(": ");
        }
        s.append(self.message.as_str());
        s
    }
}

/// A parsed calendar with the warnings (and, in lenient mode, the errors)
/// raised on the way.
#[derive(Debug)]
pub struct ParseOutcome {
    pub calendar: Component,
    pub diagnostics: Vec<Diagnostic>,
}

} // verus!
