//! From a parsed document to a resolved, validated keyboard.
use vstd::prelude::*;
use crate::graph::{BuildError, ComponentGraph, Violation, build_graph, validate};
use crate::model::{Component, Definition, DefinitionModel, Keyboard, KeyboardSpec};
use crate::resolve::{
    RemoteDocument, ResolveError, ResolveFailure, depth_bound, find_name, resolve_definitions,
    resolve_table, table_model,
};

verus! {

/// The keyboards of a document, in order.
pub open spec fn keyboards_in(doc: Seq<KeyboardSpec>) -> Seq<Keyboard>
    decreases doc.len(),
{
    if doc.len() == 0 {
        seq![]
    } else {
        let rest = keyboards_in(doc.drop_last());
        match doc.last() {
            KeyboardSpec::Keyboard(k) => rest.push(k),
            KeyboardSpec::Definition(_) => rest,
        }
    }
}

/// The definitions of all definition nodes of a document, in order.
pub open spec fn definitions_in(doc: Seq<KeyboardSpec>) -> Seq<Definition>
    decreases doc.len(),
{
    if doc.len() == 0 {
        seq![]
    } else {
        let rest = definitions_in(doc.drop_last());
        match doc.last() {
            KeyboardSpec::Keyboard(_) => rest,
            KeyboardSpec::Definition(d) => rest + d.definitions@,
        }
    }
}

/// Separates a document into its keyboards and all of its definitions.
pub fn split_document(doc: Vec<KeyboardSpec>) -> (r: (Vec<Keyboard>, Vec<Definition>))
    ensures
        r.0@ == keyboards_in(doc@),
        r.1@ == definitions_in(doc@),
{
    let ghost whole = doc@;
    let total = doc.len();
    let mut rest = doc;
    let mut keyboards: Vec<Keyboard> = Vec::new();
    let mut definitions: Vec<Definition> = Vec::new();
    let mut k: usize = 0;
    assert(whole.take(0) =~= Seq::<KeyboardSpec>::empty());
    assert(whole.skip(0) =~= whole);
    while rest.len() > 0
        invariant
            k <= whole.len(),
            total == whole.len(),
            rest@ == whole.skip(k as int),
            keyboards@ == keyboards_in(whole.take(k as int)),
            definitions@ == definitions_in(whole.take(k as int)),
        decreases rest@.len(),
    {
        assert(whole.take(k + 1).drop_last() =~= whole.take(k as int));
        assert(whole.take(k + 1).last() == whole[k as int]);
        let item = rest.remove(0);
        match item {
            KeyboardSpec::Keyboard(kb) => {
                keyboards.push(kb);
            },
            KeyboardSpec::Definition(d) => {
                let mut ds = d.definitions;
                definitions.append(&mut ds);
            },
        }
        assert(rest@ =~= whole.skip(k + 1));
        k = k + 1;
    }
    assert(whole.take(k as int) =~= whole);
    (keyboards, definitions)
}

/// A keyboard with its components bound to resolved definitions and checked.
#[derive(Debug)]
pub struct ResolvedKeyboard {
    /// The name of the keyboard.
    pub name: String,
    /// Who designed it.
    pub designer: Option<String>,
    /// When it was designed.
    pub designed: Option<String>,
    /// The components over the resolved table.
    pub graph: ComponentGraph,
}

/// Why a keyboard could not be compiled.
#[derive(Debug)]
pub enum CompileError {
    /// The definitions could not be resolved.
    Resolve(ResolveError),
    /// A component names a definition that does not exist.
    Build(BuildError),
    /// The graph was built, and has these defects.
    Invalid(Vec<Violation>),
}

/// Whether every component names an entry of a resolved table.
pub open spec fn all_known_table(t: Seq<DefinitionModel>, comps: Seq<Component>) -> bool {
    forall|i: int| 0 <= i < comps.len() ==> find_name(t, (#[trigger] comps[i]).definition@) is Some
}

/// Whether `g` is the graph of `comps` over the resolved table `t`: node
/// `i` is component `i`, bound to the first entry of its definition's name,
/// with its rotation (0 where none was given), location and outputs.
pub open spec fn built_from(g: ComponentGraph, t: Seq<DefinitionModel>, comps: Seq<Component>) -> bool {
    &&& g.wf()
    &&& table_model(g.definitions@) == t
    &&& g.nodes@.len() == comps.len()
    &&& forall|i: int|
        #![trigger g.nodes@[i]]
        0 <= i < comps.len() ==> {
            let n = g.nodes@[i];
            let c = comps[i];
            &&& find_name(t, c.definition@) == Some(n.definition as int)
            &&& n.rotation == c.rotation.unwrap_or(0)
            &&& n.location == c.location
            &&& n.outputs@ == c.outputs@
        }
}

fn copy_text(s: &Option<String>) -> (r: Option<String>)
    ensures
        r is Some == s is Some,
        r is Some ==> r->Some_0@ == s->Some_0@,
{
    match s {
        Some(t) => Some(t.clone()),
        None => None,
    }
}

/// Resolves the definitions, builds the component graph and checks it.
///
/// Resolution failures come first, then a component with an unknown
/// definition, then all defects of the graph; only a graph without defects
/// is returned.
pub fn compile(keyboard: &Keyboard, definitions: &Vec<Definition>, store: &Vec<RemoteDocument>) -> (r: Result<ResolvedKeyboard, CompileError>)
    ensures
        ({
            let table = resolve_table(store@, Seq::empty(), definitions@, depth_bound(store@));
            match r {
                Ok(k) => table == Ok::<Seq<DefinitionModel>, ResolveFailure>(table_model(k.graph.definitions@))
                    && all_known_table(table->Ok_0, keyboard.components@)
                    && built_from(k.graph, table->Ok_0, keyboard.components@)
                    && k.graph.is_valid()
                    && k.name@ == keyboard.name@
                    && (k.designer is Some == keyboard.designer is Some)
                    && (k.designer is Some ==> k.designer->Some_0@ == keyboard.designer->Some_0@)
                    && (k.designed is Some == keyboard.designed is Some)
                    && (k.designed is Some ==> k.designed->Some_0@ == keyboard.designed->Some_0@),
                Err(CompileError::Resolve(e)) => table == Err::<Seq<DefinitionModel>, ResolveFailure>(e@),
                Err(CompileError::Build(BuildError::UnknownDefinition { component })) => table is Ok
                    && component < keyboard.components@.len()
                    && find_name(table->Ok_0, keyboard.components@[component as int].definition@) is None
                    && all_known_table(table->Ok_0, keyboard.components@.take(component as int)),
                Err(CompileError::Invalid(vs)) => table is Ok
                    && all_known_table(table->Ok_0, keyboard.components@)
                    && vs@.no_duplicates()
                    && (exists|g: ComponentGraph|
                        #![trigger built_from(g, table->Ok_0, keyboard.components@)]
                        built_from(g, table->Ok_0, keyboard.components@) && !g.is_valid()
                            && (forall|v: Violation| #[trigger] vs@.contains(v) <==> g.has_violation(v))),
            }
        }),
{
    let resolution = match resolve_definitions(definitions, store) {
        Ok(res) => res,
        Err(e) => return Err(CompileError::Resolve(e)),
    };
    let graph = match build_graph(resolution.definitions, &keyboard.components) {
        Ok(g) => g,
        Err(e) => return Err(CompileError::Build(e)),
    };
    let violations = validate(&graph);
    assert(built_from(graph, table_model(graph.definitions@), keyboard.components@));
    if violations.len() > 0 {
        return Err(CompileError::Invalid(violations));
    }
    Ok(ResolvedKeyboard {
        name: keyboard.name.clone(),
        designer: copy_text(&keyboard.designer),
        designed: copy_text(&keyboard.designed),
        graph,
    })
}

} // verus!
