//! The component graph: building it from a resolved table, and checking it.
use vstd::prelude::*;
use crate::model::{Component, InlineDefinition, InputKind, Location, Output};
use crate::resolve::{find_definition, find_name, table_model};

verus! {

/// A placed component, bound to its resolved definition.
#[derive(Debug)]
pub struct Node {
    /// The position of the component's definition in the graph's table.
    pub definition: usize,
    /// The rotation in degrees, 0 where none was given.
    pub rotation: u64,
    /// Where the component stands.
    pub location: Location,
    /// The outgoing wires, in declaration order.
    pub outputs: Vec<Output>,
}

/// The keyboard's components as an indexed graph over a resolved table.
#[derive(Debug)]
pub struct ComponentGraph {
    /// The resolved definitions.
    pub definitions: Vec<InlineDefinition>,
    /// One node per component, in declaration order.
    pub nodes: Vec<Node>,
}

/// Why a graph could not be built.
#[derive(Debug, Clone, Copy, PartialEq, Eq, Structural)]
pub enum BuildError {
    /// The component at this position names a definition that the table lacks.
    UnknownDefinition { component: usize },
}

/// A defect of a built graph.
#[derive(Debug, Clone, Copy, PartialEq, Eq, Structural)]
pub enum Violation {
    /// The wire names a component or a pin that does not exist.
    IndexOutOfRange { component: usize, output: usize },
    /// The rotation is not a multiple of a quarter turn below a full turn.
    InvalidRotation { component: usize },
    /// The wire reaches a point-to-point pin that an earlier wire already reaches.
    DuplicateIoWiring { component: usize, output: usize },
}

impl ComponentGraph {
    /// Every node refers to an entry of the table.
    pub open spec fn wf(&self) -> bool {
        forall|i: int|
            0 <= i < self.nodes@.len() ==> (#[trigger] self.nodes@[i]).definition
                < self.definitions@.len() && self.nodes@[i].outputs@.len() <= usize::MAX
    }

    /// Whether output `o` of component `s` exists.
    pub open spec fn is_edge(&self, s: int, o: int) -> bool {
        0 <= s < self.nodes@.len() && 0 <= o < self.nodes@[s].outputs@.len()
    }

    /// Output `o` of component `s`.
    pub open spec fn edge(&self, s: int, o: int) -> Output {
        self.nodes@[s].outputs@[o]
    }

    /// The pins of the definition of component `t`.
    pub open spec fn pin_count(&self, t: int) -> int {
        self.definitions@[self.nodes@[t].definition as int].inputs@.len() as int
    }

    /// The kind of pin `i` of component `t`.
    pub open spec fn pin_kind(&self, t: int, i: int) -> InputKind {
        self.definitions@[self.nodes@[t].definition as int].inputs@[i].kind
    }

    /// Whether a wire reaches an existing pin of an existing component.
    pub open spec fn in_range(&self, e: Output) -> bool {
        e.target < self.nodes@.len() && e.input < self.pin_count(e.target as int)
    }

    /// Whether a wire that comes before output `o` of component `s` reaches the same pin.
    pub open spec fn wired_earlier(&self, s: int, o: int) -> bool {
        exists|s2: int, o2: int|
            #![trigger self.edge(s2, o2)]
            self.is_edge(s2, o2) && lex_before(s2, o2, s, o) && self.edge(s2, o2) == self.edge(s, o)
    }

    /// Whether the graph has the given defect.
    pub open spec fn has_violation(&self, v: Violation) -> bool {
        match v {
            Violation::IndexOutOfRange { component, output } => self.is_edge(
                component as int,
                output as int,
            ) && !self.in_range(self.edge(component as int, output as int)),
            Violation::InvalidRotation { component } => component < self.nodes@.len()
                && !valid_rotation(self.nodes@[component as int].rotation),
            Violation::DuplicateIoWiring { component, output } => {
                let e = self.edge(component as int, output as int);
                &&& self.is_edge(component as int, output as int)
                &&& self.in_range(e)
                &&& self.pin_kind(e.target as int, e.input as int) == InputKind::Io
                &&& self.wired_earlier(component as int, output as int)
            },
        }
    }

    /// Every wire reaches an existing pin, every rotation is a quarter
    /// turn, and no point-to-point pin is reached by two wires.
    pub open spec fn is_valid(&self) -> bool {
        &&& forall|c: int| 0 <= c < self.nodes@.len() ==> valid_rotation(#[trigger] self.nodes@[c].rotation)
        &&& forall|s: int, o: int| #[trigger] self.is_edge(s, o) ==> self.in_range(self.edge(s, o))
        &&& forall|s1: int, o1: int, s2: int, o2: int|
            #![trigger self.edge(s1, o1), self.edge(s2, o2)]
            self.is_edge(s1, o1) && self.is_edge(s2, o2) && (s1, o1) != (s2, o2)
                && self.edge(s1, o1) == self.edge(s2, o2) && self.in_range(self.edge(s1, o1))
                ==> self.pin_kind(self.edge(s1, o1).target as int, self.edge(s1, o1).input as int)
                != InputKind::Io
    }
}

/// A rotation of a whole number of quarter turns, below a full turn.
pub open spec fn valid_rotation(r: u64) -> bool {
    r == 0 || r == 90 || r == 180 || r == 270
}

/// Output `o2` of component `s2` comes before output `o` of component `s`.
pub open spec fn lex_before(s2: int, o2: int, s: int, o: int) -> bool {
    s2 < s || (s2 == s && o2 < o)
}

/// Whether every component names a definition of the table.
pub open spec fn all_known(table: Seq<InlineDefinition>, comps: Seq<Component>) -> bool {
    forall|i: int| 0 <= i < comps.len() ==> find_name(table_model(table), (#[trigger] comps[i]).definition@) is Some
}

fn copy_outputs(v: &Vec<Output>) -> (r: Vec<Output>)
    ensures
        r@ == v@,
        r@.len() <= usize::MAX,
{
    let mut out: Vec<Output> = Vec::new();
    let mut i: usize = 0;
    while i < v.len()
        invariant
            i <= v@.len(),
            out@ == v@.take(i as int),
        decreases v@.len() - i,
    {
        out.push(v[i]);
        assert(v@.take(i + 1) =~= v@.take(i as int).push(v@[i as int]));
        i = i + 1;
    }
    assert(v@.take(i as int) =~= v@);
    out
}

/// Builds the graph of `components` over a resolved table.
///
/// Fails on the first component whose definition the table lacks; otherwise
/// node `i` is component `i`, bound to the first table entry of its name.
pub fn build_graph(definitions: Vec<InlineDefinition>, components: &Vec<Component>) -> (r: Result<ComponentGraph, BuildError>)
    ensures
        r is Ok <==> all_known(definitions@, components@),
        r matches Ok(g) ==> {
            &&& g.wf()
            &&& g.definitions@ == definitions@
            &&& g.nodes@.len() == components@.len()
            &&& forall|i: int|
                #![trigger g.nodes@[i]]
                0 <= i < components@.len() ==> {
                    let n = g.nodes@[i];
                    let c = components@[i];
                    &&& find_name(table_model(definitions@), c.definition@) == Some(n.definition as int)
                    &&& n.rotation == c.rotation.unwrap_or(0)
                    &&& n.location == c.location
                    &&& n.outputs@ == c.outputs@
                }
        },
        r matches Err(BuildError::UnknownDefinition { component }) ==> {
            &&& component < components@.len()
            &&& find_name(table_model(definitions@), components@[component as int].definition@) is None
            &&& all_known(definitions@, components@.take(component as int))
        },
{
    let mut nodes: Vec<Node> = Vec::new();
    let mut i: usize = 0;
    while i < components.len()
        invariant
            i <= components@.len(),
            nodes@.len() == i,
            forall|j: int|
                #![trigger nodes@[j]]
                0 <= j < i ==> {
                    let n = nodes@[j];
                    let c = components@[j];
                    &&& find_name(table_model(definitions@), c.definition@) == Some(n.definition as int)
                    &&& n.definition < definitions@.len()
                    &&& n.outputs@.len() <= usize::MAX
                    &&& n.rotation == c.rotation.unwrap_or(0)
                    &&& n.location == c.location
                    &&& n.outputs@ == c.outputs@
                },
        decreases components@.len() - i,
    {
        let c = &components[i];
        match find_definition(&definitions, &c.definition) {
            None => {
                proof {
                    assert(!all_known(definitions@, components@));
                    assert forall|j: int| 0 <= j < i implies find_name(
                        table_model(definitions@),
                        (#[trigger] components@.take(i as int)[j]).definition@,
                    ) is Some by {
                        assert(components@.take(i as int)[j] == components@[j]);
                        assert(nodes@[j].definition < definitions@.len());
                    }
                }
                return Err(BuildError::UnknownDefinition { component: i });
            },
            Some(d) => {
                proof {
                    crate::resolve::lemma_find_name_bound(table_model(definitions@), c.definition@);
                }
                let rotation = match c.rotation {
                    Some(r) => r,
                    None => 0,
                };
                nodes.push(
                    Node { definition: d, rotation, location: c.location, outputs: copy_outputs(&c.outputs) },
                );
            },
        }
        i = i + 1;
    }
    assert(all_known(definitions@, components@)) by {
        assert forall|j: int| 0 <= j < components@.len() implies find_name(
            table_model(definitions@),
            (#[trigger] components@[j]).definition@,
        ) is Some by {
            assert(nodes@[j].definition < definitions@.len());
        }
    }
    Ok(ComponentGraph { definitions, nodes })
}

/// The component that a violation is about.
pub open spec fn component_of(v: Violation) -> int {
    match v {
        Violation::IndexOutOfRange { component, .. } => component as int,
        Violation::InvalidRotation { component } => component as int,
        Violation::DuplicateIoWiring { component, .. } => component as int,
    }
}

/// Whether a violation comes before output `o` of component `s` in the
/// order of the checks: component by component, the rotation first, then
/// the outputs in order.
pub open spec fn checked_before(v: Violation, s: int, o: int) -> bool {
    component_of(v) < s || (component_of(v) == s && match v {
        Violation::IndexOutOfRange { output, .. } => output < o,
        Violation::InvalidRotation { .. } => true,
        Violation::DuplicateIoWiring { output, .. } => output < o,
    })
}

proof fn lemma_push_contains(s: Seq<Violation>, x: Violation, v: Violation)
    ensures
        s.push(x).contains(v) <==> (s.contains(v) || v == x),
{
    if s.contains(v) {
        let i = choose|i: int| 0 <= i < s.len() && s[i] == v;
        assert(s.push(x)[i] == v);
    }
    if v == x {
        assert(s.push(x)[s.len() as int] == v);
    }
    if s.push(x).contains(v) {
        let i = choose|i: int| 0 <= i < s.push(x).len() && s.push(x)[i] == v;
        if i < s.len() {
            assert(s[i] == v);
        }
    }
}

proof fn lemma_push_no_duplicates(s: Seq<Violation>, x: Violation)
    requires
        s.no_duplicates(),
        !s.contains(x),
    ensures
        s.push(x).no_duplicates(),
{
    assert forall|a: int, b: int| 0 <= a < s.push(x).len() && 0 <= b < s.push(x).len() && a != b implies s.push(x)[a]
        != s.push(x)[b] by {
        if a < s.len() && b < s.len() {
        } else if a < s.len() {
            assert(s.contains(s[a]));
        } else {
            assert(s.contains(s[b]));
        }
    }
}

fn is_quarter_turn(r: u64) -> (b: bool)
    ensures
        b == valid_rotation(r),
{
    r == 0 || r == 90 || r == 180 || r == 270
}

/// Whether a wire before output `o` of component `s` reaches the same pin.
fn has_earlier_wire(g: &ComponentGraph, s: usize, o: usize) -> (r: bool)
    requires
        g.is_edge(s as int, o as int),
    ensures
        r == g.wired_earlier(s as int, o as int),
{
    let e = g.nodes[s].outputs[o];
    let count = g.nodes.len();
    let mut s2: usize = 0;
    while s2 <= s
        invariant
            s2 <= s + 1,
            s < g.nodes@.len(),
            count == g.nodes@.len(),
            g.is_edge(s as int, o as int),
            e == g.edge(s as int, o as int),
            forall|s3: int, o3: int|
                #![trigger g.edge(s3, o3)]
                g.is_edge(s3, o3) && lex_before(s3, o3, s as int, o as int) && s3 < s2 ==> g.edge(s3, o3) != e,
        decreases s + 1 - s2,
    {
        let end = if s2 < s { g.nodes[s2].outputs.len() } else { o };
        let mut o2: usize = 0;
        while o2 < end
            invariant
                s2 <= s,
                s < g.nodes@.len(),
                end <= g.nodes@[s2 as int].outputs@.len(),
                s2 < s ==> end == g.nodes@[s2 as int].outputs@.len(),
                s2 == s ==> end == o,
                g.is_edge(s as int, o as int),
                e == g.edge(s as int, o as int),
                forall|s3: int, o3: int|
                    #![trigger g.edge(s3, o3)]
                    g.is_edge(s3, o3) && lex_before(s3, o3, s as int, o as int) && (s3 < s2 || (s3 == s2
                        && o3 < o2)) ==> g.edge(s3, o3) != e,
            decreases end - o2,
        {
            if g.nodes[s2].outputs[o2] == e {
                assert(g.is_edge(s2 as int, o2 as int) && lex_before(s2 as int, o2 as int, s as int, o as int)
                    && g.edge(s2 as int, o2 as int) == g.edge(s as int, o as int));
                return true;
            }
            o2 = o2 + 1;
        }
        s2 = s2 + 1;
    }
    false
}

/// All defects of a built graph: every wire that names a missing component
/// or pin, every rotation that is not a quarter turn, and every wire that
/// reaches a point-to-point pin that an earlier wire already reaches.
/// A ground pin may be reached by any number of wires.
pub fn validate(g: &ComponentGraph) -> (r: Vec<Violation>)
    requires
        g.wf(),
    ensures
        forall|v: Violation| r@.contains(v) <==> g.has_violation(v),
        r@.no_duplicates(),
        r@.len() == 0 <==> g.is_valid(),
{
    let mut out: Vec<Violation> = Vec::new();
    let n = g.nodes.len();
    let mut s: usize = 0;
    while s < n
        invariant
            n == g.nodes@.len(),
            s <= n,
            g.wf(),
            forall|v: Violation|
                #![trigger out@.contains(v)]
                out@.contains(v) <==> (g.has_violation(v) && component_of(v) < s),
            out@.no_duplicates(),
        decreases n - s,
    {
        if !is_quarter_turn(g.nodes[s].rotation) {
            let x = Violation::InvalidRotation { component: s };
            proof {
                assert(g.has_violation(x));
                assert(!out@.contains(x));
                lemma_push_no_duplicates(out@, x);
                assert forall|v: Violation| #[trigger] out@.push(x).contains(v) <==> (g.has_violation(v) && checked_before(v, s as int, 0)) by {
                    lemma_push_contains(out@, x, v);
                    assert(out@.contains(v) <==> (g.has_violation(v) && component_of(v) < s));
                }
            }
            out.push(x);
        }
        assert forall|v: Violation| #[trigger] out@.contains(v) <==> (g.has_violation(v) && checked_before(v, s as int, 0)) by {
            if v is InvalidRotation && component_of(v) == s {
                assert(v == (Violation::InvalidRotation { component: s }));
            }
        }
        let len = g.nodes[s].outputs.len();
        let mut o: usize = 0;
        while o < len
            invariant
                n == g.nodes@.len(),
                s < n,
                len == g.nodes@[s as int].outputs@.len(),
                o <= len,
                g.wf(),
                forall|v: Violation|
                    #![trigger out@.contains(v)]
                    out@.contains(v) <==> (g.has_violation(v) && checked_before(v, s as int, o as int)),
                out@.no_duplicates(),
            decreases len - o,
        {
            let e = g.nodes[s].outputs[o];
            let found = if e.target >= n as u64 {
                Some(Violation::IndexOutOfRange { component: s, output: o })
            } else {
                let t = e.target as usize;
                let pins = &g.definitions[g.nodes[t].definition].inputs;
                if e.input >= pins.len() as u64 {
                    Some(Violation::IndexOutOfRange { component: s, output: o })
                } else if pins[e.input as usize].kind == InputKind::Io && has_earlier_wire(g, s, o) {
                    Some(Violation::DuplicateIoWiring { component: s, output: o })
                } else {
                    None
                }
            };
            match found {
                Some(x) => {
                    proof {
                        assert(g.has_violation(x));
                        assert(!out@.contains(x));
                        lemma_push_no_duplicates(out@, x);
                        assert forall|v: Violation| #[trigger] out@.push(x).contains(v) <==> (g.has_violation(v) && checked_before(v, s as int, o + 1)) by {
                            lemma_push_contains(out@, x, v);
                            assert(out@.contains(v) <==> (g.has_violation(v) && checked_before(v, s as int, o as int)));
                        }
                    }
                    out.push(x);
                },
                None => {
                    assert forall|v: Violation| #[trigger] out@.contains(v) <==> (g.has_violation(v) && checked_before(v, s as int, o + 1)) by {
                        if g.has_violation(v) && component_of(v) == s {
                            match v {
                                Violation::IndexOutOfRange { output, .. } => {
                                    assert(output != o);
                                },
                                Violation::DuplicateIoWiring { output, .. } => {
                                    assert(output != o);
                                },
                                _ => {},
                            }
                        }
                    }
                },
            }
            o = o + 1;
        }
        assert forall|v: Violation| #[trigger] out@.contains(v) <==> (g.has_violation(v) && component_of(v) < s + 1) by {
            if g.has_violation(v) && component_of(v) == s {
                assert(checked_before(v, s as int, len as int));
            }
        }
        s = s + 1;
    }
    proof {
        if out@.len() == 0 {
            assert forall|c: int| 0 <= c < g.nodes@.len() implies valid_rotation(#[trigger] g.nodes@[c].rotation) by {
                let v = Violation::InvalidRotation { component: c as usize };
                assert(!out@.contains(v));
            }
            assert forall|s1: int, o1: int| #[trigger] g.is_edge(s1, o1) implies g.in_range(g.edge(s1, o1)) by {
                assert(g.nodes@[s1].outputs@.len() <= usize::MAX);
                let v = Violation::IndexOutOfRange { component: s1 as usize, output: o1 as usize };
                assert(!out@.contains(v));
            }
            assert forall|s1: int, o1: int, s2: int, o2: int|
                #![trigger g.edge(s1, o1), g.edge(s2, o2)]
                g.is_edge(s1, o1) && g.is_edge(s2, o2) && (s1, o1) != (s2, o2) && g.edge(s1, o1) == g.edge(s2, o2)
                    && g.in_range(g.edge(s1, o1)) implies g.pin_kind(g.edge(s1, o1).target as int, g.edge(s1, o1).input as int)
                != InputKind::Io by {
                if g.pin_kind(g.edge(s1, o1).target as int, g.edge(s1, o1).input as int) == InputKind::Io {
                    assert(g.nodes@[s1].outputs@.len() <= usize::MAX);
                    assert(g.nodes@[s2].outputs@.len() <= usize::MAX);
                    if lex_before(s1, o1, s2, o2) {
                        let v = Violation::DuplicateIoWiring { component: s2 as usize, output: o2 as usize };
                        assert(g.wired_earlier(s2, o2));
                        assert(!out@.contains(v));
                    } else {
                        let v = Violation::DuplicateIoWiring { component: s1 as usize, output: o1 as usize };
                        assert(lex_before(s2, o2, s1, o1));
                        assert(g.wired_earlier(s1, o1));
                        assert(!out@.contains(v));
                    }
                }
            }
        } else {
            let v = out@[0];
            assert(out@.contains(v));
            assert(g.has_violation(v));
        }
    }
    out
}

/// In a graph without defects, every wire names an existing component and
/// one of the pins of that component's resolved definition.
pub proof fn lemma_valid_wires_in_range(g: &ComponentGraph, s: int, o: int)
    requires
        g.is_valid(),
        g.is_edge(s, o),
    ensures
        g.edge(s, o).target < g.nodes@.len(),
        g.edge(s, o).input < g.pin_count(g.edge(s, o).target as int),
{
}

/// In a graph without defects, two different wires that reach the same pin
/// reach a ground pin.
pub proof fn lemma_valid_point_to_point(g: &ComponentGraph, s1: int, o1: int, s2: int, o2: int)
    requires
        g.is_valid(),
        g.is_edge(s1, o1),
        g.is_edge(s2, o2),
        (s1, o1) != (s2, o2),
        g.edge(s1, o1) == g.edge(s2, o2),
    ensures
        g.pin_kind(g.edge(s1, o1).target as int, g.edge(s1, o1).input as int) == InputKind::Ground,
{
    assert(g.in_range(g.edge(s1, o1)));
}

} // verus!
