//! Edits of the patch: adding and moving nodes, connecting and disconnecting ports.

use vstd::prelude::*;
use vstd::string::StringExecFns;

use crate::graph::{wires_into, GraphView, PortRef};
use crate::model::{
    audio_output, Endpoint, InputNames, Inputs, Node, NodeModel, Wire,
};
use crate::text::{decimal, decimal_string, lemma_decimal_injective, same_text};
use crate::topo::lemma_distinct_below;

verus! {

/// A node of `nodes` has this id.
pub open spec fn id_taken(nodes: Seq<Node>, id: Seq<char>) -> bool {
    exists|i: int| 0 <= i < nodes.len() && (#[trigger] nodes[i]).id@ == id
}

/// No two nodes have the same id.
pub open spec fn ids_distinct(nodes: Seq<Node>) -> bool {
    forall|i: int, j: int|
        0 <= i < j < nodes.len() ==> (#[trigger] nodes[i]).id@ != (#[trigger] nodes[j]).id@
}

/// The `n`-th id that a new node of type `ty` may get.
pub open spec fn candidate_id(ty: Seq<char>, n: nat) -> Seq<char> {
    ty + "-"@ + decimal(n)
}

/// `id` is the first of the ids for a new node of type `ty` that no node has.
pub open spec fn first_free_id(nodes: Seq<Node>, ty: Seq<char>, id: Seq<char>) -> bool {
    exists|n: nat|
        {
            &&& n >= 1
            &&& id == #[trigger] candidate_id(ty, n)
            &&& !id_taken(nodes, id)
            &&& forall|m: nat| 1 <= m < n ==> id_taken(nodes, #[trigger] candidate_id(ty, m))
        }
}

proof fn lemma_candidates_differ(ty: Seq<char>, m: nat, n: nat)
    requires
        candidate_id(ty, m) == candidate_id(ty, n),
    ensures
        m == n,
{
    let stem = ty + "-"@;
    assert(candidate_id(ty, m).skip(stem.len() as int) =~= decimal(m));
    assert(candidate_id(ty, n).skip(stem.len() as int) =~= decimal(n));
    lemma_decimal_injective(m, n);
}

/// There are at most as many taken candidates as nodes.
proof fn lemma_taken_candidates(nodes: Seq<Node>, ty: Seq<char>, n: nat)
    requires
        nodes.len() <= usize::MAX,
        forall|m: nat| 1 <= m < n ==> id_taken(nodes, #[trigger] candidate_id(ty, m)),
        n >= 1,
    ensures
        n - 1 <= nodes.len(),
{
    let holder = |m: nat|
        choose|i: int| 0 <= i < nodes.len() && (#[trigger] nodes[i]).id@ == candidate_id(ty, m);
    let holders = Seq::new((n - 1) as nat, |k: int| holder((k + 1) as nat) as usize);
    assert forall|k: int| 0 <= k < holders.len() implies {
        &&& #[trigger] holders[k] < nodes.len()
        &&& nodes[holders[k] as int].id@ == candidate_id(ty, (k + 1) as nat)
    } by {
        assert(id_taken(nodes, candidate_id(ty, (k + 1) as nat)));
    }
    assert forall|a: int, b: int| 0 <= a < holders.len() && 0 <= b < holders.len() && a
        != b implies holders[a] != holders[b] by {
        if holders[a] == holders[b] {
            lemma_candidates_differ(ty, (a + 1) as nat, (b + 1) as nat);
        }
    }
    lemma_distinct_below(holders, nodes.len());
}

/// Whether a node has this id.
fn has_id(nodes: &Vec<Node>, id: &str) -> (r: bool)
    ensures
        r == id_taken(nodes@, id@),
{
    let mut i: usize = 0;
    while i < nodes.len()
        invariant
            i <= nodes.len(),
            forall|j: int| 0 <= j < i ==> (#[trigger] nodes@[j]).id@ != id@,
        decreases nodes.len() - i,
    {
        if same_text(nodes[i].id.as_str(), id) {
            return true;
        }
        i += 1;
    }
    false
}

/// The end of a wire that is at an output, or the one that is at an input.
pub open spec fn wire_end(w: Wire, at_output: bool) -> (Seq<char>, Seq<char>) {
    if at_output {
        w.from@
    } else {
        w.to@
    }
}

/// The wires that do not end at `end`.
pub open spec fn wires_apart_from(
    wires: Seq<Wire>,
    at_output: bool,
    end: (Seq<char>, Seq<char>),
) -> Seq<Wire> {
    wires.filter(|w: Wire| wire_end(w, at_output) != end)
}

/// Keeps the wires that do not end at port `port` of node `node`.
fn remove_wires(wires: &mut Vec<Wire>, at_output: bool, node: &str, port: &str)
    ensures
        final(wires)@ == wires_apart_from(old(wires)@, at_output, (node@, port@)),
{
    let ghost given = wires@;
    let ghost keep = |w: Wire| wire_end(w, at_output) != (node@, port@);
    let ghost mut seen: int = 0;
    let mut i: usize = 0;
    proof {
        reveal(Seq::filter);
        assert(given.take(0) =~= Seq::empty());
        assert(given.take(0).filter(keep) + given.skip(0) =~= given);
    }
    while i < wires.len()
        invariant
            keep == (|w: Wire| wire_end(w, at_output) != (node@, port@)),
            0 <= seen <= given.len(),
            i == given.take(seen).filter(keep).len(),
            wires@ == given.take(seen).filter(keep) + given.skip(seen),
        decreases given.len() - seen,
    {
        let ghost head = given.take(seen).filter(keep);
        proof {
            reveal(Seq::filter);
            assert(wires@[i as int] == given.skip(seen)[0]);
            assert(given.take(seen + 1).drop_last() =~= given.take(seen));
            assert(given.take(seen + 1).last() == given[seen]);
        }
        let w = &wires[i];
        let hit = if at_output {
            w.from.is(node, port)
        } else {
            w.to.is(node, port)
        };
        if hit {
            wires.remove(i);
            assert(wires@ =~= head + given.skip(seen + 1));
        } else {
            i += 1;
            assert(wires@ =~= head.push(given[seen]) + given.skip(seen + 1));
        }
        proof {
            seen = seen + 1;
        }
    }
    proof {
        assert(given.skip(seen).len() == 0);
        assert(given.take(seen) =~= given);
        assert(wires@ =~= given.filter(keep));
    }
}

/// The first node with id `id`.
pub open spec fn node_with_id(nodes: Seq<Node>, id: Seq<char>) -> Option<NodeModel>
    decreases nodes.len(),
{
    if nodes.len() == 0 {
        None
    } else if nodes[0].id@ == id {
        Some(nodes[0]@)
    } else {
        node_with_id(nodes.drop_first(), id)
    }
}

/// `port` is the variadic input of the node: one that takes many wires.
pub open spec fn variadic_port(node: Option<NodeModel>, port: Seq<char>) -> bool {
    match node {
        Some(n) => {
            &&& n.ty != audio_output()
            &&& n.desc matches Some(d) && d.inputs == InputNames::Variadic(port)
        },
        None => false,
    }
}

/// One of the two ports is an output and the other an input, on different nodes.
pub open spec fn connectable<W>(a: PortRef<W>, b: PortRef<W>) -> bool {
    a.is_output != b.is_output && a.node@ != b.node@
}

/// The ends of the wire between two ports, output first.
pub open spec fn wire_between<W>(a: PortRef<W>, b: PortRef<W>) -> (
    (Seq<char>, Seq<char>),
    (Seq<char>, Seq<char>),
) {
    if a.is_output {
        ((a.node@, a.port@), (b.node@, b.port@))
    } else {
        ((b.node@, b.port@), (a.node@, a.port@))
    }
}

/// The wires that stay when a wire to `to` is added: all, if `to` is a variadic input, else those
/// that do not lead to `to`.
pub open spec fn wires_kept(
    nodes: Seq<Node>,
    wires: Seq<Wire>,
    to: (Seq<char>, Seq<char>),
) -> Seq<Wire> {
    if variadic_port(node_with_id(nodes, to.0), to.1) {
        wires
    } else {
        wires_apart_from(wires, false, to)
    }
}

/// `after` are the wires that stay of `before`, and then one with the given ends.
pub open spec fn connected(
    nodes: Seq<Node>,
    before: Seq<Wire>,
    after: Seq<Wire>,
    ends: ((Seq<char>, Seq<char>), (Seq<char>, Seq<char>)),
) -> bool {
    &&& after.len() > 0
    &&& after.last()@ == ends
    &&& after.drop_last() == wires_kept(nodes, before, ends.1)
}

/// `after` is `before` without the first wire with the given ends; `removed` says whether there was
/// one.
pub open spec fn wire_removed(
    before: Seq<Wire>,
    after: Seq<Wire>,
    ends: ((Seq<char>, Seq<char>), (Seq<char>, Seq<char>)),
    removed: bool,
) -> bool {
    if removed {
        exists|i: int|
            {
                &&& 0 <= i < before.len()
                &&& (#[trigger] before[i])@ == ends
                &&& forall|j: int| 0 <= j < i ==> (#[trigger] before[j])@ != ends
                &&& after == before.remove(i)
            }
    } else {
        &&& after == before
        &&& forall|j: int| 0 <= j < before.len() ==> (#[trigger] before[j])@ != ends
    }
}

/// `after` is `before` without the wires from output `end`; `removed` says whether there was one.
pub open spec fn output_freed(
    before: Seq<Wire>,
    after: Seq<Wire>,
    end: (Seq<char>, Seq<char>),
    removed: bool,
) -> bool {
    &&& after == wires_apart_from(before, true, end)
    &&& removed == exists|i: int| 0 <= i < before.len() && (#[trigger] before[i]).from@ == end
}

/// `after` is `before` with a node of type `ty` added at `center` that has the first free id, no
/// parameters, and the ports that its type has then.
pub open spec fn node_added<P>(
    before: GraphView<P>,
    after: GraphView<P>,
    ty: Seq<char>,
    center: P,
    id: Seq<char>,
) -> bool {
    &&& first_free_id(before.patch.nodes@, ty, id)
    &&& after.patch.nodes@.len() == before.patch.nodes@.len() + 1
    &&& after.patch.nodes@.drop_last() == before.patch.nodes@
    &&& after.patch.nodes@.last()@ == (NodeModel {
        id,
        ty,
        channels: None,
        desc: before.registry.ports_of(ty),
    })
    &&& after.patch.layout@ == before.patch.layout@.insert(id, center)
    &&& after.patch.wires == before.patch.wires
    &&& after.registry == before.registry
}

impl<P: Copy> GraphView<P> {
    /// Adds a node of type `ty`, without parameters, at `center`. Its id, which is returned, is
    /// the type, a dash, and the smallest positive number that makes it one that no node has. The
    /// type need not be registered.
    pub fn add_node(&mut self, ty: &str, center: P) -> (id: String)
        requires
            old(self).wf(),
            old(self).patch.nodes@.len() < usize::MAX,
        ensures
            final(self).wf(),
            node_added(*old(self), *final(self), ty@, center, id@),
            ids_distinct(old(self).patch.nodes@) ==> ids_distinct(final(self).patch.nodes@),
    {
        let ghost nodes = self.patch.nodes@;
        let mut stem: String = ty.to_owned();
        stem.append("-");
        let mut n: u64 = 1;
        let mut id: String = stem.clone();
        let first = decimal_string(n);
        id.append(first.as_str());
        assert(id@ =~= candidate_id(ty@, n as nat));
        while has_id(&self.patch.nodes, id.as_str())
            invariant
                self == old(self),
                nodes == self.patch.nodes@,
                nodes.len() < usize::MAX,
                stem@ == ty@ + "-"@,
                n >= 1,
                id@ == candidate_id(ty@, n as nat),
                n <= nodes.len() + 1,
                forall|m: nat| 1 <= m < n ==> id_taken(nodes, #[trigger] candidate_id(ty@, m)),
            decreases nodes.len() + 1 - n,
        {
            proof {
                assert forall|m: nat| 1 <= m < n + 1 implies id_taken(
                    nodes,
                    #[trigger] candidate_id(ty@, m),
                ) by {
                    if m == n {
                        assert(id_taken(nodes, candidate_id(ty@, n as nat)));
                    }
                }
                lemma_taken_candidates(nodes, ty@, n as nat + 1);
            }
            n += 1;
            id = stem.clone();
            let digits = decimal_string(n);
            id.append(digits.as_str());
            assert(id@ =~= candidate_id(ty@, n as nat));
        }
        let desc = self.registry.describe(ty);
        self.patch.nodes.push(Node { id: id.clone(), ty: ty.to_owned(), channels: None, desc });
        self.patch.layout.insert(id.clone(), center);
        proof {
            assert(self.patch.nodes@.drop_last() =~= nodes);
            if ids_distinct(nodes) {
                let now = self.patch.nodes@;
                assert forall|i: int, j: int| 0 <= i < j < now.len() implies (#[trigger] now[i]).id@
                    != (#[trigger] now[j]).id@ by {
                    assert(now[i] == nodes[i]);
                    if j < nodes.len() {
                        assert(now[j] == nodes[j]);
                    }
                }
            }
        }
        id
    }

    /// Moves a node to a new center.
    pub fn move_node(&mut self, id: &str, center: P)
        requires
            old(self).wf(),
        ensures
            final(self).wf(),
            final(self).patch.layout@ == old(self).patch.layout@.insert(id@, center),
            final(self).patch.nodes == old(self).patch.nodes,
            final(self).patch.wires == old(self).patch.wires,
            final(self).registry == old(self).registry,
    {
        self.patch.layout.insert(id.to_owned(), center);
    }

    /// Whether `port` is the variadic input of node `node_id`: one that accepts many wires, each a
    /// distinct inlet, rather than a single one. The sink and unknown types have none.
    pub fn is_variadic_input(&self, node_id: &str, port: &str) -> (r: bool)
        ensures
            r == variadic_port(node_with_id(self.patch.nodes@, node_id@), port@),
    {
        let mut i: usize = 0;
        assert(self.patch.nodes@.skip(0) =~= self.patch.nodes@);
        while i < self.patch.nodes.len()
            invariant
                i <= self.patch.nodes@.len(),
                node_with_id(self.patch.nodes@, node_id@) == node_with_id(
                    self.patch.nodes@.skip(i as int),
                    node_id@,
                ),
            decreases self.patch.nodes.len() - i,
        {
            let node = &self.patch.nodes[i];
            if same_text(node.id.as_str(), node_id) {
                if same_text(node.ty.as_str(), "audio_output") {
                    return false;
                }
                return match &node.desc {
                    Some(d) => match &d.inputs {
                        Inputs::Variadic(name) => same_text(name.as_str(), port),
                        Inputs::Fixed(_) => false,
                    },
                    None => false,
                };
            }
            assert(self.patch.nodes@.skip(i as int).drop_first() =~= self.patch.nodes@.skip(i + 1));
            i += 1;
        }
        false
    }

    /// Connects two ports if one is an output, the other an input, and they are on different
    /// nodes; says whether it did. A fixed input takes one wire, so a new one replaces the wire
    /// that was there. A variadic input grows: each wire is a distinct inlet.
    pub fn try_connect<W>(&mut self, a: &PortRef<W>, b: &PortRef<W>) -> (r: bool)
        ensures
            r == connectable(*a, *b),
            !r ==> final(self).patch.wires == old(self).patch.wires,
            r ==> connected(
                old(self).patch.nodes@,
                old(self).patch.wires@,
                final(self).patch.wires@,
                wire_between(*a, *b),
            ),
            final(self).patch.nodes == old(self).patch.nodes,
            final(self).patch.layout == old(self).patch.layout,
            final(self).registry == old(self).registry,
    {
        if a.is_output == b.is_output {
            return false;
        }
        let (out, inp) = if a.is_output {
            (a, b)
        } else {
            (b, a)
        };
        if same_text(out.node.as_str(), inp.node.as_str()) {
            return false;
        }
        if !self.is_variadic_input(inp.node.as_str(), inp.port.as_str()) {
            remove_wires(&mut self.patch.wires, false, inp.node.as_str(), inp.port.as_str());
        }
        let ghost kept = self.patch.wires@;
        self.patch.wires.push(
            Wire {
                from: Endpoint(out.node.clone(), out.port.clone()),
                to: Endpoint(inp.node.clone(), inp.port.clone()),
            },
        );
        assert(self.patch.wires@.drop_last() =~= kept);
        true
    }

    /// Removes the first wire from `from` to `to`; says whether there was one.
    pub fn disconnect_wire(&mut self, from: &Endpoint, to: &Endpoint) -> (r: bool)
        ensures
            wire_removed(old(self).patch.wires@, final(self).patch.wires@, (from@, to@), r),
            final(self).patch.nodes == old(self).patch.nodes,
            final(self).patch.layout == old(self).patch.layout,
            final(self).registry == old(self).registry,
    {
        let ghost wires = self.patch.wires@;
        let mut i: usize = 0;
        while i < self.patch.wires.len()
            invariant
                self == old(self),
                wires == self.patch.wires@,
                i <= wires.len(),
                forall|j: int| 0 <= j < i ==> (#[trigger] wires[j])@ != (from@, to@),
            decreases self.patch.wires.len() - i,
        {
            let w = &self.patch.wires[i];
            if w.from.same(from) && w.to.same(to) {
                self.patch.wires.remove(i);
                assert(wires[i as int]@ == (from@, to@));
                return true;
            }
            i += 1;
        }
        false
    }

    /// Removes every wire that comes from output `port` of node `node`; says whether there was
    /// one.
    pub fn disconnect_output(&mut self, node: &str, port: &str) -> (r: bool)
        ensures
            output_freed(old(self).patch.wires@, final(self).patch.wires@, (node@, port@), r),
            final(self).patch.nodes == old(self).patch.nodes,
            final(self).patch.layout == old(self).patch.layout,
            final(self).registry == old(self).registry,
    {
        let before: usize = self.patch.wires.len();
        remove_wires(&mut self.patch.wires, true, node, port);
        proof {
            lemma_removal_shows(old(self).patch.wires@, true, (node@, port@));
        }
        self.patch.wires.len() != before
    }
}

/// Wires were taken out exactly if there are fewer.
proof fn lemma_removal_shows(wires: Seq<Wire>, at_output: bool, end: (Seq<char>, Seq<char>))
    ensures
        wires_apart_from(wires, at_output, end).len() <= wires.len(),
        (wires_apart_from(wires, at_output, end).len() != wires.len()) == exists|i: int|
            0 <= i < wires.len() && wire_end(#[trigger] wires[i], at_output) == end,
    decreases wires.len(),
{
    reveal(Seq::filter);
    if wires.len() > 0 {
        let rest = wires.drop_last();
        lemma_removal_shows(rest, at_output, end);
        let keep = |w: Wire| wire_end(w, at_output) != end;
        if exists|i: int| 0 <= i < rest.len() && wire_end(#[trigger] rest[i], at_output) == end {
            let i = choose|i: int|
                0 <= i < rest.len() && wire_end(#[trigger] rest[i], at_output) == end;
            assert(wire_end(wires[i], at_output) == end);
        }
        if exists|i: int| 0 <= i < wires.len() && wire_end(#[trigger] wires[i], at_output) == end {
            let i = choose|i: int|
                0 <= i < wires.len() && wire_end(#[trigger] wires[i], at_output) == end;
            if i < rest.len() {
                assert(wire_end(rest[i], at_output) == end);
            }
        }
    }
}

/// It does not matter at which of the two ports a connection is begun.
pub proof fn law_connecting_is_symmetric<W>(a: PortRef<W>, b: PortRef<W>)
    ensures
        connectable(a, b) == connectable(b, a),
        connectable(a, b) ==> wire_between(a, b) == wire_between(b, a),
{
}

proof fn lemma_count_apart(wires: Seq<Wire>, at_output: bool, end: (Seq<char>, Seq<char>), to: (
    Seq<char>,
    Seq<char>,
))
    ensures
        !at_output && to == end ==> wires_into(
            wires_apart_from(wires, at_output, end),
            to.0,
            to.1,
        ) == 0,
        !at_output && to != end ==> wires_apart_from(wires, at_output, end).filter(
            |w: Wire| w.to@ == to,
        ) == wires.filter(|w: Wire| w.to@ == to),
    decreases wires.len(),
{
    reveal(Seq::filter);
    let keep = |w: Wire| wire_end(w, at_output) != end;
    let into = |w: Wire| w.to@ == to;
    if wires.len() > 0 {
        let rest = wires.drop_last();
        lemma_count_apart(rest, at_output, end, to);
        let kept = wires.filter(keep);
        assert(wires_into(rest.filter(keep), to.0, to.1) == rest.filter(keep).filter(into).len());
        assert(wires_into(kept, to.0, to.1) == kept.filter(into).len());
        if keep(wires.last()) {
            assert(kept.drop_last() =~= rest.filter(keep));
        }
    }
}

/// A fixed input takes one wire: after connecting to it there is no other. All wires to other
/// inputs stay.
pub proof fn law_fixed_input_takes_one_wire(
    nodes: Seq<Node>,
    before: Seq<Wire>,
    after: Seq<Wire>,
    ends: ((Seq<char>, Seq<char>), (Seq<char>, Seq<char>)),
    other: (Seq<char>, Seq<char>),
)
    requires
        connected(nodes, before, after, ends),
        !variadic_port(node_with_id(nodes, ends.1.0), ends.1.1),
        other != ends.1,
    ensures
        wires_into(after, ends.1.0, ends.1.1) == 1,
        after.filter(|w: Wire| w.to@ == other) == before.filter(|w: Wire| w.to@ == other),
{
    reveal(Seq::filter);
    lemma_count_apart(before, false, ends.1, ends.1);
    lemma_count_apart(before, false, ends.1, other);
    let into = |w: Wire| w.to@ == (ends.1.0, ends.1.1);
    assert(wires_into(after, ends.1.0, ends.1.1) == after.filter(into).len());
    assert(wires_into(after.drop_last(), ends.1.0, ends.1.1) == after.drop_last().filter(
        into,
    ).len());
    assert(after.last().to@ == ends.1);
}

/// A variadic input grows by one wire with each connection, and every wire stays.
pub proof fn law_variadic_input_grows(
    nodes: Seq<Node>,
    before: Seq<Wire>,
    after: Seq<Wire>,
    ends: ((Seq<char>, Seq<char>), (Seq<char>, Seq<char>)),
)
    requires
        connected(nodes, before, after, ends),
        variadic_port(node_with_id(nodes, ends.1.0), ends.1.1),
    ensures
        after.drop_last() == before,
        wires_into(after, ends.1.0, ends.1.1) == wires_into(before, ends.1.0, ends.1.1) + 1,
{
    reveal(Seq::filter);
    let into = |w: Wire| w.to@ == (ends.1.0, ends.1.1);
    assert(wires_into(after, ends.1.0, ends.1.1) == after.filter(into).len());
    assert(wires_into(before, ends.1.0, ends.1.1) == before.filter(into).len());
    assert(after.last().to@ == ends.1);
}

/// Disconnecting a wire right after connecting it leaves the wires as they were, if the input was
/// free or is variadic, and the ports were not connected already.
pub proof fn law_disconnecting_undoes_connecting(
    nodes: Seq<Node>,
    before: Seq<Wire>,
    after: Seq<Wire>,
    ends: ((Seq<char>, Seq<char>), (Seq<char>, Seq<char>)),
    i: int,
)
    requires
        connected(nodes, before, after, ends),
        variadic_port(node_with_id(nodes, ends.1.0), ends.1.1) || wires_into(
            before,
            ends.1.0,
            ends.1.1,
        ) == 0,
        forall|j: int| 0 <= j < before.len() ==> (#[trigger] before[j])@ != ends,
        0 <= i < after.len(),
        after[i]@ == ends,
    ensures
        after.remove(i) == before,
{
    if !variadic_port(node_with_id(nodes, ends.1.0), ends.1.1) {
        lemma_none_apart(before, ends.1);
    }
    assert(after.drop_last() == before);
    if i < before.len() {
        assert(before[i] == after[i]);
    }
    assert(after.remove(i) =~= before);
}

proof fn lemma_none_apart(wires: Seq<Wire>, to: (Seq<char>, Seq<char>))
    requires
        wires_into(wires, to.0, to.1) == 0,
    ensures
        wires_apart_from(wires, false, to) == wires,
    decreases wires.len(),
{
    reveal(Seq::filter);
    let into = |w: Wire| w.to@ == (to.0, to.1);
    assert(wires_into(wires, to.0, to.1) == wires.filter(into).len());
    if wires.len() > 0 {
        let rest = wires.drop_last();
        assert(wires_into(rest, to.0, to.1) == rest.filter(into).len());
        lemma_none_apart(rest, to);
        assert(rest.push(wires.last()) =~= wires);
    }
}

/// Disconnecting an output takes away every wire from it, and keeps every other wire.
pub proof fn law_disconnected_output_has_no_wire(
    wires: Seq<Wire>,
    end: (Seq<char>, Seq<char>),
    w: Wire,
)
    ensures
        wires_apart_from(wires, true, end).contains(w) <==> wires.contains(w) && w.from@ != end,
{
    let keep = |w: Wire| wire_end(w, true) != end;
    let kept = wires.filter(keep);
    if kept.contains(w) {
        let i = choose|i: int| 0 <= i < kept.len() && kept[i] == w;
        wires.lemma_filter_pred(keep, i);
        wires.lemma_filter_contains_rev(keep, w);
    }
    if wires.contains(w) && w.from@ != end {
        let i = choose|i: int| 0 <= i < wires.len() && wires[i] == w;
        wires.lemma_filter_contains(keep, i);
    }
}

} // verus!
