//! What the edits of the patch come down to, in terms of its nodes and wires.

use vstd::prelude::*;

use crate::edit::{
    connectable, connected, node_added, node_with_id, output_freed, variadic_port, wire_between,
    wire_removed,
};
use crate::graph::{GraphView, PortRef};
use crate::model::{Inputs, Node, Wire};
use crate::text::decimal;

verus! {

/// What is left by a filter stood in the given order, and is all that the filter accepts: `from`
/// says where each item stood.
pub proof fn lemma_filter_places<T>(s: Seq<T>, keep: spec_fn(T) -> bool) -> (from: Seq<int>)
    ensures
        from.len() == s.filter(keep).len(),
        forall|k: int|
            0 <= k < from.len() ==> 0 <= #[trigger] from[k] < s.len() && s.filter(keep)[k]
                == s[from[k]] && keep(s[from[k]]),
        forall|j: int, k: int| 0 <= j < k < from.len() ==> #[trigger] from[j] < #[trigger] from[k],
        forall|i: int| 0 <= i < s.len() && keep(#[trigger] s[i]) ==> from.contains(i),
    decreases s.len(),
{
    reveal(Seq::filter);
    if s.len() == 0 {
        Seq::empty()
    } else {
        let rest = s.drop_last();
        let before = lemma_filter_places(rest, keep);
        let last = s.len() - 1;
        if keep(s.last()) {
            let from = before.push(last);
            assert forall|i: int| 0 <= i < s.len() && keep(#[trigger] s[i]) implies from.contains(
                i,
            ) by {
                if i < last {
                    assert(rest[i] == s[i]);
                    assert(before.contains(i));
                    let k = choose|k: int| 0 <= k < before.len() && before[k] == i;
                    assert(from[k] == i);
                } else {
                    assert(from[before.len() as int] == i);
                }
            }
            assert forall|k: int| 0 <= k < from.len() implies 0 <= #[trigger] from[k] < s.len()
                && s.filter(keep)[k] == s[from[k]] && keep(s[from[k]]) by {
                if k < before.len() {
                    assert(0 <= before[k] < rest.len());
                    assert(rest[before[k]] == s[before[k]]);
                }
            }
            from
        } else {
            assert forall|i: int| 0 <= i < s.len() && keep(#[trigger] s[i]) implies before.contains(
                i,
            ) by {
                assert(rest[i] == s[i]);
            }
            before
        }
    }
}

proof fn lemma_node_with_id(nodes: Seq<Node>, id: Seq<char>, i: int)
    requires
        0 <= i < nodes.len(),
        nodes[i].id@ == id,
        forall|j: int| 0 <= j < i ==> (#[trigger] nodes[j]).id@ != id,
    ensures
        node_with_id(nodes, id) == Some(nodes[i]@),
    decreases nodes.len(),
{
    if i > 0 {
        let rest = nodes.drop_first();
        assert(nodes[0].id@ != id);
        assert(rest[i - 1] == nodes[i]);
        assert forall|j: int| 0 <= j < i - 1 implies (#[trigger] rest[j]).id@ != id by {
            assert(rest[j] == nodes[j + 1]);
        }
        lemma_node_with_id(rest, id, i - 1);
    }
}

proof fn lemma_no_node_with_id(nodes: Seq<Node>, id: Seq<char>)
    requires
        forall|j: int| 0 <= j < nodes.len() ==> (#[trigger] nodes[j]).id@ != id,
    ensures
        node_with_id(nodes, id) is None,
    decreases nodes.len(),
{
    if nodes.len() > 0 {
        let rest = nodes.drop_first();
        assert(nodes[0].id@ != id);
        assert forall|j: int| 0 <= j < rest.len() implies (#[trigger] rest[j]).id@ != id by {
            assert(rest[j] == nodes[j + 1]);
        }
        lemma_no_node_with_id(rest, id);
    }
}

/// A port takes many wires if and only if the first node with the id is not the sink and has a
/// descriptor whose input is variadic and called so.
pub proof fn law_variadic_ports_are_those_described(
    nodes: Seq<Node>,
    id: Seq<char>,
    port: Seq<char>,
    i: int,
)
    ensures
        0 <= i < nodes.len() && nodes[i].id@ == id && (forall|j: int|
            0 <= j < i ==> (#[trigger] nodes[j]).id@ != id) ==> variadic_port(
            node_with_id(nodes, id),
            port,
        ) == (nodes[i].ty@ != "audio_output"@ && nodes[i].desc is Some && ((
        nodes[i].desc->0).inputs matches Inputs::Variadic(name) && name@ == port)),
        (forall|j: int| 0 <= j < nodes.len() ==> (#[trigger] nodes[j]).id@ != id)
            ==> !variadic_port(node_with_id(nodes, id), port),
{
    if 0 <= i < nodes.len() && nodes[i].id@ == id && (forall|j: int|
        0 <= j < i ==> (#[trigger] nodes[j]).id@ != id) {
        lemma_node_with_id(nodes, id, i);
    }
    if forall|j: int| 0 <= j < nodes.len() ==> (#[trigger] nodes[j]).id@ != id {
        lemma_no_node_with_id(nodes, id);
    }
}

/// Two ports are connected if and only if one is an output and the other an input, of two nodes.
/// The new wire comes last and leads from the output to the input.
pub proof fn law_connection_leads_from_output_to_input<W>(
    nodes: Seq<Node>,
    before: Seq<Wire>,
    after: Seq<Wire>,
    a: PortRef<W>,
    b: PortRef<W>,
)
    requires
        connected(nodes, before, after, wire_between(a, b)),
        connectable(a, b),
    ensures
        a.is_output != b.is_output,
        a.node@ != b.node@,
        after.len() > 0,
        a.is_output ==> {
            &&& after.last().from.0@ == a.node@ && after.last().from.1@ == a.port@
            &&& after.last().to.0@ == b.node@ && after.last().to.1@ == b.port@
        },
        b.is_output ==> {
            &&& after.last().from.0@ == b.node@ && after.last().from.1@ == b.port@
            &&& after.last().to.0@ == a.node@ && after.last().to.1@ == a.port@
        },
{
}

/// An output and an input of two nodes can be connected.
pub proof fn law_opposite_ports_connect<W>(a: PortRef<W>, b: PortRef<W>)
    ensures
        a.is_output != b.is_output && a.node@ != b.node@ <==> connectable(a, b),
{
}

/// Connecting to a port that takes many wires keeps every wire. Connecting to any other port takes
/// away the wires that lead to it, and keeps all others in their order: `from` says where each
/// stood.
pub proof fn law_connecting_keeps_the_other_wires(
    nodes: Seq<Node>,
    before: Seq<Wire>,
    after: Seq<Wire>,
    ends: ((Seq<char>, Seq<char>), (Seq<char>, Seq<char>)),
) -> (from: Seq<int>)
    requires
        connected(nodes, before, after, ends),
    ensures
        variadic_port(node_with_id(nodes, ends.1.0), ends.1.1) ==> {
            &&& after.len() == before.len() + 1
            &&& forall|i: int| 0 <= i < before.len() ==> #[trigger] after[i] == before[i]
        },
        !variadic_port(node_with_id(nodes, ends.1.0), ends.1.1) ==> {
            &&& after.len() == from.len() + 1
            &&& forall|k: int|
                0 <= k < from.len() ==> 0 <= #[trigger] from[k] < before.len() && after[k]
                    == before[from[k]]
            &&& forall|j: int, k: int|
                0 <= j < k < from.len() ==> #[trigger] from[j] < #[trigger] from[k]
            &&& forall|i: int|
                0 <= i < before.len() ==> (from.contains(i) <==> !((
                #[trigger] before[i]).to.0@ == ends.1.0 && before[i].to.1@ == ends.1.1))
        },
{
    let keep = |w: Wire| crate::edit::wire_end(w, false) != ends.1;
    let from = lemma_filter_places(before, keep);
    let kept = after.drop_last();
    if variadic_port(node_with_id(nodes, ends.1.0), ends.1.1) {
        assert forall|i: int| 0 <= i < before.len() implies #[trigger] after[i] == before[i] by {
            assert(kept[i] == before[i]);
        }
    } else {
        assert(kept == before.filter(keep));
        assert forall|k: int| 0 <= k < from.len() implies 0 <= #[trigger] from[k] < before.len()
            && after[k] == before[from[k]] by {
            assert(kept[k] == after[k]);
        }
        assert forall|i: int| 0 <= i < before.len() implies (from.contains(i) <==> !((
        #[trigger] before[i]).to.0@ == ends.1.0 && before[i].to.1@ == ends.1.1)) by {
            if from.contains(i) {
                let k = choose|k: int| 0 <= k < from.len() && from[k] == i;
                assert(keep(before[from[k]]));
            }
            if !(before[i].to.0@ == ends.1.0 && before[i].to.1@ == ends.1.1) {
                assert(before[i].to@ != ends.1);
                assert(keep(before[i]));
            }
        }
    }
    from
}

/// Disconnecting a wire takes away one wire with these ends, the first, and says so; if there is
/// none, everything stays and it says that.
pub proof fn law_one_wire_is_disconnected(
    before: Seq<Wire>,
    after: Seq<Wire>,
    ends: ((Seq<char>, Seq<char>), (Seq<char>, Seq<char>)),
    removed: bool,
) -> (i: int)
    requires
        wire_removed(before, after, ends, removed),
    ensures
        removed ==> {
            &&& 0 <= i < before.len()
            &&& before[i].from.0@ == ends.0.0 && before[i].from.1@ == ends.0.1
            &&& before[i].to.0@ == ends.1.0 && before[i].to.1@ == ends.1.1
            &&& after.len() == before.len() - 1
            &&& forall|j: int| 0 <= j < i ==> #[trigger] after[j] == before[j]
            &&& forall|j: int| i <= j < after.len() ==> #[trigger] after[j] == before[j + 1]
            &&& forall|j: int|
                0 <= j < i ==> !((#[trigger] before[j]).from.0@ == ends.0.0 && before[j].from.1@
                    == ends.0.1 && before[j].to.0@ == ends.1.0 && before[j].to.1@ == ends.1.1)
        },
        !removed ==> {
            &&& after == before
            &&& forall|j: int|
                0 <= j < before.len() ==> !((#[trigger] before[j]).from.0@ == ends.0.0
                    && before[j].from.1@ == ends.0.1 && before[j].to.0@ == ends.1.0
                    && before[j].to.1@ == ends.1.1)
        },
{
    if removed {
        let i = choose|i: int|
            {
                &&& 0 <= i < before.len()
                &&& (#[trigger] before[i])@ == ends
                &&& forall|j: int| 0 <= j < i ==> (#[trigger] before[j])@ != ends
                &&& after == before.remove(i)
            };
        assert forall|j: int| 0 <= j < i implies !((#[trigger] before[j]).from.0@ == ends.0.0
            && before[j].from.1@ == ends.0.1 && before[j].to.0@ == ends.1.0 && before[j].to.1@
            == ends.1.1) by {
            assert(before[j]@ != ends);
        }
        i
    } else {
        assert forall|j: int| 0 <= j < before.len() implies !((#[trigger] before[j]).from.0@
            == ends.0.0 && before[j].from.1@ == ends.0.1 && before[j].to.0@ == ends.1.0
            && before[j].to.1@ == ends.1.1) by {
            assert(before[j]@ != ends);
        }
        0
    }
}

/// Disconnecting an output takes away exactly the wires that leave it and keeps all others in
/// their order: `from` says where each stood. It says whether there are fewer.
pub proof fn law_output_loses_exactly_its_wires(
    before: Seq<Wire>,
    after: Seq<Wire>,
    end: (Seq<char>, Seq<char>),
    removed: bool,
) -> (from: Seq<int>)
    requires
        output_freed(before, after, end, removed),
    ensures
        after.len() == from.len(),
        removed == (after.len() != before.len()),
        forall|k: int|
            0 <= k < from.len() ==> 0 <= #[trigger] from[k] < before.len() && after[k]
                == before[from[k]],
        forall|j: int, k: int| 0 <= j < k < from.len() ==> #[trigger] from[j] < #[trigger] from[k],
        forall|i: int|
            0 <= i < before.len() ==> (from.contains(i) <==> !((#[trigger] before[i]).from.0@
                == end.0 && before[i].from.1@ == end.1)),
{
    let keep = |w: Wire| crate::edit::wire_end(w, true) != end;
    let from = lemma_filter_places(before, keep);
    assert(after == before.filter(keep));
    assert forall|i: int| 0 <= i < before.len() implies (from.contains(i) <==> !((
    #[trigger] before[i]).from.0@ == end.0 && before[i].from.1@ == end.1)) by {
        if from.contains(i) {
            let k = choose|k: int| 0 <= k < from.len() && from[k] == i;
            assert(keep(before[from[k]]));
        }
        if !(before[i].from.0@ == end.0 && before[i].from.1@ == end.1) {
            assert(before[i].from@ != end);
            assert(keep(before[i]));
        }
    }
    if removed {
        let i = choose|i: int| 0 <= i < before.len() && (#[trigger] before[i]).from@ == end;
        assert(!from.contains(i));
        lemma_increasing_misses(from, before.len() as int, i);
    } else {
        assert forall|i: int| 0 <= i < before.len() implies from.contains(i) by {
            assert(before[i].from@ != end);
        }
        lemma_increasing_covers(from, before.len() as int);
    }
    from
}

/// Increasing numbers below `n` that leave one out are fewer than `n`.
proof fn lemma_increasing_misses(from: Seq<int>, n: int, i: int)
    requires
        0 <= i < n,
        !from.contains(i),
        forall|k: int| 0 <= k < from.len() ==> 0 <= #[trigger] from[k] < n,
        forall|j: int, k: int| 0 <= j < k < from.len() ==> #[trigger] from[j] < #[trigger] from[k],
    ensures
        from.len() < n,
    decreases n,
{
    if from.len() > 0 {
        let last = from.len() - 1;
        let rest = from.drop_last();
        if from[last] < n - 1 {
            lemma_increasing_fit(from, n - 1);
        } else {
            assert(i != n - 1) by {
                if i == n - 1 {
                    assert(from[last] == i);
                }
            }
            assert forall|k: int| 0 <= k < rest.len() implies 0 <= #[trigger] rest[k] < n - 1 by {
                assert(from[k] < from[last]);
            }
            assert(!rest.contains(i)) by {
                if rest.contains(i) {
                    let k = choose|k: int| 0 <= k < rest.len() && rest[k] == i;
                    assert(from[k] == i);
                }
            }
            lemma_increasing_misses(rest, n - 1, i);
        }
    }
}

/// Increasing numbers below `n` are at most `n`.
proof fn lemma_increasing_fit(from: Seq<int>, n: int)
    requires
        n >= 0,
        forall|k: int| 0 <= k < from.len() && k == from.len() - 1 ==> #[trigger] from[k] < n,
        forall|k: int| 0 <= k < from.len() ==> 0 <= #[trigger] from[k],
        forall|j: int, k: int| 0 <= j < k < from.len() ==> #[trigger] from[j] < #[trigger] from[k],
    ensures
        from.len() <= n,
    decreases from.len(),
{
    if from.len() > 0 {
        let last = from.len() - 1;
        let rest = from.drop_last();
        assert(from[last] < n);
        if rest.len() > 0 {
            assert(from[last - 1] < from[last]);
        }
        lemma_increasing_fit(rest, from[last]);
    }
}

/// Increasing numbers that leave out none below `n` are at least `n`.
proof fn lemma_increasing_covers(from: Seq<int>, n: int)
    requires
        n >= 0,
        forall|i: int| 0 <= i < n ==> from.contains(i),
        forall|k: int| 0 <= k < from.len() ==> 0 <= #[trigger] from[k] < n,
        forall|j: int, k: int| 0 <= j < k < from.len() ==> #[trigger] from[j] < #[trigger] from[k],
    ensures
        from.len() == n,
    decreases n,
{
    lemma_increasing_fit(from, n);
    if n > 0 {
        assert(from.contains(n - 1));
        let k = choose|k: int| 0 <= k < from.len() && from[k] == n - 1;
        let last = from.len() - 1;
        if k < last {
            assert(from[k] < from[last]);
            assert(from[last] < n);
        }
        assert(from[last] == n - 1);
        let rest = from.drop_last();
        assert forall|i: int| 0 <= i < n - 1 implies rest.contains(i) by {
            assert(from.contains(i));
            let m = choose|m: int| 0 <= m < from.len() && from[m] == i;
            assert(m != last);
            assert(rest[m] == i);
        }
        assert forall|m: int| 0 <= m < rest.len() implies 0 <= #[trigger] rest[m] < n - 1 by {
            assert(from[m] < from[last]);
        }
        lemma_increasing_covers(rest, n - 1);
    }
}

/// A node has the id made of the type, a dash and the numeral.
pub open spec fn numbered_id_exists(nodes: Seq<Node>, ty: Seq<char>, numeral: Seq<char>) -> bool {
    exists|i: int| 0 <= i < nodes.len() && (#[trigger] nodes[i]).id@ == ty + "-"@ + numeral
}

/// A new node has an id that no node had: its type, a dash and a number, with all smaller numbers
/// taken. It comes last, has no parameters, and stands at the given place; nothing else changes.
pub proof fn law_new_node_is_added_at_the_end<P>(
    before: GraphView<P>,
    after: GraphView<P>,
    ty: Seq<char>,
    center: P,
    id: Seq<char>,
) -> (n: nat)
    requires
        node_added(before, after, ty, center, id),
    ensures
        n >= 1,
        id == ty + "-"@ + decimal(n),
        forall|i: int|
            0 <= i < before.patch.nodes@.len() ==> (#[trigger] before.patch.nodes@[i]).id@ != id,
        forall|m: nat|
            1 <= m < n ==> numbered_id_exists(before.patch.nodes@, ty, #[trigger] decimal(m)),
        after.patch.nodes@.len() == before.patch.nodes@.len() + 1,
        forall|i: int|
            0 <= i < before.patch.nodes@.len() ==> #[trigger] after.patch.nodes@[i]
                == before.patch.nodes@[i],
        after.patch.nodes@.last().id@ == id,
        after.patch.nodes@.last().ty@ == ty,
        after.patch.nodes@.last().channels is None,
        after.patch.nodes@.last()@.desc == before.registry.ports_of(ty),
        after.patch.layout@.contains_key(id) && after.patch.layout@[id] == center,
        forall|other: Seq<char>|
            other != id ==> (#[trigger] after.patch.layout@.contains_key(other)
                <==> before.patch.layout@.contains_key(other)),
        forall|other: Seq<char>|
            other != id && #[trigger] before.patch.layout@.contains_key(other)
                ==> after.patch.layout@[other] == before.patch.layout@[other],
        after.patch.wires == before.patch.wires,
        after.registry == before.registry,
{
    let nodes = before.patch.nodes@;
    let n = choose|n: nat|
        {
            &&& n >= 1
            &&& id == #[trigger] crate::edit::candidate_id(ty, n)
            &&& !crate::edit::id_taken(nodes, id)
            &&& forall|m: nat|
                1 <= m < n ==> crate::edit::id_taken(
                    nodes,
                    #[trigger] crate::edit::candidate_id(ty, m),
                )
        };
    assert forall|m: nat| 1 <= m < n implies numbered_id_exists(
        before.patch.nodes@,
        ty,
        #[trigger] decimal(m),
    ) by {
        assert(crate::edit::id_taken(nodes, crate::edit::candidate_id(ty, m)));
    }
    assert forall|i: int| 0 <= i < nodes.len() implies #[trigger] after.patch.nodes@[i]
        == nodes[i] by {
        assert(after.patch.nodes@.drop_last()[i] == nodes[i]);
    }
    n
}

} // verus!
