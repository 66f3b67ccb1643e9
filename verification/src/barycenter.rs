//! Ordering a column by the average position of each node's neighbors.

use vstd::prelude::*;

verus! {

/// A fraction with a positive denominator.
pub struct Fraction {
    pub num: u128,
    pub den: u128,
}

/// The sum of the positions of `nodes`.
pub open spec fn position_sum(nodes: Seq<usize>, positions: Seq<usize>) -> int
    decreases nodes.len(),
{
    if nodes.len() == 0 {
        0
    } else {
        position_sum(nodes.drop_last(), positions) + positions[nodes.last() as int]
    }
}

/// The average position of the neighbors of `node` as numerator and denominator; its own position
/// if it has none.
pub open spec fn barycenter(
    neighbors: Seq<Seq<usize>>,
    positions: Seq<usize>,
    node: usize,
) -> (int, int) {
    let ns = neighbors[node as int];
    if ns.len() == 0 {
        (positions[node as int] as int, 1)
    } else {
        (position_sum(ns, positions), ns.len() as int)
    }
}

/// The average position of `a`'s neighbors is below that of `b`'s.
pub open spec fn pulls_before(
    neighbors: Seq<Seq<usize>>,
    positions: Seq<usize>,
    a: usize,
    b: usize,
) -> bool {
    let (p, q) = barycenter(neighbors, positions, a);
    let (r, s) = barycenter(neighbors, positions, b);
    p * s < r * q
}

/// `col` with `node` put behind every node that it does not pull before.
pub open spec fn insert_by_pull(
    neighbors: Seq<Seq<usize>>,
    positions: Seq<usize>,
    col: Seq<usize>,
    node: usize,
) -> Seq<usize>
    decreases col.len(),
{
    if col.len() > 0 && pulls_before(neighbors, positions, node, col.last()) {
        insert_by_pull(neighbors, positions, col.drop_last(), node).push(col.last())
    } else {
        col.push(node)
    }
}

/// `col` in stable order of the average position of each node's neighbors.
pub open spec fn sorted_by_pull(
    neighbors: Seq<Seq<usize>>,
    positions: Seq<usize>,
    col: Seq<usize>,
) -> Seq<usize>
    decreases col.len(),
{
    if col.len() == 0 {
        col
    } else {
        insert_by_pull(
            neighbors,
            positions,
            sorted_by_pull(neighbors, positions, col.drop_last()),
            col.last(),
        )
    }
}

/// The contents of a list of lists.
pub open spec fn contents(lists: Seq<Vec<usize>>) -> Seq<Seq<usize>> {
    lists.map_values(|l: Vec<usize>| l@)
}

/// `node` has a list of neighbors, all of which have positions; if the list is empty, the node
/// itself has one.
pub open spec fn has_pull(neighbors: Seq<Seq<usize>>, positions: Seq<usize>, node: usize) -> bool {
    &&& node < neighbors.len()
    &&& neighbors[node as int].len() == 0 ==> node < positions.len()
    &&& forall|j: int|
        0 <= j < neighbors[node as int].len() ==> #[trigger] neighbors[node as int][j]
            < positions.len()
}

/// What sorting `col` looks at is there: nothing, if there is no second node to compare with.
pub open spec fn positioned(
    neighbors: Seq<Seq<usize>>,
    positions: Seq<usize>,
    col: Seq<usize>,
) -> bool {
    col.len() >= 2 ==> forall|i: int|
        0 <= i < col.len() ==> has_pull(neighbors, positions, #[trigger] col[i])
}

/// Whether `a / b < c / d`.
pub fn fraction_less(a: u128, b: u128, c: u128, d: u128) -> (r: bool)
    requires
        b > 0,
        d > 0,
    ensures
        r == (a * d < c * b),
    decreases b + d,
{
    let q1: u128 = a / b;
    let q2: u128 = c / d;
    let r1: u128 = a % b;
    let r2: u128 = c % d;
    proof {
        lemma_fraction_parts(a as int, b as int, c as int, d as int);
        vstd::arithmetic::div_mod::lemma_mod_bound(a as int, b as int);
        vstd::arithmetic::div_mod::lemma_mod_bound(c as int, d as int);
    }
    if q1 != q2 {
        q1 < q2
    } else if r2 == 0 {
        proof {
            assert(0 <= r1 * d) by (nonlinear_arith)
                requires
                    r1 >= 0,
                    d > 0,
            ;
            assert(r2 * b == 0) by (nonlinear_arith)
                requires
                    r2 == 0,
            ;
        }
        false
    } else if r1 == 0 {
        proof {
            assert(0 < r2 * b) by (nonlinear_arith)
                requires
                    r2 > 0,
                    b > 0,
            ;
            assert(r1 * d == 0) by (nonlinear_arith)
                requires
                    r1 == 0,
            ;
        }
        true
    } else {
        proof {
            assert(d * r1 == r1 * d) by (nonlinear_arith);
            assert(b * r2 == r2 * b) by (nonlinear_arith);
        }
        fraction_less(d, r2, b, r1)
    }
}

/// Two fractions compare by their whole parts, then by what is left.
proof fn lemma_fraction_parts(a: int, b: int, c: int, d: int)
    requires
        a >= 0,
        b > 0,
        c >= 0,
        d > 0,
    ensures
        a / b < c / d ==> a * d < c * b,
        a / b > c / d ==> a * d >= c * b,
        a / b == c / d ==> (a * d < c * b <==> (a % b) * d < (c % d) * b),
{
    let q1 = a / b;
    let q2 = c / d;
    let r1 = a % b;
    let r2 = c % d;
    vstd::arithmetic::div_mod::lemma_fundamental_div_mod(a, b);
    vstd::arithmetic::div_mod::lemma_fundamental_div_mod(c, d);
    vstd::arithmetic::div_mod::lemma_mod_bound(a, b);
    vstd::arithmetic::div_mod::lemma_mod_bound(c, d);
    assert(a * d == q1 * b * d + r1 * d) by (nonlinear_arith)
        requires
            a == b * q1 + r1,
    ;
    assert(c * b == q2 * b * d + r2 * b) by (nonlinear_arith)
        requires
            c == d * q2 + r2,
    ;
    assert(0 <= r1 * d < b * d) by (nonlinear_arith)
        requires
            0 <= r1 < b,
            d > 0,
    ;
    assert(0 <= r2 * b < b * d) by (nonlinear_arith)
        requires
            0 <= r2 < d,
            b > 0,
    ;
    if q1 < q2 {
        assert(q1 * b * d + b * d <= q2 * b * d) by (nonlinear_arith)
            requires
                q1 + 1 <= q2,
                b > 0,
                d > 0,
        ;
    } else if q1 > q2 {
        assert(q2 * b * d + b * d <= q1 * b * d) by (nonlinear_arith)
            requires
                q2 + 1 <= q1,
                b > 0,
                d > 0,
        ;
    }
}

/// The average position of the neighbors of `node`.
fn barycenter_of(
    neighbors: &Vec<Vec<usize>>,
    positions: &Vec<usize>,
    node: usize,
) -> (f: Fraction)
    requires
        has_pull(contents(neighbors@), positions@, node),
    ensures
        f.den > 0,
        (f.num as int, f.den as int) == barycenter(contents(neighbors@), positions@, node),
{
    let ghost lists = contents(neighbors@);
    let ghost ns = lists[node as int];
    assert(neighbors@[node as int]@ == ns);
    let count: usize = neighbors[node].len();
    if count == 0 {
        return Fraction { num: positions[node] as u128, den: 1 };
    }
    let mut sum: u128 = 0;
    let mut k: usize = 0;
    assert(ns.take(0) =~= Seq::empty());
    while k < count
        invariant
            k <= count,
            count == ns.len(),
            node < neighbors@.len(),
            lists == contents(neighbors@),
            neighbors@[node as int]@ == ns,
            ns == lists[node as int],
            has_pull(lists, positions@, node),
            sum == position_sum(ns.take(k as int), positions@),
            sum <= k * 0xffff_ffff_ffff_ffff,
        decreases count - k,
    {
        assert(lists[node as int][k as int] < positions@.len());
        let m: usize = neighbors[node][k];
        assert(ns.take(k + 1).drop_last() =~= ns.take(k as int));
        sum = sum + positions[m] as u128;
        k += 1;
    }
    assert(ns.take(count as int) =~= ns);
    Fraction { num: sum, den: count as u128 }
}

/// Putting a node in its place is inserting it behind the last node that it does not pull before.
proof fn lemma_insert_place(
    neighbors: Seq<Seq<usize>>,
    positions: Seq<usize>,
    col: Seq<usize>,
    node: usize,
    place: int,
)
    requires
        0 <= place <= col.len(),
        forall|i: int|
            place <= i < col.len() ==> pulls_before(neighbors, positions, node, #[trigger] col[i]),
        place > 0 ==> !pulls_before(neighbors, positions, node, col[place - 1]),
    ensures
        insert_by_pull(neighbors, positions, col, node) == col.insert(place, node),
    decreases col.len(),
{
    if place == col.len() {
        assert(col.insert(place, node) =~= col.push(node));
        if col.len() > 0 {
            assert(col.last() == col[place - 1]);
        }
    } else {
        let front = col.drop_last();
        assert(col.last() == col[col.len() - 1]);
        assert forall|i: int| place <= i < front.len() implies pulls_before(
            neighbors,
            positions,
            node,
            #[trigger] front[i],
        ) by {
            assert(front[i] == col[i]);
        }
        lemma_insert_place(neighbors, positions, front, node, place);
        assert(front.insert(place, node).push(col.last()) =~= col.insert(place, node));
    }
}

/// Order a column by the average position of each node's neighbors. The order is stable; a node
/// with no neighbors has its own position as key.
pub fn barycenter_sort(col: &mut Vec<usize>, neighbors: &Vec<Vec<usize>>, positions: &Vec<usize>)
    requires
        positioned(contents(neighbors@), positions@, old(col)@),
    ensures
        final(col)@ == sorted_by_pull(contents(neighbors@), positions@, old(col)@),
{
    let ghost lists = contents(neighbors@);
    let ghost given = col@;
    if col.len() < 2 {
        proof {
            reveal_with_fuel(sorted_by_pull, 2);
            if given.len() == 1 {
                assert(given.drop_last() =~= Seq::empty());
                assert(Seq::<usize>::empty().push(given.last()) =~= given);
            }
        }
        return;
    }
    let mut sorted: Vec<usize> = Vec::new();
    let mut k: usize = 0;
    assert(given.take(0) =~= Seq::empty());
    while k < col.len()
        invariant
            k <= col.len(),
            col@ == given,
            lists == contents(neighbors@),
            given.len() >= 2,
            positioned(lists, positions@, given),
            sorted@ == sorted_by_pull(lists, positions@, given.take(k as int)),
            sorted@.len() == k,
            forall|i: int|
                0 <= i < sorted@.len() ==> has_pull(lists, positions@, #[trigger] sorted@[i]),
        decreases col.len() - k,
    {
        let node: usize = col[k];
        assert(given[k as int] == node);
        let key = barycenter_of(neighbors, positions, node);
        let mut place: usize = sorted.len();
        let mut searching: bool = true;
        while searching && place > 0
            invariant
                place <= sorted@.len(),
                lists == contents(neighbors@),
                forall|i: int|
                    0 <= i < sorted@.len() ==> has_pull(lists, positions@, #[trigger] sorted@[i]),
                key.den > 0,
                (key.num as int, key.den as int) == barycenter(lists, positions@, node),
                forall|i: int|
                    place <= i < sorted@.len() ==> pulls_before(
                        lists,
                        positions@,
                        node,
                        #[trigger] sorted@[i],
                    ),
                !searching ==> place > 0 && !pulls_before(
                    lists,
                    positions@,
                    node,
                    sorted@[place - 1],
                ),
            decreases place, searching as int,
        {
            let other: usize = sorted[place - 1];
            let f = barycenter_of(neighbors, positions, other);
            if fraction_less(key.num, key.den, f.num, f.den) {
                assert(pulls_before(lists, positions@, node, sorted@[place - 1]));
                place -= 1;
            } else {
                searching = false;
            }
        }
        proof {
            lemma_insert_place(lists, positions@, sorted@, node, place as int);
            assert(given.take(k + 1).drop_last() =~= given.take(k as int));
        }
        let ghost before = sorted@;
        sorted.insert(place, node);
        assert forall|i: int| 0 <= i < sorted@.len() implies has_pull(
            lists,
            positions@,
            #[trigger] sorted@[i],
        ) by {
            if i < place {
                assert(sorted@[i] == before[i]);
            } else if i > place {
                assert(sorted@[i] == before[i - 1]);
            }
        }
        k += 1;
    }
    assert(given.take(given.len() as int) =~= given);
    *col = sorted;
}

/// `sorted` holds the nodes of `col`, `origin` saying where each stood, in order of the average
/// position of their neighbors; nodes that pull alike keep the order they had.
pub open spec fn in_stable_order(
    neighbors: Seq<Seq<usize>>,
    positions: Seq<usize>,
    col: Seq<usize>,
    sorted: Seq<usize>,
    origin: Seq<int>,
) -> bool {
    &&& sorted.len() == col.len()
    &&& origin.len() == col.len()
    &&& origin.no_duplicates()
    &&& forall|i: int|
        0 <= i < origin.len() ==> 0 <= #[trigger] origin[i] < col.len() && sorted[i]
            == col[origin[i]]
    &&& forall|i: int, j: int|
        0 <= i < j < sorted.len() ==> #[trigger] rightly_before(
            neighbors,
            positions,
            sorted,
            origin,
            i,
            j,
        )
}

/// The `i`-th node pulls before the `j`-th, or they pull alike and it stood before.
pub open spec fn rightly_before(
    neighbors: Seq<Seq<usize>>,
    positions: Seq<usize>,
    sorted: Seq<usize>,
    origin: Seq<int>,
    i: int,
    j: int,
) -> bool {
    ||| pulls_before(neighbors, positions, sorted[i], sorted[j])
    ||| !pulls_before(neighbors, positions, sorted[j], sorted[i]) && origin[i] < origin[j]
}

/// Sorting a column keeps its nodes, each as often as before, and orders them by the average
/// position of their neighbors, without swapping nodes that pull alike.
pub proof fn law_barycenter_sort_is_stable(
    neighbors: Seq<Seq<usize>>,
    positions: Seq<usize>,
    col: Seq<usize>,
) -> (origin: Seq<int>)
    ensures
        in_stable_order(
            neighbors,
            positions,
            col,
            sorted_by_pull(neighbors, positions, col),
            origin,
        ),
    decreases col.len(),
{
    let sorted = sorted_by_pull(neighbors, positions, col);
    if col.len() == 0 {
        Seq::empty()
    } else {
        let rest = col.drop_last();
        let node = col.last();
        let done = sorted_by_pull(neighbors, positions, rest);
        let from = law_barycenter_sort_is_stable(neighbors, positions, rest);
        let place = lemma_place_of(neighbors, positions, done, node);
        let origin = from.insert(place, rest.len() as int);
        assert forall|i: int| 0 <= i < origin.len() implies 0 <= #[trigger] origin[i] < col.len()
            && sorted[i] == col[origin[i]] by {
            if i != place {
                let k = if i < place {
                    i
                } else {
                    i - 1
                };
                assert(origin[i] == from[k]);
                assert(sorted[i] == done[k]);
                assert(col[from[k]] == rest[from[k]]);
            }
        }
        assert forall|i: int, j: int| 0 <= i < j < origin.len() implies #[trigger] origin[i]
            != #[trigger] origin[j] by {
            let a = if i < place {
                i
            } else {
                i - 1
            };
            let b = if j < place {
                j
            } else {
                j - 1
            };
            if i == place {
                assert(0 <= from[b] < rest.len());
            } else if j == place {
                assert(0 <= from[a] < rest.len());
            } else {
                assert(from[a] != from[b]);
            }
        }
        assert forall|i: int, j: int| 0 <= i < j < sorted.len() implies #[trigger] rightly_before(
            neighbors,
            positions,
            sorted,
            origin,
            i,
            j,
        ) by {
            let a = if i < place {
                i
            } else {
                i - 1
            };
            let b = if j < place {
                j
            } else {
                j - 1
            };
            if i == place {
                assert(sorted[j] == done[b]);
            } else if j == place {
                assert(sorted[i] == done[a]);
                assert(origin[i] == from[a]);
                assert(0 <= from[a] < rest.len());
                if a < place - 1 {
                    assert(rightly_before(neighbors, positions, done, from, a, place - 1));
                }
                lemma_pull_is_an_order(neighbors, positions, done[a], done[place - 1], node);
            } else {
                assert(origin[i] == from[a] && origin[j] == from[b]);
                assert(sorted[i] == done[a] && sorted[j] == done[b]);
                assert(rightly_before(neighbors, positions, done, from, a, b));
            }
        }
        assert(origin.no_duplicates());
        assert(sorted.len() == col.len());
        origin
    }
}

/// Not being pulled before is an order in which any two nodes compare.
proof fn lemma_pull_is_an_order(
    neighbors: Seq<Seq<usize>>,
    positions: Seq<usize>,
    a: usize,
    b: usize,
    c: usize,
)
    ensures
        !pulls_before(neighbors, positions, b, a) && !pulls_before(neighbors, positions, c, b)
            ==> !pulls_before(neighbors, positions, c, a),
        pulls_before(neighbors, positions, a, b) ==> !pulls_before(neighbors, positions, b, a),
{
    let (p, q) = barycenter(neighbors, positions, a);
    let (r, s) = barycenter(neighbors, positions, b);
    let (t, u) = barycenter(neighbors, positions, c);
    if !pulls_before(neighbors, positions, b, a) && !pulls_before(neighbors, positions, c, b) {
        assert(p * u <= t * q) by (nonlinear_arith)
            requires
                p * s <= r * q,
                r * u <= t * s,
                q > 0,
                s > 0,
                u > 0,
        {
            assert(p * s * u <= r * q * u);
            assert(r * u * q <= t * s * q);
            assert((p * u) * s <= (t * q) * s);
        }
    }
}

/// Where a node is put.
proof fn lemma_place_of(
    neighbors: Seq<Seq<usize>>,
    positions: Seq<usize>,
    col: Seq<usize>,
    node: usize,
) -> (place: int)
    ensures
        0 <= place <= col.len(),
        forall|i: int|
            place <= i < col.len() ==> pulls_before(neighbors, positions, node, #[trigger] col[i]),
        place > 0 ==> !pulls_before(neighbors, positions, node, col[place - 1]),
        insert_by_pull(neighbors, positions, col, node) == col.insert(place, node),
    decreases col.len(),
{
    if col.len() > 0 && pulls_before(neighbors, positions, node, col.last()) {
        let front = col.drop_last();
        let place = lemma_place_of(neighbors, positions, front, node);
        assert forall|i: int| place <= i < col.len() implies pulls_before(
            neighbors,
            positions,
            node,
            #[trigger] col[i],
        ) by {
            if i < front.len() {
                assert(front[i] == col[i]);
            }
        }
        assert(front.insert(place, node).push(col.last()) =~= col.insert(place, node));
        place
    } else {
        assert(col.insert(col.len() as int, node) =~= col.push(node));
        col.len() as int
    }
}

/// No node pulls before one that stands before it.
pub open spec fn in_pull_order(
    neighbors: Seq<Seq<usize>>,
    positions: Seq<usize>,
    col: Seq<usize>,
) -> bool {
    forall|i: int, j: int|
        0 <= i < j < col.len() ==> !#[trigger] pulls_before(neighbors, positions, col[j], col[i])
}

/// A sorted column is in order, a column that is in order stays as it is, and so sorting a column
/// again changes nothing.
pub proof fn law_barycenter_sort_is_idempotent(
    neighbors: Seq<Seq<usize>>,
    positions: Seq<usize>,
    col: Seq<usize>,
)
    ensures
        in_pull_order(neighbors, positions, sorted_by_pull(neighbors, positions, col)),
        in_pull_order(neighbors, positions, col) ==> sorted_by_pull(neighbors, positions, col)
            == col,
        sorted_by_pull(neighbors, positions, sorted_by_pull(neighbors, positions, col))
            == sorted_by_pull(neighbors, positions, col),
{
    let sorted = sorted_by_pull(neighbors, positions, col);
    let origin = law_barycenter_sort_is_stable(neighbors, positions, col);
    assert forall|i: int, j: int| 0 <= i < j < sorted.len() implies !#[trigger] pulls_before(
        neighbors,
        positions,
        sorted[j],
        sorted[i],
    ) by {
        assert(rightly_before(neighbors, positions, sorted, origin, i, j));
        lemma_pull_is_an_order(neighbors, positions, sorted[i], sorted[j], sorted[j]);
    }
    lemma_order_is_kept(neighbors, positions, sorted);
    if in_pull_order(neighbors, positions, col) {
        lemma_order_is_kept(neighbors, positions, col);
    }
}

proof fn lemma_order_is_kept(
    neighbors: Seq<Seq<usize>>,
    positions: Seq<usize>,
    col: Seq<usize>,
)
    requires
        in_pull_order(neighbors, positions, col),
    ensures
        sorted_by_pull(neighbors, positions, col) == col,
    decreases col.len(),
{
    if col.len() > 0 {
        let rest = col.drop_last();
        assert forall|i: int, j: int| 0 <= i < j < rest.len() implies !#[trigger] pulls_before(
            neighbors,
            positions,
            rest[j],
            rest[i],
        ) by {
            assert(!pulls_before(neighbors, positions, col[j], col[i]));
        }
        lemma_order_is_kept(neighbors, positions, rest);
        if rest.len() > 0 {
            let last = col.len() - 1;
            assert(!pulls_before(neighbors, positions, col[last], col[last - 1]));
        }
        assert(rest.push(col.last()) =~= col);
    }
}

} // verus!
