//! Closed loops and the bags of segments that they are made of: what the
//! stitcher finds, and why the order of the bag does not matter.

use vstd::prelude::*;
use vstd::seq_lib::lemma_multiset_commutative;
use crate::classifier::Segment;
use crate::point::{succ, Point};
use crate::stitch::{extend_chain, first_match, lemma_first_match_from, stitch_spec, StitchFailure};

verus! {

/// The edge of the closed loop that leaves the vertex `k`.
pub open spec fn loop_edge(l: Seq<Point>, k: int) -> Segment {
    Segment { start: l[k], end: l[succ(l.len() as int, k)] }
}

/// The edge of the open chain that leaves the vertex `k`.
pub open spec fn chain_edge(c: Seq<Point>, k: int) -> Segment {
    Segment { start: c[k], end: c[k + 1] }
}

/// All edges of the closed loop, in order.
pub open spec fn loop_edges(l: Seq<Point>) -> Seq<Segment> {
    Seq::new(l.len(), |k: int| loop_edge(l, k))
}

/// All edges of the open chain, in order.
pub open spec fn chain_edges(c: Seq<Point>) -> Seq<Segment> {
    Seq::new((c.len() - 1) as nat, |k: int| chain_edge(c, k))
}

/// Whether `s` is the edge of `l` that leaves one of the positions `lo..hi`.
pub open spec fn on_loop(l: Seq<Point>, s: Segment, lo: int, hi: int) -> bool {
    exists|k: int| lo <= k < hi && #[trigger] loop_edge(l, k) == s
}

/// Whether `s` is the edge of `c` that leaves one of the positions `lo..hi`.
pub open spec fn on_chain(c: Seq<Point>, s: Segment, lo: int, hi: int) -> bool {
    exists|k: int| lo <= k < hi && #[trigger] chain_edge(c, k) == s
}

/// A bag without a branch point: no two of its segments start at the same point.
pub open spec fn distinct_starts(bag: Seq<Segment>) -> bool {
    forall|i: int, j: int|
        0 <= i < bag.len() && 0 <= j < bag.len() && i != j ==> (#[trigger] bag[i]).start != (
        #[trigger] bag[j]).start
}

/// Whether the closed loop `l` is made of exactly the segments of `bag`:
/// it passes no point twice, each of its edges is in the bag, and each
/// segment of the bag is one of its edges.
pub open spec fn is_cycle_of(l: Seq<Point>, bag: Seq<Segment>) -> bool {
    &&& l.len() == bag.len()
    &&& l.len() > 0
    &&& l.no_duplicates()
    &&& forall|k: int| 0 <= k < l.len() ==> bag.contains(#[trigger] loop_edge(l, k))
    &&& forall|i: int| 0 <= i < bag.len() ==> on_loop(l, #[trigger] bag[i], 0, l.len() as int)
}

/// The loop `l` entered at its position `k`.
pub open spec fn rotate(l: Seq<Point>, k: int) -> Seq<Point> {
    l.subrange(k, l.len() as int) + l.subrange(0, k)
}

/// Whether `m` is the loop `l` entered at another vertex.
pub open spec fn is_rotation(l: Seq<Point>, m: Seq<Point>) -> bool {
    exists|k: int| 0 <= k < l.len() && m == #[trigger] rotate(l, k)
}

proof fn lemma_remove_keeps_distinct(bag: Seq<Segment>, i: int)
    requires
        distinct_starts(bag),
        0 <= i < bag.len(),
    ensures
        distinct_starts(bag.remove(i)),
        forall|m: int|
            0 <= m < bag.remove(i).len() ==> (#[trigger] bag.remove(i)[m]).start != bag[i].start
                && bag.contains(bag.remove(i)[m]),
{
    let rest = bag.remove(i);
    assert forall|m: int| 0 <= m < rest.len() implies (#[trigger] rest[m]).start != bag[i].start
        && bag.contains(rest[m]) by {
        if m < i {
            assert(rest[m] == bag[m]);
        } else {
            assert(rest[m] == bag[m + 1]);
        }
    }
    assert forall|a: int, b: int| 0 <= a < rest.len() && 0 <= b < rest.len() && a != b implies (
    #[trigger] rest[a]).start != (#[trigger] rest[b]).start by {
        let a0 = if a < i {
            a
        } else {
            a + 1
        };
        let b0 = if b < i {
            b
        } else {
            b + 1
        };
        assert(rest[a] == bag[a0]);
        assert(rest[b] == bag[b0]);
    }
}

/// The edges of a finished chain are those of the chain it grew from and
/// the segments of the bag, each as often as the bag holds it.
proof fn lemma_extend_uses_bag(chain: Seq<Point>, rest: Seq<Segment>)
    requires
        chain.len() >= 1,
        extend_chain(chain, rest) is Ok,
    ensures
        (extend_chain(chain, rest)->Ok_0).len() == chain.len() + rest.len(),
        (extend_chain(chain, rest)->Ok_0)[0] == chain[0],
        chain_edges(extend_chain(chain, rest)->Ok_0).to_multiset() == chain_edges(
            chain,
        ).to_multiset().add(rest.to_multiset()),
    decreases rest.len(),
{
    broadcast use vstd::multiset::group_multiset_axioms;

    let before = chain_edges(chain);
    if rest.len() == 0 {
        rest.to_multiset_ensures();
        assert(rest.to_multiset().len() == 0);
        assert(before.to_multiset().add(rest.to_multiset()) =~= before.to_multiset());
    } else {
        let tail = chain.last();
        lemma_first_match_from(rest, tail, 0);
        let i0 = first_match(rest, tail)->Some_0;
        let x = rest[i0];
        let longer = chain.push(x.end);
        let fewer = rest.remove(i0);
        lemma_extend_uses_bag(longer, fewer);
        assert(chain_edges(longer) =~= before.push(x));
        before.to_multiset_ensures();
        rest.to_multiset_ensures();
        assert(before.push(x).to_multiset() =~= before.to_multiset().insert(x));
        assert(fewer.to_multiset() =~= rest.to_multiset().remove(x));
        assert(rest.contains(x));
        assert(rest.to_multiset().count(x) > 0);
        assert(before.to_multiset().insert(x).add(rest.to_multiset().remove(x))
            =~= before.to_multiset().add(rest.to_multiset()));
    }
}

/// The loop that the stitcher returns has one edge for each segment of the
/// bag: its edges are the segments of the bag, each as often as the bag
/// holds it. It starts where the first segment of the bag starts.
pub proof fn lemma_stitch_uses_bag(bag: Seq<Segment>)
    requires
        stitch_spec(bag) is Ok,
    ensures
        (stitch_spec(bag)->Ok_0).len() == bag.len(),
        (stitch_spec(bag)->Ok_0)[0] == bag[0].start,
        loop_edges(stitch_spec(bag)->Ok_0).to_multiset() == bag.to_multiset(),
{
    broadcast use vstd::multiset::group_multiset_axioms;

    let n = bag.len() as int;
    let chain = seq![bag[0].start, bag[0].end];
    let rest = bag.subrange(1, n);
    lemma_extend_uses_bag(chain, rest);
    let c = extend_chain(chain, rest)->Ok_0;
    let l = stitch_spec(bag)->Ok_0;
    assert(l == c.drop_last());
    assert forall|k: int| 0 <= k < n implies loop_edge(l, k) == chain_edge(c, k) by {
        assert(l[k] == c[k]);
        if k + 1 < n {
            assert(l[k + 1] == c[k + 1]);
        }
    }
    assert(loop_edges(l) =~= chain_edges(c));
    assert(chain_edges(chain) =~= seq![bag[0]]);
    assert(seq![bag[0]] + rest =~= bag);
    lemma_multiset_commutative(seq![bag[0]], rest);
}

/// What a finished chain is made of: the chain it grew from, then one
/// segment of the bag after another, each of them used once.
proof fn lemma_extend_sound(chain: Seq<Point>, rest: Seq<Segment>)
    requires
        chain.len() >= 1,
        distinct_starts(rest),
        extend_chain(chain, rest) is Ok,
    ensures
        ({
            let c = extend_chain(chain, rest)->Ok_0;
            &&& c.len() == chain.len() + rest.len()
            &&& forall|k: int| 0 <= k < chain.len() ==> #[trigger] c[k] == chain[k]
            &&& forall|k: int|
                chain.len() - 1 <= k < c.len() - 1 ==> rest.contains(#[trigger] chain_edge(c, k))
            &&& forall|i: int|
                0 <= i < rest.len() ==> on_chain(
                    c,
                    #[trigger] rest[i],
                    chain.len() - 1,
                    c.len() - 1,
                )
            &&& forall|k1: int, k2: int|
                chain.len() - 1 <= k1 < k2 < c.len() - 1 ==> #[trigger] c[k1] != #[trigger] c[k2]
        }),
    decreases rest.len(),
{
    if rest.len() > 0 {
        let tail = chain.last();
        lemma_first_match_from(rest, tail, 0);
        let i0 = first_match(rest, tail)->Some_0;
        let longer = chain.push(rest[i0].end);
        let fewer = rest.remove(i0);
        lemma_remove_keeps_distinct(rest, i0);
        lemma_extend_sound(longer, fewer);
        let c = extend_chain(chain, rest)->Ok_0;
        assert(c == extend_chain(longer, fewer)->Ok_0);
        let base = chain.len() - 1;
        assert(c[base] == longer[base]);
        assert(c[base + 1] == longer[base + 1]);
        assert(chain_edge(c, base) == rest[i0]);
        assert forall|k: int| 0 <= k < chain.len() implies #[trigger] c[k] == chain[k] by {
            assert(c[k] == longer[k]);
        }
        assert forall|k: int| base <= k < c.len() - 1 implies rest.contains(
            #[trigger] chain_edge(c, k),
        ) by {
            if k > base {
                assert(fewer.contains(chain_edge(c, k)));
                let m = choose|m: int| 0 <= m < fewer.len() && fewer[m] == chain_edge(c, k);
                assert(rest.contains(fewer[m]));
            }
        }
        assert forall|i: int| 0 <= i < rest.len() implies on_chain(
            c,
            #[trigger] rest[i],
            base,
            c.len() - 1,
        ) by {
            if i == i0 {
                assert(chain_edge(c, base) == rest[i]);
            } else {
                let m = if i < i0 {
                    i
                } else {
                    i - 1
                };
                assert(fewer[m] == rest[i]);
                assert(on_chain(c, fewer[m], base + 1, c.len() - 1));
                let k = choose|k: int|
                    base + 1 <= k < c.len() - 1 && #[trigger] chain_edge(c, k) == fewer[m];
                assert(chain_edge(c, k) == rest[i]);
            }
        }
        assert forall|k1: int, k2: int| base <= k1 < k2 < c.len() - 1 implies #[trigger] c[k1]
            != #[trigger] c[k2] by {
            if k1 == base {
                assert(fewer.contains(chain_edge(c, k2)));
                let m = choose|m: int| 0 <= m < fewer.len() && fewer[m] == chain_edge(c, k2);
                assert(fewer[m].start != rest[i0].start);
            }
        }
    }
}

/// What the stitcher returns is a closed loop made of exactly the
/// segments of the bag, entered at the start of the first of them.
pub proof fn lemma_stitch_sound(bag: Seq<Segment>)
    requires
        distinct_starts(bag),
        stitch_spec(bag) is Ok,
    ensures
        is_cycle_of(stitch_spec(bag)->Ok_0, bag),
        (stitch_spec(bag)->Ok_0)[0] == bag[0].start,
{
    let n = bag.len() as int;
    let chain = seq![bag[0].start, bag[0].end];
    let rest = bag.subrange(1, n);
    assert forall|a: int, b: int| 0 <= a < rest.len() && 0 <= b < rest.len() && a != b implies (
    #[trigger] rest[a]).start != (#[trigger] rest[b]).start by {
        assert(rest[a] == bag[a + 1]);
        assert(rest[b] == bag[b + 1]);
    }
    lemma_extend_sound(chain, rest);
    let c = extend_chain(chain, rest)->Ok_0;
    let l = stitch_spec(bag)->Ok_0;
    assert(l == c.drop_last());
    assert(c[0] == chain[0]);
    assert(c[1] == chain[1]);
    assert forall|k: int| 0 <= k < n implies loop_edge(l, k) == chain_edge(c, k) by {
        assert(l[k] == c[k]);
        if k + 1 < n {
            assert(l[k + 1] == c[k + 1]);
        }
    }
    assert forall|k: int| 0 <= k < l.len() implies bag.contains(#[trigger] loop_edge(l, k)) by {
        if k == 0 {
            assert(chain_edge(c, 0) == bag[0]);
        } else {
            assert(rest.contains(chain_edge(c, k)));
            let m = choose|m: int| 0 <= m < rest.len() && rest[m] == chain_edge(c, k);
            assert(bag[m + 1] == rest[m]);
        }
    }
    assert forall|i: int| 0 <= i < bag.len() implies on_loop(l, #[trigger] bag[i], 0, n) by {
        if i == 0 {
            assert(loop_edge(l, 0) == bag[0]);
        } else {
            assert(rest[i - 1] == bag[i]);
            assert(on_chain(c, rest[i - 1], 1, n));
            let k = choose|k: int| 1 <= k < n && #[trigger] chain_edge(c, k) == rest[i - 1];
            assert(loop_edge(l, k) == bag[i]);
        }
    }
    assert forall|k1: int, k2: int|
        0 <= k1 < l.len() && 0 <= k2 < l.len() && k1 != k2 implies l[k1] != l[k2] by {
        let lo = if k1 < k2 {
            k1
        } else {
            k2
        };
        let hi = if k1 < k2 {
            k2
        } else {
            k1
        };
        assert(l[lo] == c[lo] && l[hi] == c[hi]);
        if lo == 0 {
            assert(rest.contains(chain_edge(c, hi)));
            let m = choose|m: int| 0 <= m < rest.len() && rest[m] == chain_edge(c, hi);
            assert(bag[m + 1] == rest[m]);
        } else {
            assert(c[lo] != c[hi]);
        }
    }
}

/// The chain that follows the loop `l` from its start finds each next edge
/// in the bag, as long as the bag holds exactly the edges still to come.
proof fn lemma_extend_complete(l: Seq<Point>, j: int, chain: Seq<Point>, rest: Seq<Segment>)
    requires
        l.len() > 0,
        l.no_duplicates(),
        1 <= j <= l.len(),
        chain == l.push(l[0]).subrange(0, j + 1),
        rest.len() == l.len() - j,
        distinct_starts(rest),
        forall|k: int| j <= k < l.len() ==> rest.contains(#[trigger] loop_edge(l, k)),
        forall|i: int| 0 <= i < rest.len() ==> on_loop(l, #[trigger] rest[i], j, l.len() as int),
    ensures
        extend_chain(chain, rest) == Ok::<Seq<Point>, StitchFailure>(l.push(l[0])),
    decreases l.len() - j,
{
    let n = l.len() as int;
    let full = l.push(l[0]);
    if j == n {
        assert(chain =~= full);
    } else {
        let tail = chain.last();
        assert(tail == full[j]);
        assert(tail == l[j]);
        let e = loop_edge(l, j);
        assert(rest.contains(e));
        let m = choose|m: int| 0 <= m < rest.len() && rest[m] == e;
        lemma_first_match_from(rest, tail, 0);
        let i0 = first_match(rest, tail)->Some_0;
        assert(i0 == m);
        assert(rest[i0].end == full[j + 1]);
        let longer = chain.push(rest[i0].end);
        let fewer = rest.remove(i0);
        assert(longer =~= full.subrange(0, j + 2));
        lemma_remove_keeps_distinct(rest, i0);
        assert forall|k: int| j + 1 <= k < n implies fewer.contains(#[trigger] loop_edge(l, k)) by {
            assert(rest.contains(loop_edge(l, k)));
            let mk = choose|mk: int| 0 <= mk < rest.len() && rest[mk] == loop_edge(l, k);
            assert(l[k] != l[j]);
            if mk < i0 {
                assert(fewer[mk] == rest[mk]);
            } else {
                assert(fewer[mk - 1] == rest[mk]);
            }
        }
        assert forall|i: int| 0 <= i < fewer.len() implies on_loop(
            l,
            #[trigger] fewer[i],
            j + 1,
            n,
        ) by {
            let i1 = if i < i0 {
                i
            } else {
                i + 1
            };
            assert(fewer[i] == rest[i1]);
            assert(on_loop(l, rest[i1], j, n));
            let k = choose|k: int| j <= k < n && #[trigger] loop_edge(l, k) == rest[i1];
            assert(k != j);
            assert(loop_edge(l, k) == fewer[i]);
        }
        lemma_extend_complete(l, j + 1, longer, fewer);
    }
}

/// A bag without a branch point stitches to the loop that it is made of,
/// entered at the start of its first segment.
pub proof fn lemma_stitch_complete(l: Seq<Point>, bag: Seq<Segment>)
    requires
        is_cycle_of(l, bag),
        distinct_starts(bag),
        bag[0].start == l[0],
    ensures
        stitch_spec(bag) == Ok::<Seq<Point>, StitchFailure>(l),
{
    let n = l.len() as int;
    let full = l.push(l[0]);
    let chain = seq![bag[0].start, bag[0].end];
    let rest = bag.subrange(1, n);
    assert(on_loop(l, bag[0], 0, n));
    let k0 = choose|k: int| 0 <= k < n && #[trigger] loop_edge(l, k) == bag[0];
    assert(l[k0] == l[0]);
    assert(k0 == 0);
    assert(chain =~= full.subrange(0, 2));
    assert forall|a: int, b: int| 0 <= a < rest.len() && 0 <= b < rest.len() && a != b implies (
    #[trigger] rest[a]).start != (#[trigger] rest[b]).start by {
        assert(rest[a] == bag[a + 1]);
        assert(rest[b] == bag[b + 1]);
    }
    assert forall|k: int| 1 <= k < n implies rest.contains(#[trigger] loop_edge(l, k)) by {
        assert(bag.contains(loop_edge(l, k)));
        let m = choose|m: int| 0 <= m < bag.len() && bag[m] == loop_edge(l, k);
        assert(l[k] != l[0]);
        assert(rest[m - 1] == bag[m]);
    }
    assert forall|i: int| 0 <= i < rest.len() implies on_loop(l, #[trigger] rest[i], 1, n) by {
        assert(rest[i] == bag[i + 1]);
        assert(on_loop(l, bag[i + 1], 0, n));
        let k = choose|k: int| 0 <= k < n && #[trigger] loop_edge(l, k) == bag[i + 1];
        assert(k != 0);
        assert(loop_edge(l, k) == rest[i]);
    }
    lemma_extend_complete(l, 1, chain, rest);
    assert(full.first() == full.last());
    assert(full.drop_last() =~= l);
}

/// The position in `l` of the vertex that stands at position `a` once the
/// loop is entered at `k`.
pub open spec fn turned(n: int, k: int, a: int) -> int {
    if a + k < n {
        a + k
    } else {
        a + k - n
    }
}

proof fn lemma_rotate_vertex(l: Seq<Point>, k: int, a: int)
    requires
        0 <= k < l.len(),
        0 <= a < l.len(),
    ensures
        rotate(l, k).len() == l.len(),
        0 <= turned(l.len() as int, k, a) < l.len(),
        rotate(l, k)[a] == l[turned(l.len() as int, k, a)],
{
}

proof fn lemma_rotate_edge(l: Seq<Point>, k: int, a: int)
    requires
        0 <= k < l.len(),
        0 <= a < l.len(),
    ensures
        loop_edge(rotate(l, k), a) == loop_edge(l, turned(l.len() as int, k, a)),
{
    let n = l.len() as int;
    lemma_rotate_vertex(l, k, a);
    lemma_rotate_vertex(l, k, succ(n, a));
    assert(turned(n, k, succ(n, a)) == succ(n, turned(n, k, a)));
}

/// A loop entered at another vertex is made of the same segments.
pub proof fn lemma_rotate_cycle(l: Seq<Point>, bag: Seq<Segment>, k: int)
    requires
        is_cycle_of(l, bag),
        0 <= k < l.len(),
    ensures
        is_cycle_of(rotate(l, k), bag),
        rotate(l, k)[0] == l[k],
{
    let n = l.len() as int;
    let r = rotate(l, k);
    lemma_rotate_vertex(l, k, 0);
    assert forall|a: int, b: int| 0 <= a < r.len() && 0 <= b < r.len() && a != b implies r[a]
        != r[b] by {
        lemma_rotate_vertex(l, k, a);
        lemma_rotate_vertex(l, k, b);
        assert(turned(n, k, a) != turned(n, k, b));
    }
    assert forall|a: int| 0 <= a < r.len() implies bag.contains(#[trigger] loop_edge(r, a)) by {
        lemma_rotate_vertex(l, k, a);
        lemma_rotate_edge(l, k, a);
        assert(bag.contains(loop_edge(l, turned(n, k, a))));
    }
    assert forall|i: int| 0 <= i < bag.len() implies on_loop(r, #[trigger] bag[i], 0, n) by {
        assert(on_loop(l, bag[i], 0, n));
        let m = choose|m: int| 0 <= m < n && #[trigger] loop_edge(l, m) == bag[i];
        let a = if m >= k {
            m - k
        } else {
            m - k + n
        };
        lemma_rotate_edge(l, k, a);
        assert(turned(n, k, a) == m);
        assert(loop_edge(r, a) == bag[i]);
    }
}

/// A bag in another order is made into the same loops.
pub proof fn lemma_cycle_of_permutation(l: Seq<Point>, a: Seq<Segment>, b: Seq<Segment>)
    requires
        is_cycle_of(l, a),
        a.to_multiset() == b.to_multiset(),
    ensures
        is_cycle_of(l, b),
{
    a.to_multiset_ensures();
    b.to_multiset_ensures();
    assert forall|k: int| 0 <= k < l.len() implies b.contains(#[trigger] loop_edge(l, k)) by {
        assert(a.contains(loop_edge(l, k)));
        assert(a.to_multiset().count(loop_edge(l, k)) > 0);
    }
    assert forall|i: int| 0 <= i < b.len() implies on_loop(
        l,
        #[trigger] b[i],
        0,
        l.len() as int,
    ) by {
        assert(b.contains(b[i]));
        assert(b.to_multiset().count(b[i]) > 0);
        assert(a.contains(b[i]));
        let m = choose|m: int| 0 <= m < a.len() && a[m] == b[i];
        assert(on_loop(l, a[m], 0, l.len() as int));
    }
}

/// A bag in another order has a branch point only if the bag has one.
pub proof fn lemma_distinct_starts_of_permutation(a: Seq<Segment>, b: Seq<Segment>)
    requires
        distinct_starts(a),
        a.to_multiset() == b.to_multiset(),
    ensures
        distinct_starts(b),
{
    a.to_multiset_ensures();
    b.to_multiset_ensures();
    assert(a.no_duplicates());
    a.lemma_multiset_has_no_duplicates();
    b.lemma_multiset_has_no_duplicates_conv();
    assert forall|i: int, j: int| 0 <= i < b.len() && 0 <= j < b.len() && i != j implies (
    #[trigger] b[i]).start != (#[trigger] b[j]).start by {
        assert(b[i] != b[j]);
        assert(b.contains(b[i]) && b.contains(b[j]));
        assert(b.to_multiset().count(b[i]) > 0);
        assert(b.to_multiset().count(b[j]) > 0);
        assert(a.contains(b[i]) && a.contains(b[j]));
        let i0 = choose|m: int| 0 <= m < a.len() && a[m] == b[i];
        let j0 = choose|m: int| 0 <= m < a.len() && a[m] == b[j];
        assert(i0 != j0);
    }
}

/// If one order of a bag stitches to a loop, so does every other, and to
/// the same loop entered at another vertex.
proof fn lemma_stitch_reordered(a: Seq<Segment>, b: Seq<Segment>)
    requires
        distinct_starts(a),
        a.to_multiset() == b.to_multiset(),
        stitch_spec(a) is Ok,
    ensures
        stitch_spec(b) is Ok,
        is_rotation(stitch_spec(a)->Ok_0, stitch_spec(b)->Ok_0),
{
    let l = stitch_spec(a)->Ok_0;
    let n = l.len() as int;
    lemma_stitch_sound(a);
    lemma_cycle_of_permutation(l, a, b);
    lemma_distinct_starts_of_permutation(a, b);
    assert(on_loop(l, b[0], 0, n));
    let k = choose|k: int| 0 <= k < n && #[trigger] loop_edge(l, k) == b[0];
    lemma_rotate_cycle(l, b, k);
    lemma_stitch_complete(rotate(l, k), b);
}

/// Stitching does not depend on the order of the bag. Of a bag without a
/// branch point, either every order stitches to a closed loop or none
/// does, and two orders give the same loop, entered at two of its vertices.
pub proof fn lemma_stitch_order_independent(a: Seq<Segment>, b: Seq<Segment>)
    requires
        distinct_starts(a),
        a.to_multiset() == b.to_multiset(),
    ensures
        stitch_spec(a) is Ok <==> stitch_spec(b) is Ok,
        stitch_spec(a) is Ok ==> is_rotation(stitch_spec(a)->Ok_0, stitch_spec(b)->Ok_0),
{
    lemma_distinct_starts_of_permutation(a, b);
    if stitch_spec(a) is Ok {
        lemma_stitch_reordered(a, b);
    }
    if stitch_spec(b) is Ok {
        lemma_stitch_reordered(b, a);
    }
}

} // verus!
