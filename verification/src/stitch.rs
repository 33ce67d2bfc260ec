//! The loop stitcher: joins an unordered bag of directed segments into one
//! closed loop of vertices by matching each chain end with a segment start.

use vstd::prelude::*;
use crate::classifier::Segment;
use crate::cycles::{lemma_stitch_uses_bag, loop_edges};
use crate::point::Point;

verus! {

/// Why a bag of segments could not be stitched into one closed loop.
#[derive(Clone, Copy, Debug, PartialEq, Eq, Structural)]
pub enum StitchFailure {
    /// The bag holds no segment at all.
    Empty,
    /// Segments are left, but none of them starts where the chain ends.
    NoMatch { tail: Point },
    /// Every segment was used, but the chain does not end where it began.
    NotClosed { first: Point, last: Point },
}

/// The first position at or after `from` whose segment starts at `tail`.
pub open spec fn first_match_from(rest: Seq<Segment>, tail: Point, from: int) -> Option<int>
    decreases rest.len() - from,
{
    if from < 0 || from >= rest.len() {
        None
    } else if rest[from].start == tail {
        Some(from)
    } else {
        first_match_from(rest, tail, from + 1)
    }
}

/// The first position in bag order whose segment starts at `tail`.
pub open spec fn first_match(rest: Seq<Segment>, tail: Point) -> Option<int> {
    first_match_from(rest, tail, 0)
}

/// `first_match_from` finds a segment that starts at `tail`, the earliest
/// one from `from` on, and finds none only when there is none.
pub proof fn lemma_first_match_from(rest: Seq<Segment>, tail: Point, from: int)
    requires
        0 <= from,
    ensures
        match first_match_from(rest, tail, from) {
            Some(i) => from <= i < rest.len() && rest[i].start == tail && forall|m: int|
                from <= m < i ==> (#[trigger] rest[m]).start != tail,
            None => forall|m: int| from <= m < rest.len() ==> (#[trigger] rest[m]).start != tail,
        },
    decreases rest.len() - from,
{
    if from < rest.len() && rest[from].start != tail {
        lemma_first_match_from(rest, tail, from + 1);
    }
}

/// The chain grown until no segment is left: each step appends the end of
/// the first remaining segment that starts at the chain's last point, and
/// takes that segment out of the bag.
pub open spec fn extend_chain(chain: Seq<Point>, rest: Seq<Segment>) -> Result<
    Seq<Point>,
    StitchFailure,
>
    decreases rest.len(),
{
    if rest.len() == 0 {
        Ok(chain)
    } else {
        match first_match(rest, chain.last()) {
            None => Err(StitchFailure::NoMatch { tail: chain.last() }),
            Some(i) => {
                proof {
                    lemma_first_match_from(rest, chain.last(), 0);
                }
                extend_chain(chain.push(rest[i].end), rest.remove(i))
            },
        }
    }
}

/// The closed loop that the bag stitches to. The chain starts with the
/// segment at position 0; once all segments are used it must have come back
/// to its first point, and the repeated point is dropped.
pub open spec fn stitch_spec(bag: Seq<Segment>) -> Result<Seq<Point>, StitchFailure> {
    if bag.len() == 0 {
        Err(StitchFailure::Empty)
    } else {
        match extend_chain(seq![bag[0].start, bag[0].end], bag.subrange(1, bag.len() as int)) {
            Err(e) => Err(e),
            Ok(chain) => if chain.first() == chain.last() {
                Ok(chain.drop_last())
            } else {
                Err(StitchFailure::NotClosed { first: chain.first(), last: chain.last() })
            },
        }
    }
}

/// The position of the first segment that starts at `tail`.
pub fn find_start(rest: &Vec<Segment>, tail: Point) -> (found: Option<usize>)
    ensures
        match found {
            Some(i) => first_match(rest@, tail) == Some(i as int),
            None => first_match(rest@, tail) is None,
        },
{
    let mut i: usize = 0;
    while i < rest.len()
        invariant
            i <= rest@.len(),
            first_match(rest@, tail) == first_match_from(rest@, tail, i as int),
        decreases rest@.len() - i,
    {
        if rest[i].start == tail {
            return Some(i);
        }
        i += 1;
    }
    None
}

/// Stitches the bag into one closed loop, or says why there is none.
pub fn stitch(bag: &Vec<Segment>) -> (stitched: Result<Vec<Point>, StitchFailure>)
    ensures
        match stitched {
            Ok(l) => stitch_spec(bag@) == Ok::<Seq<Point>, StitchFailure>(l@),
            Err(e) => stitch_spec(bag@) == Err::<Seq<Point>, StitchFailure>(e),
        },
        stitched matches Ok(l) ==> l@.len() == bag@.len() && loop_edges(l@).to_multiset()
            == bag@.to_multiset(),
{
    proof {
        if stitch_spec(bag@) is Ok {
            lemma_stitch_uses_bag(bag@);
        }
    }
    if bag.len() == 0 {
        return Err(StitchFailure::Empty);
    }
    let mut chain: Vec<Point> = Vec::new();
    chain.push(bag[0].start);
    chain.push(bag[0].end);
    let mut rest: Vec<Segment> = Vec::new();
    let mut k: usize = 1;
    while k < bag.len()
        invariant
            1 <= k <= bag@.len(),
            rest@ == bag@.subrange(1, k as int),
        decreases bag@.len() - k,
    {
        rest.push(bag[k]);
        assert(rest@ =~= bag@.subrange(1, k + 1));
        k += 1;
    }
    let ghost first_chain = chain@;
    let ghost first_rest = rest@;
    assert(first_chain =~= seq![bag@[0].start, bag@[0].end]);
    while rest.len() > 0
        invariant
            chain@.len() >= 2,
            bag@.len() > 0,
            first_chain == seq![bag@[0].start, bag@[0].end],
            first_rest == bag@.subrange(1, bag@.len() as int),
            extend_chain(chain@, rest@) == extend_chain(first_chain, first_rest),
        decreases rest@.len(),
    {
        let tail = chain[chain.len() - 1];
        match find_start(&rest, tail) {
            None => {
                return Err(StitchFailure::NoMatch { tail });
            },
            Some(i) => {
                proof {
                    lemma_first_match_from(rest@, tail, 0);
                }
                let s = rest.remove(i);
                chain.push(s.end);
            },
        }
    }
    let first = chain[0];
    let last = chain[chain.len() - 1];
    if first != last {
        return Err(StitchFailure::NotClosed { first, last });
    }
    chain.pop();
    Ok(chain)
}

} // verus!
