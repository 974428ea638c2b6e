//! Ranking: order the enriched records by transitive report count, largest
//! first.
//!
//! The order among records with equal counts is unspecified: callers must not
//! rely on any particular tie-break.

use crate::employee::Employee;
use vstd::prelude::*;

verus! {

/// Report counts never increase along the sequence.
pub open spec fn sorted_desc(s: Seq<Employee>) -> bool {
    forall|x: int, y: int|
        0 <= x < y < s.len() ==> s[x].recursive_reports >= s[y].recursive_reports
}

/// Sort the records by `recursive_reports`, descending. The result is a
/// permutation of the input; ties come out in no specified order.
pub fn rank_by_reports(input: Vec<Employee>) -> (out: Vec<Employee>)
    ensures
        sorted_desc(out@),
        out@.to_multiset() == input@.to_multiset(),
        out@.len() == input@.len(),
{
    broadcast use vstd::seq_lib::group_to_multiset_ensures;
    broadcast use vstd::multiset::group_multiset_axioms;

    let ghost orig = input@;
    let mut rest = input;
    let mut out: Vec<Employee> = Vec::new();
    proof {
        assert(out@.to_multiset().add(rest@.to_multiset()) =~= orig.to_multiset());
    }
    while rest.len() > 0
        invariant
            out@.to_multiset().add(rest@.to_multiset()) == orig.to_multiset(),
            sorted_desc(out@),
            forall|x: int, y: int|
                0 <= x < out@.len() && 0 <= y < rest@.len() ==> out@[x].recursive_reports
                    >= rest@[y].recursive_reports,
            out@.len() + rest@.len() == orig.len(),
        decreases rest@.len(),
    {
        let mut best: usize = 0;
        let mut q: usize = 1;
        while q < rest.len()
            invariant
                rest@.len() > 0,
                (best as int) < rest@.len(),
                q <= rest@.len(),
                forall|y: int|
                    0 <= y < q ==> rest@[best as int].recursive_reports
                        >= rest@[y].recursive_reports,
            decreases rest@.len() - q,
        {
            if rest[q].recursive_reports > rest[best].recursive_reports {
                best = q;
            }
            q += 1;
        }
        let ghost rest0 = rest@;
        let ghost out0 = out@;
        let e = rest.remove(best);
        out.push(e);
        proof {
            out0.to_multiset_ensures();
            rest0.to_multiset_ensures();
            assert(rest0.contains(e)) by {
                assert(rest0[best as int] == e);
            }
            assert(rest0.to_multiset().count(e) > 0);
            assert(out@ == out0.push(e));
            assert(out@.to_multiset() =~= out0.to_multiset().insert(e));
            assert(rest@.to_multiset() =~= rest0.to_multiset().remove(e));
            assert(out@.to_multiset().add(rest@.to_multiset()) =~= orig.to_multiset());
            assert forall|x: int, y: int|
                0 <= x < out@.len() && 0 <= y < rest@.len() implies out@[x].recursive_reports
                >= rest@[y].recursive_reports by {
                if y < best {
                    assert(rest@[y] == rest0[y]);
                } else {
                    assert(rest@[y] == rest0[y + 1]);
                }
                if x < out0.len() {
                    assert(out@[x] == out0[x]);
                }
            }
        }
    }
    out
}

} // verus!
