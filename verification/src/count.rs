//! Bottom-up transitive report counting.
//!
//! A leaf-first worklist: every node starts with an outstanding-children
//! counter equal to its number of direct reports; nodes with counter zero are
//! ready. Finalizing a node adds one plus its own count to its manager and
//! lowers the manager's counter, enqueueing the manager once every one of its
//! reports has contributed. No node's count is read before all its
//! descendants are finalized.

use crate::model::{
    all_safe, children_ok, contrib_sum, count_unfin, desc_count, lemma_contrib_full,
    lemma_contrib_le, lemma_count_unfin_all, lemma_count_unfin_zero, lemma_desc_partition,
    lemma_finalize_one, lemma_push_contains, lemma_push_no_dup, lemma_safe_no_self_ancestor,
    lemma_unfinished_has_ready, rep_view, step_up, walk_up, wf_parents,
};
use vstd::prelude::*;
use vstd::set_lib::{lemma_int_range, lemma_len_subset, set_int_range};

verus! {

/// Assign to every node the size of its subtree, itself excluded.
///
/// The result at index `i` is exactly the number of employees for which `i`
/// is a strict ancestor under the given (forest-certified) relation.
pub fn count_reports(parent: &Vec<Option<usize>>, reports: &Vec<Vec<usize>>) -> (rr: Vec<u64>)
    requires
        wf_parents(parent@),
        all_safe(parent@),
        children_ok(parent@, rep_view(reports@)),
    ensures
        rr@.len() == parent@.len(),
        forall|i: int| 0 <= i < parent@.len() ==> rr@[i] == desc_count(parent@, i),
{
    let ghost p = parent@;
    let ghost rep = rep_view(reports@);
    let n = parent.len();
    let mut rr: Vec<u64> = Vec::new();
    let mut remaining: Vec<usize> = Vec::new();
    let mut queue: Vec<usize> = Vec::new();
    let ghost fin: Set<int> = Set::empty();
    let mut i: usize = 0;
    while i < n
        invariant
            n == p.len(),
            rep == rep_view(reports@),
            reports@.len() == n,
            rr@.len() == i,
            remaining@.len() == i,
            i <= n,
            forall|j: int| 0 <= j < i ==> #[trigger] rr@[j] == 0,
            forall|j: int| 0 <= j < i ==> #[trigger] remaining@[j] == rep[j].len(),
            forall|q1: int, q2: int| 0 <= q1 < q2 < queue@.len() ==> queue@[q1] < queue@[q2],
            forall|q: int|
                #![trigger queue@[q]]
                0 <= q < queue@.len() ==> (queue@[q] as int) < i && rep[queue@[q] as int].len()
                    == 0,
            forall|j: int| 0 <= j < i && rep[j].len() == 0 ==> queue@.contains(j as usize),
        decreases n - i,
    {
        let ghost queue0 = queue@;
        rr.push(0);
        remaining.push(reports[i].len());
        if reports[i].len() == 0 {
            queue.push(i);
        }
        assert forall|j: int| 0 <= j < i + 1 && rep[j].len() == 0 implies queue@.contains(
            j as usize,
        ) by {
            if j < i {
                let q = choose|q: int| 0 <= q < queue0.len() && queue0[q] == j as usize;
                assert(queue@[q] == j as usize);
            } else {
                assert(queue@[queue@.len() - 1] == j as usize);
            }
        }
        i += 1;
    }
    proof {
        lemma_int_range(0, n as int);
        assert forall|j: int| 0 <= j < n implies #[trigger] remaining@[j] == count_unfin(
            rep[j],
            fin,
        ) by {
            lemma_count_unfin_all(p, rep[j], fin);
        }
        assert forall|j: int| 0 <= j < n implies #[trigger] rr@[j] == contrib_sum(
            p,
            rep[j],
            fin,
        ) by {
            lemma_count_unfin_all(p, rep[j], fin);
        }
        assert forall|q1: int, q2: int|
            0 <= q1 < queue@.len() && 0 <= q2 < queue@.len() && q1 != q2 implies queue@[q1]
            != queue@[q2] by {
            if q1 < q2 {
                assert(queue@[q1] < queue@[q2]);
            } else {
                assert(queue@[q2] < queue@[q1]);
            }
        }
    }
    while queue.len() > 0
        invariant
            n == p.len(),
            p == parent@,
            rep == rep_view(reports@),
            reports@.len() == n,
            wf_parents(p),
            all_safe(p),
            children_ok(p, rep),
            rr@.len() == n,
            remaining@.len() == n,
            fin.finite(),
            fin.len() <= n,
            forall|j: int| #![trigger fin.contains(j)] fin.contains(j) ==> 0 <= j < n,
            queue@.no_duplicates(),
            forall|q: int|
                #![trigger queue@[q]]
                0 <= q < queue@.len() ==> (queue@[q] as int) < n && !fin.contains(
                    queue@[q] as int,
                ) && remaining@[queue@[q] as int] == 0,
            forall|j: int| 0 <= j < n ==> #[trigger] remaining@[j] == count_unfin(rep[j], fin),
            forall|j: int|
                #![trigger fin.contains(j)]
                fin.contains(j) ==> rr@[j] == desc_count(p, j) && count_unfin(rep[j], fin) == 0,
            forall|j: int|
                #![trigger rr@[j]]
                0 <= j < n && !fin.contains(j) ==> rr@[j] == contrib_sum(p, rep[j], fin),
            forall|j: int|
                0 <= j < n && !(#[trigger] fin.contains(j)) && count_unfin(rep[j], fin) == 0
                    ==> queue@.contains(j as usize),
        decreases n - fin.len(),
    {
        let ghost queue0 = queue@;
        let i = queue.pop().unwrap();
        proof {
            assert(queue0[queue0.len() - 1] == i);
            assert((i as int) < n && !fin.contains(i as int) && remaining@[i as int] == 0);
        }
        let ghost fin1 = fin.insert(i as int);
        proof {
            // The popped node is complete: all its reports are finalized, so
            // its accumulated value is its exact subtree size.
            lemma_count_unfin_zero(rep[i as int], fin);
            lemma_contrib_full(p, rep[i as int], fin);
            assert forall|q: int| 0 <= q < rep[i as int].len() implies step_up(
                p,
                (#[trigger] rep[i as int][q]) as int,
            ) == Some(i as int) by {
                assert(rep[i as int].contains(rep[i as int][q]));
            }
            lemma_desc_partition(p, i as int, rep[i as int]);
            assert(rr@[i as int] == desc_count(p, i as int));
            vstd::set::axiom_set_insert_len(fin, i as int);
            lemma_int_range(0, n as int);
            assert(fin1.subset_of(set_int_range(0, n as int)));
            lemma_len_subset(fin1, set_int_range(0, n as int));
            // Finalizing `i` touches only its manager's counter/contribution.
            assert forall|j: int| 0 <= j < n implies count_unfin(rep[j], fin1) == count_unfin(
                rep[j],
                fin,
            ) - (if rep[j].contains(i) {
                1int
            } else {
                0int
            }) && contrib_sum(p, rep[j], fin1) == contrib_sum(p, rep[j], fin) + (if rep[j].contains(
                i,
            ) {
                1 + desc_count(p, i as int) as int
            } else {
                0int
            }) by {
                lemma_finalize_one(p, rep[j], fin, i);
            }
        }
        match parent[i] {
            Some(m) => {
                proof {
                    assert(step_up(p, i as int) == Some(m as int));
                    assert(rep[m as int].contains(i));
                    // The manager cannot be finalized or queued yet: it still
                    // had `i` outstanding.
                    lemma_count_unfin_zero(rep[m as int], fin);
                    assert(count_unfin(rep[m as int], fin) >= 1) by {
                        if count_unfin(rep[m as int], fin) == 0 {
                            let q = choose|q: int|
                                0 <= q < rep[m as int].len() && rep[m as int][q] == i;
                            assert(fin.contains(rep[m as int][q] as int));
                        }
                    }
                    assert(!fin.contains(m as int));
                    assert(m != i) by {
                        if m == i {
                            lemma_safe_no_self_ancestor(p, i as int);
                            assert(walk_up(p, i as int, 0) == Some(i as int));
                            assert(walk_up(p, i as int, 1) == Some(i as int));
                        }
                    }
                    // No overflow: the accumulating value stays within the
                    // manager's own subtree size, which is below n.
                    lemma_contrib_le(p, rep[m as int], fin1);
                    assert forall|q: int| 0 <= q < rep[m as int].len() implies step_up(
                        p,
                        (#[trigger] rep[m as int][q]) as int,
                    ) == Some(m as int) by {
                        assert(rep[m as int].contains(rep[m as int][q]));
                    }
                    lemma_desc_partition(p, m as int, rep[m as int]);
                    lemma_safe_no_self_ancestor(p, i as int);
                    lemma_safe_no_self_ancestor(p, m as int);
                    crate::model::lemma_desc_count_bound(p, i as int);
                    crate::model::lemma_desc_count_bound(p, m as int);
                    assert(contrib_sum(p, rep[m as int], fin1) <= desc_count(p, m as int));
                    assert(desc_count(p, m as int) < n);
                    assert(n <= u64::MAX);
                }
                let add_amt: u64 = rr[i] + 1;
                rr[m] = rr[m] + add_amt;
                remaining[m] = remaining[m] - 1;
                let ghost queue1 = queue@;
                if remaining[m] == 0 {
                    proof {
                        assert forall|q: int|
                            0 <= q < queue@.len() implies queue@[q] != m by {
                            assert(remaining@[queue@[q] as int] == 0);
                        }
                        if queue@.contains(m) {
                            let q = choose|q: int| 0 <= q < queue@.len() && queue@[q] == m;
                        }
                        lemma_push_no_dup(queue@, m);
                    }
                    queue.push(m);
                }
                proof {
                    fin = fin1;
                    assert forall|j: int|
                        0 <= j < n && !(#[trigger] fin.contains(j)) && count_unfin(rep[j], fin)
                            == 0 implies queue@.contains(j as usize) by {
                        if j == m as int {
                            assert(queue@[queue@.len() - 1] == m);
                        } else {
                            assert(count_unfin(rep[j], fin) == count_unfin(rep[j], fin1));
                            assert(!rep[j].contains(i));
                            assert(queue0.contains(j as usize));
                            let q = choose|q: int|
                                0 <= q < queue0.len() && queue0[q] == j as usize;
                            assert(q < queue0.len() - 1);
                            assert(queue1[q] == j as usize);
                            if queue@.len() > queue1.len() {
                                lemma_push_contains(queue1, m, j as usize);
                            }
                        }
                    }
                }
            }
            None => {
                proof {
                    assert(step_up(p, i as int) is None);
                    fin = fin1;
                    assert forall|j: int|
                        0 <= j < n && !(#[trigger] fin.contains(j)) && count_unfin(rep[j], fin)
                            == 0 implies queue@.contains(j as usize) by {
                        assert(!rep[j].contains(i));
                        assert(count_unfin(rep[j], fin) == count_unfin(rep[j], fin1));
                        assert(queue0.contains(j as usize));
                        let q = choose|q: int| 0 <= q < queue0.len() && queue0[q] == j as usize;
                        assert(q < queue0.len() - 1);
                        assert(queue@[q] == j as usize);
                    }
                }
            }
        }
    }
    proof {
        assert forall|j: int| 0 <= j < n implies fin.contains(j) by {
            if !fin.contains(j) {
                lemma_unfinished_has_ready(p, rep, fin, j);
                let w = choose|w: int|
                    0 <= w < p.len() && !(#[trigger] fin.contains(w)) && count_unfin(rep[w], fin)
                        == 0;
                assert(queue@.contains(w as usize));
            }
        }
        assert forall|j: int| 0 <= j < n implies #[trigger] rr@[j] == desc_count(p, j) by {
            assert(fin.contains(j));
        }
    }
    rr
}

} // verus!
