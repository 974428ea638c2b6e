//! Mathematical model of the manager relation.
//!
//! Employees are modelled by their position in the ingested sequence; the
//! manager relation is a sequence `p` where `p[x]` is the index of `x`'s
//! manager, or `None` when `x` is a root. Walking upward through managers,
//! ancestry, freedom from cycles, and subtree sizes are all defined here.

use vstd::prelude::*;
use vstd::set_lib::{lemma_int_range, lemma_len_subset, lemma_set_disjoint_lens, set_int_range};

verus! {

/// Every manager index stays inside the sequence.
pub open spec fn wf_parents(p: Seq<Option<usize>>) -> bool {
    forall|x: int| 0 <= x < p.len() && p[x] is Some ==> 0 <= p[x]->0 < p.len()
}

/// One upward step from `x`: the index of `x`'s manager, if any.
pub open spec fn step_up(p: Seq<Option<usize>>, x: int) -> Option<int> {
    if 0 <= x < p.len() {
        match p[x] {
            Some(m) => Some(m as int),
            None => None,
        }
    } else {
        None
    }
}

/// The node reached from `d` after exactly `k` upward steps, if the walk does
/// not run off a root first.
pub open spec fn walk_up(p: Seq<Option<usize>>, d: int, k: nat) -> Option<int>
    decreases k,
{
    if k == 0 {
        Some(d)
    } else {
        match step_up(p, d) {
            Some(m) => walk_up(p, m, (k - 1) as nat),
            None => None,
        }
    }
}

/// `a` is a strict ancestor of `d`: some positive number of upward steps from
/// `d` lands on `a`.
pub open spec fn is_ancestor(p: Seq<Option<usize>>, a: int, d: int) -> bool {
    exists|k: nat| 1 <= k && walk_up(p, d, k) == Some(a)
}

/// `a` is `d` itself or a strict ancestor of `d`.
pub open spec fn is_ancestor_or_self(p: Seq<Option<usize>>, a: int, d: int) -> bool {
    exists|k: nat| walk_up(p, d, k) == Some(a)
}

/// No employee is its own strict ancestor.
pub open spec fn acyclic(p: Seq<Option<usize>>) -> bool {
    forall|i: int| 0 <= i < p.len() ==> !is_ancestor(p, i, i)
}

/// The walk upward from `i` reaches a root within `f` steps.
pub open spec fn reaches_root(p: Seq<Option<usize>>, i: int, f: nat) -> bool
    decreases f,
{
    0 <= i < p.len() && match p[i] {
        None => true,
        Some(m) => f > 0 && reaches_root(p, m as int, (f - 1) as nat),
    }
}

/// The walk upward from `i` terminates at a root.
pub open spec fn safe(p: Seq<Option<usize>>, i: int) -> bool {
    exists|f: nat| reaches_root(p, i, f)
}

/// Every walk terminates: the relation is a forest.
pub open spec fn all_safe(p: Seq<Option<usize>>) -> bool {
    forall|i: int| 0 <= i < p.len() ==> safe(p, i)
}

pub open spec fn is_root(p: Seq<Option<usize>>, r: int) -> bool {
    0 <= r < p.len() && p[r] is None
}

/// All strict descendants of `i`: the employees that `i` transitively manages.
pub open spec fn descendants(p: Seq<Option<usize>>, i: int) -> Set<int> {
    Set::new(|j: int| 0 <= j < p.len() && is_ancestor(p, i, j))
}

/// The number of employees for which `i` is a strict ancestor.
pub open spec fn desc_count(p: Seq<Option<usize>>, i: int) -> nat {
    descendants(p, i).len()
}

/// `c` together with all its strict descendants.
pub open spec fn cluster(p: Seq<Option<usize>>, c: int) -> Set<int> {
    Set::new(|j: int| 0 <= j < p.len() && is_ancestor_or_self(p, c, j))
}

/// Splitting a walk: `a + b` steps from `d` is `a` steps, then `b` more from
/// wherever that landed.
pub proof fn lemma_walk_split(p: Seq<Option<usize>>, d: int, a: nat, b: nat)
    ensures
        walk_up(p, d, a + b) == match walk_up(p, d, a) {
            Some(m) => walk_up(p, m, b),
            None => None::<int>,
        },
    decreases a,
{
    if a > 0 {
        match step_up(p, d) {
            Some(m) => {
                lemma_walk_split(p, m, (a - 1) as nat, b);
                assert(a + b - 1 == (a - 1) + b);
            }
            None => {
                assert(walk_up(p, d, a + b) == None::<int>);
            }
        }
    }
}

/// A node whose manager's walk terminates has a terminating walk itself.
pub proof fn lemma_safe_step(p: Seq<Option<usize>>, x: int)
    requires
        0 <= x < p.len(),
        p[x] is Some,
        safe(p, p[x]->0 as int),
    ensures
        safe(p, x),
{
    let f = choose|f: nat| reaches_root(p, p[x]->0 as int, f);
    assert(reaches_root(p, x, f + 1));
}

/// A node that lies on a cycle never reaches a root.
pub proof fn lemma_cycle_not_safe(p: Seq<Option<usize>>, i: int, k: nat, f: nat)
    requires
        1 <= k,
        walk_up(p, i, k) == Some(i),
    ensures
        !reaches_root(p, i, f),
    decreases f,
{
    if reaches_root(p, i, f) {
        match p[i] {
            None => {
                assert(walk_up(p, i, k) == None::<int>);
            }
            Some(mu) => {
                let m = mu as int;
                assert(step_up(p, i) == Some(m));
                assert(walk_up(p, m, (k - 1) as nat) == Some(i));
                assert(walk_up(p, m, 0) == Some(m));
                assert(walk_up(p, i, 1) == Some(m));
                lemma_walk_split(p, m, (k - 1) as nat, 1);
                assert(walk_up(p, m, k) == Some(m));
                lemma_cycle_not_safe(p, m, k, (f - 1) as nat);
            }
        }
    }
}

/// A node whose walk terminates is not its own ancestor.
pub proof fn lemma_safe_no_self_ancestor(p: Seq<Option<usize>>, i: int)
    requires
        safe(p, i),
    ensures
        !is_ancestor(p, i, i),
{
    if is_ancestor(p, i, i) {
        let k = choose|k: nat| 1 <= k && walk_up(p, i, k) == Some(i);
        let f = choose|f: nat| reaches_root(p, i, f);
        lemma_cycle_not_safe(p, i, k, f);
    }
}

/// A forest has no cycles at all.
pub proof fn lemma_all_safe_acyclic(p: Seq<Option<usize>>)
    requires
        all_safe(p),
    ensures
        acyclic(p),
{
    assert forall|i: int| 0 <= i < p.len() implies !is_ancestor(p, i, i) by {
        lemma_safe_no_self_ancestor(p, i);
    }
}

/// Every terminating walk ends at a root that is an ancestor-or-self.
pub proof fn lemma_safe_has_root(p: Seq<Option<usize>>, j: int, f: nat)
    requires
        reaches_root(p, j, f),
    ensures
        exists|r: int| #[trigger] is_root(p, r) && is_ancestor_or_self(p, r, j),
    decreases f,
{
    match p[j] {
        None => {
            assert(walk_up(p, j, 0) == Some(j));
            assert(is_root(p, j) && is_ancestor_or_self(p, j, j));
        }
        Some(mu) => {
            let m = mu as int;
            lemma_safe_has_root(p, m, (f - 1) as nat);
            let r = choose|r: int| #[trigger] is_root(p, r) && is_ancestor_or_self(p, r, m);
            let k = choose|k: nat| walk_up(p, m, k) == Some(r);
            assert(step_up(p, j) == Some(m));
            assert(walk_up(p, j, k + 1) == walk_up(p, m, k));
            assert(is_root(p, r) && is_ancestor_or_self(p, r, j));
        }
    }
}

/// A node has at most one root among its ancestors-or-self.
pub proof fn lemma_root_unique(p: Seq<Option<usize>>, r1: int, r2: int, j: int)
    requires
        is_root(p, r1),
        is_root(p, r2),
        is_ancestor_or_self(p, r1, j),
        is_ancestor_or_self(p, r2, j),
    ensures
        r1 == r2,
{
    let k1 = choose|k: nat| walk_up(p, j, k) == Some(r1);
    let k2 = choose|k: nat| walk_up(p, j, k) == Some(r2);
    if k1 <= k2 {
        lemma_walk_split(p, j, k1, (k2 - k1) as nat);
        if k2 - k1 >= 1 {
            assert(step_up(p, r1) is None);
            assert(walk_up(p, r1, (k2 - k1) as nat) == None::<int>);
        }
    } else {
        lemma_walk_split(p, j, k2, (k1 - k2) as nat);
        assert(step_up(p, r2) is None);
        assert(walk_up(p, r2, (k1 - k2) as nat) == None::<int>);
    }
}

pub proof fn lemma_descendants_finite(p: Seq<Option<usize>>, i: int)
    ensures
        descendants(p, i).finite(),
        descendants(p, i).len() <= p.len(),
{
    lemma_int_range(0, p.len() as int);
    assert(descendants(p, i).subset_of(set_int_range(0, p.len() as int)));
    lemma_len_subset(descendants(p, i), set_int_range(0, p.len() as int));
}

/// A cycle-free node's cluster is its descendant set plus the node itself.
pub proof fn lemma_cluster_split(p: Seq<Option<usize>>, c: int)
    requires
        0 <= c < p.len(),
        !is_ancestor(p, c, c),
    ensures
        cluster(p, c).finite(),
        descendants(p, c).finite(),
        !descendants(p, c).contains(c),
        cluster(p, c) =~= descendants(p, c).insert(c),
        cluster(p, c).len() == desc_count(p, c) + 1,
{
    assert(walk_up(p, c, 0) == Some(c));
    assert forall|j: int| #[trigger] cluster(p, c).contains(j) implies descendants(p, c).insert(
        c,
    ).contains(j) by {
        let k = choose|k: nat| walk_up(p, j, k) == Some(c);
        if k == 0 {
            assert(j == c);
        } else {
            assert(is_ancestor(p, c, j));
        }
    };
    assert(cluster(p, c) =~= descendants(p, c).insert(c));
    lemma_descendants_finite(p, c);
    vstd::set::axiom_set_insert_len(descendants(p, c), c);
}

/// Two distinct nodes on one upward walk that share the same manager would
/// close a cycle through that manager.
proof fn lemma_two_on_walk(p: Seq<Option<usize>>, j: int, k1: nat, k2: nat, c1: int, c2: int, i: int)
    requires
        walk_up(p, j, k1) == Some(c1),
        walk_up(p, j, k2) == Some(c2),
        k1 < k2,
        step_up(p, c1) == Some(i),
        step_up(p, c2) == Some(i),
    ensures
        is_ancestor(p, i, i),
{
    lemma_walk_split(p, j, k1, (k2 - k1) as nat);
    let d = (k2 - k1) as nat;
    assert(walk_up(p, c1, d) == Some(c2));
    assert(walk_up(p, c1, d) == walk_up(p, i, (d - 1) as nat));
    lemma_walk_split(p, i, (d - 1) as nat, 1);
    assert(walk_up(p, i, 0) == Some(i));
    assert(walk_up(p, c2, 1) == Some(i));
    assert(walk_up(p, i, d) == Some(i));
    assert(1 <= d);
}

/// Clusters of two distinct direct reports of the same manager share nothing.
pub proof fn lemma_sibling_clusters_disjoint(p: Seq<Option<usize>>, i: int, c1: int, c2: int)
    requires
        c1 != c2,
        step_up(p, c1) == Some(i),
        step_up(p, c2) == Some(i),
        !is_ancestor(p, i, i),
    ensures
        cluster(p, c1).disjoint(cluster(p, c2)),
{
    assert forall|j: int| #[trigger] cluster(p, c1).contains(j) implies !cluster(p, c2).contains(
        j,
    ) by {
        if cluster(p, c2).contains(j) {
            let k1 = choose|k: nat| walk_up(p, j, k) == Some(c1);
            let k2 = choose|k: nat| walk_up(p, j, k) == Some(c2);
            if k1 < k2 {
                lemma_two_on_walk(p, j, k1, k2, c1, c2, i);
            } else if k2 < k1 {
                lemma_two_on_walk(p, j, k2, k1, c2, c1, i);
            }
        }
    };
}

/// Every strict descendant of `i` lies in the cluster of one of `i`'s direct
/// reports.
pub proof fn lemma_desc_first_step(p: Seq<Option<usize>>, i: int, j: int)
    requires
        descendants(p, i).contains(j),
    ensures
        exists|c: int| #[trigger] step_up(p, c) == Some(i) && cluster(p, c).contains(j),
{
    let k = choose|k: nat| 1 <= k && walk_up(p, j, k) == Some(i);
    lemma_walk_split(p, j, (k - 1) as nat, 1);
    let w = walk_up(p, j, (k - 1) as nat);
    assert(w is Some);
    let c = w->0;
    assert(walk_up(p, c, 1) == Some(i));
    match step_up(p, c) {
        Some(m) => {
            assert(walk_up(p, m, 0) == Some(m));
            assert(m == i);
        }
        None => {
            assert(false);
        }
    }
    assert(step_up(p, c) == Some(i) && cluster(p, c).contains(j));
}

/// The union of the clusters of the listed nodes.
pub open spec fn clusters_of(p: Seq<Option<usize>>, cs: Seq<usize>) -> Set<int>
    decreases cs.len(),
{
    if cs.len() == 0 {
        Set::empty()
    } else {
        cluster(p, cs[0] as int).union(clusters_of(p, cs.drop_first()))
    }
}

/// The sum, over the listed nodes, of one plus the node's descendant count.
pub open spec fn weight_sum(p: Seq<Option<usize>>, cs: Seq<usize>) -> int
    decreases cs.len(),
{
    if cs.len() == 0 {
        0
    } else {
        1 + desc_count(p, cs[0] as int) + weight_sum(p, cs.drop_first())
    }
}

pub proof fn lemma_clusters_member(p: Seq<Option<usize>>, cs: Seq<usize>, j: int)
    ensures
        clusters_of(p, cs).contains(j) <==> exists|q: int|
            0 <= q < cs.len() && #[trigger] cluster(p, cs[q] as int).contains(j),
    decreases cs.len(),
{
    if cs.len() > 0 {
        let rest = cs.drop_first();
        lemma_clusters_member(p, rest, j);
        assert(forall|q: int| 0 <= q < rest.len() ==> rest[q] == cs[q + 1]);
        if clusters_of(p, cs).contains(j) {
            if cluster(p, cs[0] as int).contains(j) {
                assert(0 <= 0 < cs.len() && cluster(p, cs[0] as int).contains(j));
            } else {
                let q = choose|q: int|
                    0 <= q < rest.len() && #[trigger] cluster(p, rest[q] as int).contains(j);
                assert(cluster(p, cs[q + 1] as int).contains(j));
            }
        }
        if exists|q: int| 0 <= q < cs.len() && #[trigger] cluster(p, cs[q] as int).contains(j) {
            let q = choose|q: int|
                0 <= q < cs.len() && #[trigger] cluster(p, cs[q] as int).contains(j);
            if q == 0 {
                assert(clusters_of(p, cs).contains(j));
            } else {
                assert(cluster(p, rest[q - 1] as int).contains(j));
                assert(clusters_of(p, rest).contains(j));
            }
        }
    }
}

/// Pairwise-disjoint clusters: the union's size is the sum of the sizes.
pub proof fn lemma_clusters_len(p: Seq<Option<usize>>, cs: Seq<usize>)
    requires
        forall|q: int| 0 <= q < cs.len() ==> (#[trigger] cs[q]) < p.len(),
        forall|q: int| 0 <= q < cs.len() ==> !is_ancestor(p, (#[trigger] cs[q]) as int, cs[q] as int),
        forall|q1: int, q2: int|
            #![trigger cs[q1], cs[q2]]
            0 <= q1 < q2 < cs.len() ==> cluster(p, cs[q1] as int).disjoint(
                cluster(p, cs[q2] as int),
            ),
    ensures
        clusters_of(p, cs).finite(),
        clusters_of(p, cs).len() == weight_sum(p, cs),
    decreases cs.len(),
{
    broadcast use vstd::set::axiom_set_empty_len;
    if cs.len() > 0 {
        let rest = cs.drop_first();
        assert(forall|q: int| 0 <= q < rest.len() ==> rest[q] == cs[q + 1]);
        lemma_clusters_len(p, rest);
        let head = cluster(p, cs[0] as int);
        lemma_cluster_split(p, cs[0] as int);
        assert forall|j: int| #[trigger] head.contains(j) implies !clusters_of(p, rest).contains(
            j,
        ) by {
            lemma_clusters_member(p, rest, j);
            if clusters_of(p, rest).contains(j) {
                let q = choose|q: int|
                    0 <= q < rest.len() && #[trigger] cluster(p, rest[q] as int).contains(j);
                assert(cluster(p, cs[0] as int).disjoint(cluster(p, cs[q + 1] as int)));
            }
        };
        lemma_set_disjoint_lens(head, clusters_of(p, rest));
        assert(head + clusters_of(p, rest) =~= head.union(clusters_of(p, rest)));
        assert(clusters_of(p, cs) == head.union(clusters_of(p, rest)));
    }
}

/// The descendants of `i` split exactly into the clusters of `i`'s direct
/// reports: the subtree below a manager is one plus a subtree per report.
pub proof fn lemma_desc_partition(p: Seq<Option<usize>>, i: int, cs: Seq<usize>)
    requires
        p.len() <= usize::MAX,
        wf_parents(p),
        all_safe(p),
        cs.no_duplicates(),
        forall|q: int| 0 <= q < cs.len() ==> step_up(p, (#[trigger] cs[q]) as int) == Some(i),
        forall|c: usize| step_up(p, c as int) == Some(i) ==> #[trigger] cs.contains(c),
    ensures
        desc_count(p, i) == weight_sum(p, cs),
        descendants(p, i).finite(),
{
    lemma_descendants_finite(p, i);
    assert forall|q: int| 0 <= q < cs.len() implies (#[trigger] cs[q]) < p.len() by {
        assert(step_up(p, cs[q] as int) == Some(i));
    }
    assert forall|q: int| 0 <= q < cs.len() implies !is_ancestor(
        p,
        (#[trigger] cs[q]) as int,
        cs[q] as int,
    ) by {
        lemma_safe_no_self_ancestor(p, cs[q] as int);
    }
    if cs.len() > 0 {
        assert(0 <= i < p.len()) by {
            assert(step_up(p, cs[0] as int) == Some(i));
            assert(p[cs[0] as int] is Some);
        }
        lemma_safe_no_self_ancestor(p, i);
    }
    assert forall|q1: int, q2: int| #![trigger cs[q1], cs[q2]] 0 <= q1 < q2 < cs.len() implies cluster(
        p,
        cs[q1] as int,
    ).disjoint(cluster(p, cs[q2] as int)) by {
        lemma_sibling_clusters_disjoint(p, i, cs[q1] as int, cs[q2] as int);
    }
    lemma_clusters_len(p, cs);
    assert forall|j: int| #[trigger] descendants(p, i).contains(j) implies clusters_of(
        p,
        cs,
    ).contains(j) by {
        lemma_desc_first_step(p, i, j);
        let c = choose|c: int| #[trigger] step_up(p, c) == Some(i) && cluster(p, c).contains(j);
        assert(0 <= c < p.len());
        assert(step_up(p, (c as usize) as int) == Some(i));
        assert(cs.contains(c as usize));
        let q = choose|q: int| 0 <= q < cs.len() && cs[q] == c as usize;
        assert(cluster(p, cs[q] as int).contains(j));
        lemma_clusters_member(p, cs, j);
    }
    assert forall|j: int| #[trigger] clusters_of(p, cs).contains(j) implies descendants(
        p,
        i,
    ).contains(j) by {
        lemma_clusters_member(p, cs, j);
        let q = choose|q: int|
            0 <= q < cs.len() && #[trigger] cluster(p, cs[q] as int).contains(j);
        let c = cs[q] as int;
        let k = choose|k: nat| walk_up(p, j, k) == Some(c);
        lemma_walk_split(p, j, k, 1);
        assert(walk_up(p, i, 0) == Some(i));
        assert(walk_up(p, c, 1) == Some(i));
        assert(walk_up(p, j, k + 1) == Some(i));
    }
    assert(descendants(p, i) =~= clusters_of(p, cs));
}

/// The whole population splits exactly into the clusters of the roots.
pub proof fn lemma_root_partition(p: Seq<Option<usize>>, rs: Seq<usize>)
    requires
        p.len() <= usize::MAX,
        all_safe(p),
        rs.no_duplicates(),
        forall|q: int| 0 <= q < rs.len() ==> is_root(p, (#[trigger] rs[q]) as int),
        forall|r: int| is_root(p, r) ==> rs.contains(r as usize),
    ensures
        weight_sum(p, rs) == p.len(),
{
    assert forall|q: int| 0 <= q < rs.len() implies !is_ancestor(
        p,
        (#[trigger] rs[q]) as int,
        rs[q] as int,
    ) by {
        lemma_safe_no_self_ancestor(p, rs[q] as int);
    }
    assert forall|q1: int, q2: int| #![trigger rs[q1], rs[q2]] 0 <= q1 < q2 < rs.len() implies cluster(
        p,
        rs[q1] as int,
    ).disjoint(cluster(p, rs[q2] as int)) by {
        let r1 = rs[q1] as int;
        let r2 = rs[q2] as int;
        assert(rs[q1] != rs[q2]);
        assert forall|j: int| #[trigger] cluster(p, r1).contains(j) implies !cluster(
            p,
            r2,
        ).contains(j) by {
            if cluster(p, r2).contains(j) {
                lemma_root_unique(p, r1, r2, j);
            }
        };
    }
    lemma_clusters_len(p, rs);
    assert forall|j: int| set_int_range(0, p.len() as int).contains(j) implies clusters_of(
        p,
        rs,
    ).contains(j) by {
        assert(safe(p, j));
        let f = choose|f: nat| reaches_root(p, j, f);
        lemma_safe_has_root(p, j, f);
        let r = choose|r: int| #[trigger] is_root(p, r) && is_ancestor_or_self(p, r, j);
        assert(rs.contains(r as usize));
        let q = choose|q: int| 0 <= q < rs.len() && rs[q] == r as usize;
        assert(cluster(p, rs[q] as int).contains(j));
        lemma_clusters_member(p, rs, j);
    }
    assert forall|j: int| #[trigger] clusters_of(p, rs).contains(j) implies set_int_range(
        0,
        p.len() as int,
    ).contains(j) by {
        lemma_clusters_member(p, rs, j);
    }
    assert(clusters_of(p, rs) =~= set_int_range(0, p.len() as int));
    lemma_int_range(0, p.len() as int);
}

/// The views of a sequence of index lists.
pub open spec fn rep_view(reports: Seq<Vec<usize>>) -> Seq<Seq<usize>> {
    Seq::new(reports.len(), |j: int| reports[j]@)
}

/// `rep[j]` lists, without duplicates, exactly the direct reports of `j`.
pub open spec fn children_ok(p: Seq<Option<usize>>, rep: Seq<Seq<usize>>) -> bool {
    &&& rep.len() == p.len()
    &&& forall|j: int| 0 <= j < p.len() ==> (#[trigger] rep[j]).no_duplicates()
    &&& forall|j: int, c: usize|
        #![trigger rep[j].contains(c)]
        0 <= j < p.len() ==> (rep[j].contains(c) <==> step_up(p, c as int) == Some(j))
}

/// Mid-traversal version of `children_ok`: `rep[j]` lists exactly the direct
/// reports of `j` that have already been visited.
pub open spec fn children_partial(
    p: Seq<Option<usize>>,
    rep: Seq<Seq<usize>>,
    done: Seq<bool>,
) -> bool {
    &&& rep.len() == p.len()
    &&& done.len() == p.len()
    &&& forall|j: int| 0 <= j < p.len() ==> (#[trigger] rep[j]).no_duplicates()
    &&& forall|j: int, c: usize|
        #![trigger rep[j].contains(c)]
        0 <= j < p.len() ==> (rep[j].contains(c) <==> step_up(p, c as int) == Some(j) && done[c as int])
}

/// Walking `r` steps up from position `q` of a linked chain lands on position
/// `q + r`.
pub proof fn lemma_chain_walk(p: Seq<Option<usize>>, ch: Seq<usize>, q: int, r: nat)
    requires
        forall|t: int|
            #![trigger ch[t]]
            0 <= t < ch.len() - 1 ==> step_up(p, ch[t] as int) == Some(ch[t + 1] as int),
        0 <= q,
        q + r < ch.len(),
    ensures
        walk_up(p, ch[q] as int, r) == Some(ch[q + r] as int),
    decreases r,
{
    if r > 0 {
        assert(step_up(p, ch[q] as int) == Some(ch[q + 1] as int));
        lemma_chain_walk(p, ch, q + 1, (r - 1) as nat);
    }
}

/// If the top of a linked chain has a terminating walk, every entry of the
/// chain does.
pub proof fn lemma_chain_safe(p: Seq<Option<usize>>, ch: Seq<usize>)
    requires
        ch.len() >= 1,
        forall|t: int|
            #![trigger ch[t]]
            0 <= t < ch.len() - 1 ==> step_up(p, ch[t] as int) == Some(ch[t + 1] as int),
        safe(p, ch[ch.len() - 1] as int),
    ensures
        forall|t: int| #![trigger ch[t]] 0 <= t < ch.len() ==> safe(p, ch[t] as int),
    decreases ch.len(),
{
    if ch.len() > 1 {
        let prev = ch[ch.len() - 2] as int;
        assert(step_up(p, prev) == Some(ch[ch.len() - 1] as int));
        lemma_safe_step(p, prev);
        let pre = ch.drop_last();
        assert(forall|t: int| 0 <= t < pre.len() ==> pre[t] == ch[t]);
        lemma_chain_safe(p, pre);
        assert forall|t: int| #![trigger ch[t]] 0 <= t < ch.len() implies safe(p, ch[t] as int) by {
            if t < ch.len() - 1 {
                assert(safe(p, pre[t] as int));
            }
        }
    }
}

/// How many of the listed children are not yet finalized.
pub open spec fn count_unfin(s: Seq<usize>, fin: Set<int>) -> nat
    decreases s.len(),
{
    if s.len() == 0 {
        0
    } else {
        (count_unfin(s.drop_first(), fin) + if fin.contains(s[0] as int) {
            0int
        } else {
            1int
        }) as nat
    }
}

/// The total contributed to a manager so far: one plus the subtree size of
/// each finalized child in the list.
pub open spec fn contrib_sum(p: Seq<Option<usize>>, s: Seq<usize>, fin: Set<int>) -> int
    decreases s.len(),
{
    if s.len() == 0 {
        0
    } else {
        contrib_sum(p, s.drop_first(), fin) + if fin.contains(s[0] as int) {
            1 + desc_count(p, s[0] as int) as int
        } else {
            0int
        }
    }
}

pub proof fn lemma_drop_first_no_dup<A>(s: Seq<A>)
    requires
        s.len() > 0,
        s.no_duplicates(),
    ensures
        s.drop_first().no_duplicates(),
{
    let rest = s.drop_first();
    assert forall|a: int, b: int|
        0 <= a < rest.len() && 0 <= b < rest.len() && a != b implies rest[a] != rest[b] by {
        assert(s[a + 1] != s[b + 1]);
    }
}

pub proof fn lemma_count_unfin_zero(s: Seq<usize>, fin: Set<int>)
    ensures
        count_unfin(s, fin) == 0 <==> (forall|q: int|
            #![trigger s[q]]
            0 <= q < s.len() ==> fin.contains(s[q] as int)),
    decreases s.len(),
{
    if s.len() > 0 {
        let rest = s.drop_first();
        lemma_count_unfin_zero(rest, fin);
        assert(forall|q: int| 0 <= q < rest.len() ==> rest[q] == s[q + 1]);
        if count_unfin(s, fin) == 0 {
            assert forall|q: int| #![trigger s[q]] 0 <= q < s.len() implies fin.contains(
                s[q] as int,
            ) by {
                if q > 0 {
                    assert(fin.contains(rest[q - 1] as int));
                }
            }
        } else {
            if forall|q: int| #![trigger s[q]] 0 <= q < s.len() ==> fin.contains(s[q] as int) {
                assert forall|q: int| #![trigger rest[q]] 0 <= q < rest.len() implies fin.contains(
                    rest[q] as int,
                ) by {
                    assert(fin.contains(s[q + 1] as int));
                }
                assert(fin.contains(s[0] as int));
            }
        }
    }
}

/// Finalizing one more node lowers its manager's outstanding-children count
/// by exactly one and raises the contribution by one plus its subtree.
pub proof fn lemma_finalize_one(p: Seq<Option<usize>>, s: Seq<usize>, fin: Set<int>, x: usize)
    requires
        s.no_duplicates(),
        !fin.contains(x as int),
    ensures
        count_unfin(s, fin.insert(x as int)) == count_unfin(s, fin) - (if s.contains(x) {
            1int
        } else {
            0int
        }),
        contrib_sum(p, s, fin.insert(x as int)) == contrib_sum(p, s, fin) + (if s.contains(x) {
            1 + desc_count(p, x as int) as int
        } else {
            0int
        }),
    decreases s.len(),
{
    if s.len() > 0 {
        let rest = s.drop_first();
        lemma_drop_first_no_dup(s);
        lemma_finalize_one(p, rest, fin, x);
        assert(forall|q: int| 0 <= q < rest.len() ==> rest[q] == s[q + 1]);
        if s[0] == x {
            assert(s.contains(x));
            if rest.contains(x) {
                let q = choose|q: int| 0 <= q < rest.len() && rest[q] == x;
                assert(s[q + 1] == s[0]);
            }
            assert(!rest.contains(x));
        } else {
            if s.contains(x) {
                let q = choose|q: int| 0 <= q < s.len() && s[q] == x;
                assert(rest[q - 1] == x);
                assert(rest.contains(x));
            }
            if rest.contains(x) {
                let q = choose|q: int| 0 <= q < rest.len() && rest[q] == x;
                assert(s[q + 1] == x);
            }
            assert(s.contains(x) <==> rest.contains(x));
        }
    }
}

/// With no listed child finalized, the outstanding count is the list length
/// and nothing has been contributed.
pub proof fn lemma_count_unfin_all(p: Seq<Option<usize>>, s: Seq<usize>, fin: Set<int>)
    requires
        forall|q: int| #![trigger s[q]] 0 <= q < s.len() ==> !fin.contains(s[q] as int),
    ensures
        count_unfin(s, fin) == s.len(),
        contrib_sum(p, s, fin) == 0,
    decreases s.len(),
{
    if s.len() > 0 {
        let rest = s.drop_first();
        assert(forall|q: int| 0 <= q < rest.len() ==> rest[q] == s[q + 1]);
        assert forall|q: int| #![trigger rest[q]] 0 <= q < rest.len() implies !fin.contains(
            rest[q] as int,
        ) by {
            assert(!fin.contains(s[q + 1] as int));
        }
        lemma_count_unfin_all(p, rest, fin);
        assert(!fin.contains(s[0] as int));
    }
}

/// Once every listed child is finalized, the accumulated contribution is the
/// full weight of the list.
pub proof fn lemma_contrib_full(p: Seq<Option<usize>>, s: Seq<usize>, fin: Set<int>)
    requires
        forall|q: int| #![trigger s[q]] 0 <= q < s.len() ==> fin.contains(s[q] as int),
    ensures
        contrib_sum(p, s, fin) == weight_sum(p, s),
    decreases s.len(),
{
    if s.len() > 0 {
        let rest = s.drop_first();
        assert(forall|q: int| 0 <= q < rest.len() ==> rest[q] == s[q + 1]);
        assert forall|q: int| #![trigger rest[q]] 0 <= q < rest.len() implies fin.contains(
            rest[q] as int,
        ) by {
            assert(fin.contains(s[q + 1] as int));
        }
        lemma_contrib_full(p, rest, fin);
        assert(fin.contains(s[0] as int));
    }
}

/// A partial contribution never exceeds the full weight of the list.
pub proof fn lemma_contrib_le(p: Seq<Option<usize>>, s: Seq<usize>, fin: Set<int>)
    ensures
        0 <= contrib_sum(p, s, fin),
        contrib_sum(p, s, fin) <= weight_sum(p, s),
    decreases s.len(),
{
    if s.len() > 0 {
        lemma_contrib_le(p, s.drop_first(), fin);
    }
}

/// The cluster of a direct report sits inside its manager's descendants, so
/// the report's own subtree is strictly smaller.
pub proof fn lemma_child_smaller(p: Seq<Option<usize>>, c: int, j: int)
    requires
        all_safe(p),
        step_up(p, c) == Some(j),
    ensures
        desc_count(p, c) < desc_count(p, j),
{
    lemma_safe_no_self_ancestor(p, c);
    lemma_cluster_split(p, c);
    assert forall|y: int| #[trigger] cluster(p, c).contains(y) implies descendants(p, j).contains(
        y,
    ) by {
        let k = choose|k: nat| walk_up(p, y, k) == Some(c);
        lemma_walk_split(p, y, k, 1);
        assert(walk_up(p, j, 0) == Some(j));
        assert(walk_up(p, c, 1) == Some(j));
        assert(walk_up(p, y, k + 1) == Some(j));
    }
    lemma_descendants_finite(p, j);
    lemma_len_subset(cluster(p, c), descendants(p, j));
}

/// While any node is unfinalized, some unfinalized node has all its direct
/// reports finalized: the worklist cannot dry up early.
pub proof fn lemma_unfinished_has_ready(
    p: Seq<Option<usize>>,
    rep: Seq<Seq<usize>>,
    fin: Set<int>,
    j: int,
)
    requires
        wf_parents(p),
        all_safe(p),
        children_ok(p, rep),
        0 <= j < p.len(),
        !fin.contains(j),
    ensures
        exists|i: int|
            0 <= i < p.len() && !(#[trigger] fin.contains(i)) && count_unfin(rep[i], fin) == 0,
    decreases desc_count(p, j),
{
    if count_unfin(rep[j], fin) == 0 {
        assert(0 <= j < p.len() && !fin.contains(j) && count_unfin(rep[j], fin) == 0);
    } else {
        lemma_count_unfin_zero(rep[j], fin);
        let q = choose|q: int| 0 <= q < rep[j].len() && !fin.contains(#[trigger] rep[j][q] as int);
        let c = rep[j][q];
        assert(rep[j].contains(c));
        assert(step_up(p, c as int) == Some(j));
        lemma_child_smaller(p, c as int, j);
        lemma_unfinished_has_ready(p, rep, fin, c as int);
    }
}

pub proof fn lemma_push_contains<A>(s: Seq<A>, v: A, c: A)
    ensures
        s.push(v).contains(c) <==> s.contains(c) || c == v,
{
    if s.contains(c) {
        let q = choose|q: int| 0 <= q < s.len() && s[q] == c;
        assert(s.push(v)[q] == c);
    }
    assert(s.push(v)[s.len() as int] == v);
    if s.push(v).contains(c) && c != v {
        let q = choose|q: int| 0 <= q < s.push(v).len() && s.push(v)[q] == c;
        assert(q < s.len());
        assert(s[q] == c);
    }
}

pub proof fn lemma_push_no_dup<A>(s: Seq<A>, v: A)
    requires
        s.no_duplicates(),
        !s.contains(v),
    ensures
        s.push(v).no_duplicates(),
{
    assert forall|q: int| 0 <= q < s.len() implies s[q] != v by {
        if s[q] == v {
            assert(s.contains(v));
        }
    }
    assert forall|q1: int, q2: int|
        0 <= q1 < s.push(v).len() && 0 <= q2 < s.push(v).len() && q1 != q2 implies s.push(v)[q1]
        != s.push(v)[q2] by {
        if q1 < s.len() && q2 < s.len() {
            assert(s[q1] != s[q2]);
        }
    }
}

/// A cycle-free node's subtree, the node excluded, is smaller than the whole
/// population.
pub proof fn lemma_desc_count_bound(p: Seq<Option<usize>>, x: int)
    requires
        0 <= x < p.len(),
        !is_ancestor(p, x, x),
    ensures
        desc_count(p, x) < p.len(),
{
    lemma_cluster_split(p, x);
    lemma_int_range(0, p.len() as int);
    assert(cluster(p, x).subset_of(set_int_range(0, p.len() as int)));
    lemma_len_subset(cluster(p, x), set_int_range(0, p.len() as int));
}

/// A duplicate-free sequence of indices below `n` has at most `n` entries.
pub proof fn lemma_bounded_distinct_len(s: Seq<usize>, n: int)
    requires
        s.no_duplicates(),
        forall|q: int| 0 <= q < s.len() ==> (#[trigger] s[q] as int) < n,
        0 <= n,
    ensures
        s.len() <= n,
{
    let f = |x: usize| x as int;
    let si = s.map_values(f);
    assert(si.no_duplicates()) by {
        assert forall|q1: int, q2: int|
            0 <= q1 < si.len() && 0 <= q2 < si.len() && q1 != q2 implies si[q1] != si[q2] by {
            assert(s[q1] != s[q2]);
        }
    }
    si.unique_seq_to_set();
    assert forall|j: int| #[trigger] si.to_set().contains(j) implies set_int_range(
        0,
        n,
    ).contains(j) by {
        let q = choose|q: int| 0 <= q < si.len() && si[q] == j;
        assert(s[q] as int == j);
    }
    lemma_int_range(0, n);
    lemma_len_subset(si.to_set(), set_int_range(0, n));
}

} // verus!
