//! Library-wide laws, stated and proved over the model.

use crate::employee::Employee;
use crate::forest::{
    dangling, distinct_ids, has_id, lemma_id_index_unique, mgr_index, parent_view, resolves,
};
use crate::model::{
    all_safe, desc_count, descendants, is_ancestor, is_root, lemma_descendants_finite,
    lemma_root_partition, lemma_safe_no_self_ancestor, step_up, walk_up, weight_sum,
};
use crate::pipeline::{enriched_at, enriched_seq};
use vstd::prelude::*;
use vstd::relations::injective_on;
use vstd::set_lib::lemma_map_size;

verus! {

/// The sum, over the listed roots, of one plus the root's assigned count.
pub open spec fn root_total(rr: Seq<u64>, roots: Seq<usize>) -> int
    decreases roots.len(),
{
    if roots.len() == 0 {
        0
    } else {
        1 + rr[roots[0] as int] + root_total(rr, roots.drop_first())
    }
}

proof fn lemma_root_total_matches_weights(p: Seq<Option<usize>>, roots: Seq<usize>, rr: Seq<u64>)
    requires
        rr.len() == p.len(),
        forall|q: int| #![trigger roots[q]] 0 <= q < roots.len() ==> (roots[q] as int) < p.len(),
        forall|i: int| 0 <= i < p.len() ==> #[trigger] rr[i] == desc_count(p, i),
    ensures
        root_total(rr, roots) == weight_sum(p, roots),
    decreases roots.len(),
{
    if roots.len() > 0 {
        let rest = roots.drop_first();
        assert(forall|q: int| 0 <= q < rest.len() ==> rest[q] == roots[q + 1]);
        assert forall|q: int| #![trigger rest[q]] 0 <= q < rest.len() implies (rest[q] as int)
            < p.len() by {
            assert((roots[q + 1] as int) < p.len());
        }
        lemma_root_total_matches_weights(p, rest, rr);
    }
}

/// Head-count law: over any forest, summing one plus the assigned count over
/// all roots gives back the total number of employees — every employee sits
/// in exactly one root's subtree.
pub proof fn lemma_root_totals(p: Seq<Option<usize>>, roots: Seq<usize>, rr: Seq<u64>)
    requires
        p.len() <= usize::MAX,
        all_safe(p),
        rr.len() == p.len(),
        forall|i: int| 0 <= i < p.len() ==> #[trigger] rr[i] == desc_count(p, i),
        roots.no_duplicates(),
        forall|q: int| 0 <= q < roots.len() ==> is_root(p, (#[trigger] roots[q]) as int),
        forall|r: int| is_root(p, r) ==> roots.contains(r as usize),
    ensures
        root_total(rr, roots) == p.len(),
{
    lemma_root_partition(p, roots);
    assert forall|q: int| #![trigger roots[q]] 0 <= q < roots.len() implies (roots[q] as int)
        < p.len() by {
        assert(is_root(p, roots[q] as int));
    }
    lemma_root_total_matches_weights(p, roots, rr);
}

/// Cycle-freedom law: in a forest no employee is its own strict ancestor, so
/// in particular no record that survives the cycle check manages itself,
/// directly or transitively.
pub proof fn lemma_forest_no_self_ancestor(p: Seq<Option<usize>>, i: int)
    requires
        all_safe(p),
        0 <= i < p.len(),
    ensures
        !is_ancestor(p, i, i),
{
    lemma_safe_no_self_ancestor(p, i);
}

/// Repair law: a record whose manager reference resolves to no record leaves
/// the run with its reference gone and stands as a root of the repaired
/// relation.
pub proof fn lemma_dangling_repaired(s: Seq<Employee>, x: int)
    requires
        0 <= x < s.len(),
        dangling(s, x),
    ensures
        enriched_at(s, x).manager_id is None,
        is_root(parent_view(s), x),
{
    assert(!resolves(s, x));
    assert(parent_view(s)[x] == mgr_index(s, x));
}

/// The manager reference of record `x` after repair: kept exactly when it
/// resolves to some record.
pub open spec fn mgr_ref(s: Seq<Employee>, x: int) -> Option<u64> {
    if resolves(s, x) {
        s[x].manager_id
    } else {
        None
    }
}

/// The position in `s` of the record carrying `id` (meaningful when some
/// record does).
pub open spec fn idx_of_id(s: Seq<Employee>, id: u64) -> int {
    choose|x: int| 0 <= x < s.len() && s[x].id == id
}

/// Two tables present the same organization: the same set of ids, each id
/// with the same repaired manager reference. Record order, the opaque fields
/// and the derived count play no role.
pub open spec fn same_org(a: Seq<Employee>, b: Seq<Employee>) -> bool {
    &&& a.len() <= usize::MAX
    &&& b.len() <= usize::MAX
    &&& distinct_ids(a)
    &&& distinct_ids(b)
    &&& forall|id: u64| #![trigger has_id(a, id)] #![trigger has_id(b, id)] has_id(a, id)
        <==> has_id(b, id)
    &&& forall|x: int, y: int|
        #![trigger a[x], b[y]]
        0 <= x < a.len() && 0 <= y < b.len() && a[x].id == b[y].id ==> mgr_ref(a, x) == mgr_ref(
            b,
            y,
        )
}

proof fn lemma_same_org_sym(a: Seq<Employee>, b: Seq<Employee>)
    requires
        same_org(a, b),
    ensures
        same_org(b, a),
{
    assert forall|x: int, y: int| #![trigger b[x], a[y]]
        0 <= x < b.len() && 0 <= y < a.len() && b[x].id == a[y].id implies mgr_ref(b, x)
        == mgr_ref(a, y) by {
        assert(mgr_ref(a, y) == mgr_ref(b, x));
    }
}

/// Walking the two repaired relations from id-matched positions visits
/// id-matched positions, step for step.
proof fn lemma_walk_correspond(a: Seq<Employee>, b: Seq<Employee>, x: int, y: int, k: nat)
    requires
        same_org(a, b),
        0 <= x < a.len(),
        0 <= y < b.len(),
        a[x].id == b[y].id,
    ensures
        walk_up(parent_view(a), x, k) is Some <==> walk_up(parent_view(b), y, k) is Some,
        walk_up(parent_view(a), x, k) is Some ==> {
            let u = walk_up(parent_view(a), x, k)->0;
            let v = walk_up(parent_view(b), y, k)->0;
            0 <= u < a.len() && 0 <= v < b.len() && a[u].id == b[v].id
        },
    decreases k,
{
    let pa = parent_view(a);
    let pb = parent_view(b);
    if k > 0 {
        assert(pa[x] == mgr_index(a, x));
        assert(pb[y] == mgr_index(b, y));
        assert(mgr_ref(a, x) == mgr_ref(b, y));
        match mgr_ref(a, x) {
            Some(mid) => {
                assert(resolves(a, x) && resolves(b, y));
                assert(a[x].manager_id == Some(mid) && b[y].manager_id == Some(mid));
                let wa = choose|w: int| 0 <= w < a.len() && a[w].id == mid;
                assert(((wa as usize) as int) == wa);
                assert(((wa as usize) as int) < a.len() && a[(wa as usize) as int].id == mid);
                let wb = choose|w: int| 0 <= w < b.len() && b[w].id == mid;
                assert(((wb as usize) as int) == wb);
                assert(((wb as usize) as int) < b.len() && b[(wb as usize) as int].id == mid);
                let ma = choose|m: usize| (m as int) < a.len() && a[m as int].id == mid;
                let mb = choose|m: usize| (m as int) < b.len() && b[m as int].id == mid;
                assert((ma as int) < a.len() && a[ma as int].id == mid);
                assert((mb as int) < b.len() && b[mb as int].id == mid);
                assert(pa[x] == Some(ma));
                assert(pb[y] == Some(mb));
                assert(step_up(pa, x) == Some(ma as int));
                assert(step_up(pb, y) == Some(mb as int));
                lemma_walk_correspond(a, b, ma as int, mb as int, (k - 1) as nat);
            }
            None => {
                assert(!resolves(a, x) && !resolves(b, y));
                assert(pa[x] is None && pb[y] is None);
                assert(step_up(pa, x) is None && step_up(pb, y) is None);
                assert(walk_up(pa, x, k) is None && walk_up(pb, y, k) is None);
            }
        }
    }
}

/// Strict ancestry transfers between id-matched positions of two tables that
/// present the same organization.
proof fn lemma_ancestor_correspond(
    a: Seq<Employee>,
    b: Seq<Employee>,
    x: int,
    y: int,
    da: int,
    db: int,
)
    requires
        same_org(a, b),
        0 <= x < a.len(),
        0 <= y < b.len(),
        0 <= da < a.len(),
        0 <= db < b.len(),
        a[x].id == b[y].id,
        a[da].id == b[db].id,
        is_ancestor(parent_view(a), x, da),
    ensures
        is_ancestor(parent_view(b), y, db),
{
    let pa = parent_view(a);
    let pb = parent_view(b);
    let k = choose|k: nat| 1 <= k && walk_up(pa, da, k) == Some(x);
    lemma_walk_correspond(a, b, da, db, k);
    let v = walk_up(pb, db, k)->0;
    assert(b[v].id == a[x].id);
    lemma_id_index_unique(b, v, y);
    assert(walk_up(pb, db, k) == Some(y));
}

/// The transitive report count of an employee depends only on the
/// organization — the id graph — not on record order or opaque fields.
pub proof fn lemma_count_depends_on_org_only(a: Seq<Employee>, b: Seq<Employee>, x: int, y: int)
    requires
        same_org(a, b),
        0 <= x < a.len(),
        0 <= y < b.len(),
        a[x].id == b[y].id,
    ensures
        desc_count(parent_view(a), x) == desc_count(parent_view(b), y),
{
    lemma_same_org_sym(a, b);
    let pa = parent_view(a);
    let pb = parent_view(b);
    let f = |j: int| idx_of_id(b, a[j].id);
    lemma_descendants_finite(pa, x);
    assert forall|j: int| #[trigger] descendants(pa, x).contains(j) implies 0 <= f(j) < b.len()
        && b[f(j)].id == a[j].id && descendants(pb, y).contains(f(j)) by {
        assert(has_id(a, a[j].id));
        assert(has_id(b, a[j].id));
        let w = choose|w: int| 0 <= w < b.len() && b[w].id == a[j].id;
        assert(0 <= f(j) < b.len() && b[f(j)].id == a[j].id);
        lemma_ancestor_correspond(a, b, x, y, j, f(j));
    }
    assert(injective_on(f, descendants(pa, x))) by {
        assert forall|j1: int, j2: int|
            descendants(pa, x).contains(j1) && descendants(pa, x).contains(j2) && #[trigger] f(j1)
                == #[trigger] f(j2) implies j1 == j2 by {
            if j1 != j2 {
                lemma_id_index_unique(a, j1, j2);
            }
        }
    }
    assert(descendants(pa, x).map(f) =~= descendants(pb, y)) by {
        assert forall|v: int| #[trigger] descendants(pb, y).contains(v) implies descendants(
            pa,
            x,
        ).map(f).contains(v) by {
            let g = |u: int| idx_of_id(a, b[u].id);
            assert(has_id(b, b[v].id));
            assert(has_id(a, b[v].id));
            let w = choose|w: int| 0 <= w < a.len() && a[w].id == b[v].id;
            assert(0 <= g(v) < a.len() && a[g(v)].id == b[v].id);
            lemma_ancestor_correspond(b, a, y, x, v, g(v));
            assert(descendants(pa, x).contains(g(v)));
            assert(has_id(b, a[g(v)].id));
            assert(b[f(g(v))].id == a[g(v)].id);
            lemma_id_index_unique(b, f(g(v)), v);
            assert(f(g(v)) == v);
        }
    }
    lemma_map_size(descendants(pa, x), descendants(pb, y), f);
}

/// Idempotence law: feed a successful run's own output back in (the derived
/// field plays no part in the input) and every employee is assigned the very
/// count it already carries.
pub proof fn lemma_rerun_keeps_counts(s: Seq<Employee>, t: Seq<Employee>)
    requires
        s.len() <= usize::MAX,
        distinct_ids(s),
        t.to_multiset() == enriched_seq(s).to_multiset(),
    ensures
        forall|y: int|
            0 <= y < t.len() ==> (#[trigger] enriched_at(t, y)).recursive_reports
                == t[y].recursive_reports,
{
    broadcast use vstd::seq_lib::group_to_multiset_ensures;

    let es = enriched_seq(s);
    assert(t.len() == es.len() && es.len() == s.len()) by {
        t.to_multiset_ensures();
        es.to_multiset_ensures();
    }
    // Every output record is the enrichment of exactly one input record.
    assert forall|y: int| #![trigger t[y]] 0 <= y < t.len() implies exists|x: int|
        0 <= x < s.len() && t[y] == #[trigger] enriched_at(s, x) by {
        t.to_multiset_ensures();
        es.to_multiset_ensures();
        assert(t.contains(t[y]));
        assert(t.to_multiset().count(t[y]) > 0);
        assert(es.contains(t[y]));
        let x = choose|x: int| 0 <= x < es.len() && es[x] == t[y];
        assert(t[y] == enriched_at(s, x));
    }
    assert(distinct_ids(t)) by {
        assert forall|y1: int, y2: int| 0 <= y1 < y2 < t.len() implies t[y1].id != t[y2].id by {
            if t[y1].id == t[y2].id {
                let x1 = choose|x: int| 0 <= x < s.len() && t[y1] == #[trigger] enriched_at(s, x);
                let x2 = choose|x: int| 0 <= x < s.len() && t[y2] == #[trigger] enriched_at(s, x);
                lemma_id_index_unique(s, x1, x2);
                assert(t[y1] == t[y2]);
                assert(es.no_duplicates()) by {
                    assert forall|z1: int, z2: int|
                        0 <= z1 < es.len() && 0 <= z2 < es.len() && z1 != z2 implies es[z1]
                        != es[z2] by {
                        if es[z1] == es[z2] {
                            lemma_id_index_unique(s, z1, z2);
                        }
                    }
                }
                es.lemma_multiset_has_no_duplicates();
                t.lemma_multiset_has_no_duplicates_conv();
                assert(t.no_duplicates());
            }
        }
    }
    assert forall|id: u64| #![trigger has_id(s, id)] #![trigger has_id(t, id)] has_id(s, id)
        <==> has_id(t, id) by {
        t.to_multiset_ensures();
        es.to_multiset_ensures();
        if has_id(s, id) {
            let x = choose|x: int| 0 <= x < s.len() && s[x].id == id;
            assert(es[x].id == id);
            assert(es.contains(es[x]));
            assert(es.to_multiset().count(es[x]) > 0);
            assert(t.to_multiset().count(es[x]) > 0);
            assert(t.contains(es[x]));
            let y = choose|y: int| 0 <= y < t.len() && t[y] == es[x];
            assert(has_id(t, id));
        }
        if has_id(t, id) {
            let y = choose|y: int| 0 <= y < t.len() && t[y].id == id;
            let x = choose|x: int| 0 <= x < s.len() && t[y] == #[trigger] enriched_at(s, x);
            assert(s[x].id == id);
        }
    }
    assert forall|x: int, y: int|
        #![trigger s[x], t[y]]
        0 <= x < s.len() && 0 <= y < t.len() && s[x].id == t[y].id implies mgr_ref(s, x)
        == mgr_ref(t, y) by {
        let x2 = choose|x2: int| 0 <= x2 < s.len() && t[y] == #[trigger] enriched_at(s, x2);
        lemma_id_index_unique(s, x, x2);
        assert(t[y].manager_id == mgr_ref(s, x));
        match mgr_ref(s, x) {
            Some(mid) => {
                assert(resolves(s, x));
                assert(has_id(s, mid));
                assert(has_id(t, mid));
                assert(resolves(t, y));
                assert(mgr_ref(t, y) == Some(mid));
            }
            None => {
                assert(!resolves(t, y));
            }
        }
    }
    assert(same_org(s, t));
    assert forall|y: int| 0 <= y < t.len() implies (#[trigger] enriched_at(t, y)).recursive_reports
        == t[y].recursive_reports by {
        let x = choose|x: int| 0 <= x < s.len() && t[y] == #[trigger] enriched_at(s, x);
        lemma_count_depends_on_org_only(s, t, x, y);
        assert(t[y].recursive_reports == desc_count(parent_view(s), x) as u64);
        assert(enriched_at(t, y).recursive_reports == desc_count(parent_view(t), y) as u64);
    }
}

} // verus!
