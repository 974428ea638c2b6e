//! Hierarchy building: resolving manager references into an index-based
//! relation, repairing dangling references, and detecting cycles while the
//! direct-report lists are populated.

use crate::employee::{CycleReport, Employee, UnresolvedManager};
use crate::model::{
    acyclic, all_safe, children_ok, children_partial, is_ancestor, is_root,
    lemma_all_safe_acyclic, lemma_bounded_distinct_len, lemma_chain_safe, lemma_chain_walk,
    lemma_safe_step, lemma_walk_split, reaches_root, rep_view, safe, step_up, walk_up, wf_parents,
};
use vstd::prelude::*;

verus! {

/// Some record in `s` carries this id.
pub open spec fn has_id(s: Seq<Employee>, id: u64) -> bool {
    exists|x: int| 0 <= x < s.len() && s[x].id == id
}

/// All ids in `s` are pairwise distinct.
pub open spec fn distinct_ids(s: Seq<Employee>) -> bool {
    forall|x: int, y: int| 0 <= x < y < s.len() ==> s[x].id != s[y].id
}

/// `x` names a manager id that matches no record: a dangling reference.
pub open spec fn dangling(s: Seq<Employee>, x: int) -> bool {
    s[x].manager_id is Some && !has_id(s, s[x].manager_id->0)
}

/// `x` names a manager id that matches some record.
pub open spec fn resolves(s: Seq<Employee>, x: int) -> bool {
    s[x].manager_id is Some && has_id(s, s[x].manager_id->0)
}

/// The index of `x`'s manager after root repair: present exactly when `x`'s
/// manager id matches a record.
pub open spec fn mgr_index(s: Seq<Employee>, x: int) -> Option<usize> {
    if resolves(s, x) {
        Some(choose|m: usize| (m as int) < s.len() && s[m as int].id == s[x].manager_id->0)
    } else {
        None
    }
}

/// The repaired manager relation of the whole table, in index space.
pub open spec fn parent_view(s: Seq<Employee>) -> Seq<Option<usize>> {
    Seq::new(s.len(), |x: int| mgr_index(s, x))
}

/// What one entry of a resolved relation must look like.
pub open spec fn parent_link_ok(s: Seq<Employee>, p: Seq<Option<usize>>, x: int) -> bool {
    match p[x] {
        Some(m) => (m as int) < s.len() && s[x].manager_id == Some(s[m as int].id),
        None => s[x].manager_id is None || dangling(s, x),
    }
}

/// The diagnostics owed for the first `upto` records: one entry per dangling
/// reference, in record order.
pub open spec fn diag_seq(s: Seq<Employee>, upto: int) -> Seq<UnresolvedManager>
    decreases upto,
{
    if upto <= 0 {
        Seq::empty()
    } else {
        diag_seq(s, upto - 1) + if dangling(s, upto - 1) {
            seq![
                UnresolvedManager {
                    employee_id: s[upto - 1].id,
                    manager_id: s[upto - 1].manager_id->0,
                },
            ]
        } else {
            Seq::empty()
        }
    }
}

pub proof fn lemma_id_index_unique(s: Seq<Employee>, m1: int, m2: int)
    requires
        distinct_ids(s),
        0 <= m1 < s.len(),
        0 <= m2 < s.len(),
        s[m1].id == s[m2].id,
    ensures
        m1 == m2,
{
    if m1 < m2 {
        assert(s[m1].id != s[m2].id);
    } else if m2 < m1 {
        assert(s[m2].id != s[m1].id);
    }
}

/// With distinct ids, any relation whose links all check out is the canonical
/// repaired relation.
pub proof fn lemma_links_canonical(s: Seq<Employee>, p: Seq<Option<usize>>)
    requires
        distinct_ids(s),
        p.len() == s.len(),
        forall|x: int| 0 <= x < p.len() ==> parent_link_ok(s, p, x),
    ensures
        p =~= parent_view(s),
{
    assert forall|x: int| 0 <= x < p.len() implies p[x] == parent_view(s)[x] by {
        assert(parent_link_ok(s, p, x));
        match p[x] {
            Some(m) => {
                assert(s[m as int].id == s[x].manager_id->0);
                assert(has_id(s, s[x].manager_id->0));
                assert(resolves(s, x));
                let m2 = choose|m2: usize|
                    (m2 as int) < s.len() && s[m2 as int].id == s[x].manager_id->0;
                assert((m as int) < s.len() && s[m as int].id == s[x].manager_id->0);
                lemma_id_index_unique(s, m as int, m2 as int);
            }
            None => {
                assert(!resolves(s, x));
            }
        }
    }
}

/// Linear scan for the record carrying `id`.
pub fn index_of_id(employees: &Vec<Employee>, id: u64) -> (r: Option<usize>)
    ensures
        match r {
            Some(m) => (m as int) < employees@.len() && employees@[m as int].id == id,
            None => !has_id(employees@, id),
        },
{
    let mut x: usize = 0;
    while x < employees.len()
        invariant
            x <= employees@.len(),
            forall|y: int| 0 <= y < x ==> employees@[y].id != id,
        decreases employees@.len() - x,
    {
        if employees[x].id == id {
            return Some(x);
        }
        x += 1;
    }
    None
}

/// Resolve every record's manager reference, promoting records with dangling
/// references to roots and collecting one diagnostic for each.
///
/// The returned relation is the repaired one: an entry is `Some(m)` exactly
/// when the record's manager id matches record `m`, and `None` for true roots
/// and repaired roots alike.
pub fn resolve_parents(employees: &Vec<Employee>) -> (res: (Vec<Option<usize>>, Vec<
    UnresolvedManager,
>))
    requires
        distinct_ids(employees@),
    ensures
        res.0@.len() == employees@.len(),
        wf_parents(res.0@),
        res.0@ == parent_view(employees@),
        forall|x: int| 0 <= x < employees@.len() ==> parent_link_ok(employees@, res.0@, x),
        res.1@ == diag_seq(employees@, employees@.len() as int),
{
    let ghost s = employees@;
    let n = employees.len();
    let mut parent: Vec<Option<usize>> = Vec::new();
    let mut diags: Vec<UnresolvedManager> = Vec::new();
    let mut x: usize = 0;
    while x < n
        invariant
            n == s.len(),
            s == employees@,
            distinct_ids(s),
            x <= n,
            parent@.len() == x,
            forall|y: int| 0 <= y < x ==> parent_link_ok(s, #[trigger] parent@, y),
            diags@ == diag_seq(s, x as int),
        decreases n - x,
    {
        let ghost parent0 = parent@;
        match employees[x].manager_id {
            None => {
                parent.push(None);
            }
            Some(mid) => {
                match index_of_id(employees, mid) {
                    Some(m) => {
                        parent.push(Some(m));
                    }
                    None => {
                        diags.push(
                            UnresolvedManager { employee_id: employees[x].id, manager_id: mid },
                        );
                        parent.push(None);
                        assert(dangling(s, x as int));
                    }
                }
            }
        }
        assert forall|y: int| 0 <= y < x + 1 implies parent_link_ok(s, #[trigger] parent@, y) by {
            if y < x {
                assert(parent_link_ok(s, parent0, y));
                assert(parent@[y] == parent0[y]);
            }
        }
        x += 1;
    }
    proof {
        lemma_links_canonical(s, parent@);
        assert(parent@ =~= parent_view(s));
    }
    (parent, diags)
}

/// The indices of all roots of the repaired relation, in index order.
pub fn roots_of(parent: &Vec<Option<usize>>) -> (roots: Vec<usize>)
    ensures
        roots@.no_duplicates(),
        forall|q: int| #![trigger roots@[q]] 0 <= q < roots@.len() ==> is_root(
            parent@,
            roots@[q] as int,
        ),
        forall|r: int| is_root(parent@, r) ==> roots@.contains(r as usize),
{
    let n = parent.len();
    let mut roots: Vec<usize> = Vec::new();
    let mut x: usize = 0;
    while x < n
        invariant
            n == parent@.len(),
            x <= n,
            forall|q1: int, q2: int| 0 <= q1 < q2 < roots@.len() ==> roots@[q1] < roots@[q2],
            forall|q: int| #![trigger roots@[q]] 0 <= q < roots@.len() ==> roots@[q] < x
                && is_root(parent@, roots@[q] as int),
            forall|r: int| 0 <= r < x && is_root(parent@, r) ==> roots@.contains(r as usize),
        decreases n - x,
    {
        let ghost roots0 = roots@;
        if parent[x].is_none() {
            roots.push(x);
        }
        assert forall|r: int| 0 <= r < x + 1 && is_root(parent@, r) implies roots@.contains(
            r as usize,
        ) by {
            if r < x {
                let q = choose|q: int| 0 <= q < roots0.len() && roots0[q] == r as usize;
                assert(roots@[q] == r as usize);
            } else {
                assert(roots@[roots@.len() - 1] == r as usize);
            }
        }
        x += 1;
    }
    assert forall|q1: int, q2: int|
        0 <= q1 < roots@.len() && 0 <= q2 < roots@.len() && q1 != q2 implies roots@[q1]
        != roots@[q2] by {
        if q1 < q2 {
            assert(roots@[q1] < roots@[q2]);
        } else {
            assert(roots@[q2] < roots@[q1]);
        }
    }
    roots
}

/// A cycle certificate over a chain of indices `w` and the matching ids:
/// each entry's manager is the next entry, and the last entry's manager
/// appears again somewhere in the chain.
pub open spec fn cycle_witness_chain(
    s: Seq<Employee>,
    p: Seq<Option<usize>>,
    ids: Seq<u64>,
    w: Seq<usize>,
) -> bool {
    &&& w.len() == ids.len()
    &&& w.len() >= 1
    &&& forall|q: int|
        #![trigger w[q]]
        0 <= q < w.len() ==> (w[q] as int) < s.len() && ids[q] == s[w[q] as int].id
    &&& forall|q: int|
        #![trigger w[q]]
        0 <= q < w.len() - 1 ==> step_up(p, w[q] as int) == Some(w[q + 1] as int)
    &&& exists|t: int|
        #![trigger w[t]]
        0 <= t < w.len() && step_up(p, w[w.len() - 1] as int) == Some(w[t] as int)
}

/// Some chain of indices certifies `ids` as a genuine cycle report.
pub open spec fn cycle_witness(s: Seq<Employee>, p: Seq<Option<usize>>, ids: Seq<u64>) -> bool {
    exists|w: Seq<usize>| cycle_witness_chain(s, p, ids, w)
}

/// Position of `x` in `chain`, if present.
fn find_in(chain: &Vec<usize>, x: usize) -> (r: Option<usize>)
    ensures
        match r {
            Some(t) => (t as int) < chain@.len() && chain@[t as int] == x,
            None => !chain@.contains(x),
        },
{
    let mut q: usize = 0;
    while q < chain.len()
        invariant
            q <= chain@.len(),
            forall|y: int| 0 <= y < q ==> chain@[y] != x,
        decreases chain@.len() - q,
    {
        if chain[q] == x {
            return Some(q);
        }
        q += 1;
    }
    proof {
        if chain@.contains(x) {
            let y = choose|y: int| 0 <= y < chain@.len() && chain@[y] == x;
            assert(chain@[y] != x);
        }
    }
    None
}

/// The employee ids at the given indices.
fn ids_of(employees: &Vec<Employee>, ixs: &Vec<usize>) -> (ids: Vec<u64>)
    requires
        forall|q: int|
            #![trigger ixs@[q]]
            0 <= q < ixs@.len() ==> (ixs@[q] as int) < employees@.len(),
    ensures
        ids@.len() == ixs@.len(),
        forall|q: int|
            #![trigger ids@[q]]
            0 <= q < ixs@.len() ==> ids@[q] == employees@[ixs@[q] as int].id,
{
    let mut ids: Vec<u64> = Vec::new();
    let mut q: usize = 0;
    while q < ixs.len()
        invariant
            q <= ixs@.len(),
            ids@.len() == q,
            forall|q2: int|
                #![trigger ixs@[q2]]
                0 <= q2 < ixs@.len() ==> (ixs@[q2] as int) < employees@.len(),
            forall|y: int| #![trigger ids@[y]] 0 <= y < q ==> ids@[y] == employees@[ixs@[y] as int].id,
        decreases ixs@.len() - q,
    {
        ids.push(employees[ixs[q]].id);
        q += 1;
    }
    ids
}

/// Walk every employee's manager chain once, linking each employee into its
/// manager's direct-report list and failing on the first cycle found.
///
/// On success the relation is certified a forest (no employee is its own
/// ancestor) and the returned lists hold exactly the direct reports of each
/// index. On failure the returned chain of ids certifies a genuine cycle and
/// no further processing is meaningful.
pub fn detect_cycles(employees: &Vec<Employee>, parent: &Vec<Option<usize>>) -> (res: Result<
    Vec<Vec<usize>>,
    CycleReport,
>)
    requires
        wf_parents(parent@),
        parent@.len() == employees@.len(),
    ensures
        match res {
            Ok(reports) => {
                &&& all_safe(parent@)
                &&& acyclic(parent@)
                &&& children_ok(parent@, rep_view(reports@))
            },
            Err(rep) => !acyclic(parent@) && cycle_witness(employees@, parent@, rep.chain@),
        },
{
    let ghost p = parent@;
    let ghost s = employees@;
    let n = parent.len();
    let mut processed: Vec<bool> = Vec::new();
    let mut reports: Vec<Vec<usize>> = Vec::new();
    let mut i: usize = 0;
    while i < n
        invariant
            processed@.len() == i,
            reports@.len() == i,
            i <= n,
            forall|j: int| 0 <= j < i ==> !(#[trigger] processed@[j]),
            forall|j: int| 0 <= j < i ==> (#[trigger] reports@[j])@ == Seq::<usize>::empty(),
        decreases n - i,
    {
        processed.push(false);
        reports.push(Vec::new());
        i += 1;
    }
    assert(children_partial(p, rep_view(reports@), processed@));

    let mut start: usize = 0;
    while start < n
        invariant
            n == p.len(),
            p == parent@,
            s == employees@,
            parent@.len() == employees@.len(),
            wf_parents(p),
            processed@.len() == n,
            reports@.len() == n,
            forall|j: int| #![trigger processed@[j]] 0 <= j < n && processed@[j] ==> safe(p, j),
            children_partial(p, rep_view(reports@), processed@),
            forall|j: int| 0 <= j < start ==> #[trigger] processed@[j],
            start <= n,
        decreases n - start,
    {
        let ghost processed0 = processed@;
        let mut chain: Vec<usize> = Vec::new();
        let mut cur: usize = start;
        loop
            invariant_except_break
                chain@.len() > 0 ==> step_up(p, chain@[chain@.len() - 1] as int) == Some(
                    cur as int,
                ),
            invariant
                n == p.len(),
                p == parent@,
                s == employees@,
                parent@.len() == employees@.len(),
                wf_parents(p),
                processed@.len() == n,
                reports@.len() == n,
                (cur as int) < n,
                chain@.no_duplicates(),
                forall|q: int|
                    #![trigger chain@[q]]
                    0 <= q < chain@.len() ==> (chain@[q] as int) < n && processed@[chain@[q] as int],
                forall|q: int|
                    #![trigger chain@[q]]
                    0 <= q < chain@.len() - 1 ==> step_up(p, chain@[q] as int) == Some(
                        chain@[q + 1] as int,
                    ),
                chain@.len() > 0 ==> chain@[0] == start,
                chain@.len() == 0 ==> cur == start,
                chain@.len() <= n,
                forall|j: int|
                    #![trigger processed@[j]]
                    0 <= j < n && processed@[j] ==> safe(p, j) || chain@.contains(j as usize),
                forall|j: int| 0 <= j < n && processed0[j] ==> #[trigger] processed@[j],
                children_partial(p, rep_view(reports@), processed@),
            ensures
                processed@.len() == n,
                reports@.len() == n,
                forall|j: int| #![trigger processed@[j]] 0 <= j < n && processed@[j] ==> safe(p, j),
                forall|j: int| 0 <= j < n && processed0[j] ==> #[trigger] processed@[j],
                processed@[start as int],
                children_partial(p, rep_view(reports@), processed@),
            decreases n - chain@.len(),
        {
            if processed[cur] {
                match find_in(&chain, cur) {
                    Some(t) => {
                        proof {
                            let ch = chain@;
                            let last = ch.len() - 1;
                            lemma_chain_walk(p, ch, t as int, (last - t) as nat);
                            assert(walk_up(p, cur as int, 0) == Some(cur as int));
                            assert(walk_up(p, ch[last] as int, 1) == Some(cur as int));
                            lemma_walk_split(p, ch[t as int] as int, (last - t) as nat, 1);
                            assert(walk_up(p, ch[t as int] as int, ((last - t) + 1) as nat)
                                == Some(ch[t as int] as int));
                            assert(is_ancestor(p, ch[t as int] as int, ch[t as int] as int));
                            assert(!acyclic(p));
                        }
                        let ids = ids_of(employees, &chain);
                        proof {
                            assert(step_up(p, chain@[chain@.len() - 1] as int) == Some(
                                chain@[t as int] as int,
                            ));
                            assert(cycle_witness_chain(s, p, ids@, chain@));
                        }
                        return Err(CycleReport { chain: ids });
                    }
                    None => {
                        proof {
                            assert(safe(p, cur as int));
                            if chain@.len() > 0 {
                                lemma_safe_step(p, chain@[chain@.len() - 1] as int);
                                lemma_chain_safe(p, chain@);
                            }
                            assert forall|j: int| 0 <= j < n && processed@[j] implies safe(
                                p,
                                j,
                            ) by {
                                if chain@.contains(j as usize) {
                                    let q = choose|q: int|
                                        0 <= q < chain@.len() && chain@[q] == j as usize;
                                    assert(safe(p, chain@[q] as int));
                                }
                            }
                            if chain@.len() > 0 {
                                assert(processed@[chain@[0] as int]);
                            }
                        }
                        break;
                    }
                }
            } else {
                proof {
                    if chain@.contains(cur) {
                        let q = choose|q: int| 0 <= q < chain@.len() && chain@[q] == cur;
                        assert(processed@[chain@[q] as int]);
                    }
                    crate::model::lemma_push_no_dup(chain@, cur);
                }
                let ghost chain0 = chain@;
                let ghost rep0 = rep_view(reports@);
                let ghost done_pre = processed@;
                chain.push(cur);
                processed[cur] = true;
                proof {
                    lemma_bounded_distinct_len(chain@, n as int);
                    assert forall|j: int|
                        0 <= j < n && processed@[j] implies safe(p, j) || chain@.contains(
                        j as usize,
                    ) by {
                        crate::model::lemma_push_contains(chain0, cur, j as usize);
                    }
                }
                match parent[cur] {
                    Some(m) => {
                        reports[m].push(cur);
                        proof {
                            assert(step_up(p, cur as int) == Some(m as int));
                            assert(rep_view(reports@)[m as int] == rep0[m as int].push(cur));
                            assert(!rep0[m as int].contains(cur));
                            crate::model::lemma_push_no_dup(rep0[m as int], cur);
                            assert forall|j: int|
                                0 <= j < p.len() implies (#[trigger] rep_view(
                                reports@,
                            )[j]).no_duplicates() by {
                                if j != m as int {
                                    assert(rep_view(reports@)[j] == rep0[j]);
                                }
                            }
                            assert forall|j: int, c: usize|
                                #![trigger rep_view(reports@)[j].contains(c)]
                                0 <= j < p.len() implies (rep_view(reports@)[j].contains(c)
                                <==> step_up(p, c as int) == Some(j) && processed@[c as int]) by {
                                if j == m as int {
                                    crate::model::lemma_push_contains(rep0[j], cur, c);
                                    assert(rep0[j].contains(c) <==> step_up(p, c as int) == Some(j)
                                        && done_pre[c as int]);
                                } else {
                                    assert(rep_view(reports@)[j] == rep0[j]);
                                }
                            }
                            assert(children_partial(p, rep_view(reports@), processed@));
                        }
                        cur = m;
                    }
                    None => {
                        proof {
                            assert(reaches_root(p, cur as int, 0));
                            assert(safe(p, cur as int));
                            lemma_chain_safe(p, chain@);
                            assert forall|j: int| 0 <= j < n && processed@[j] implies safe(
                                p,
                                j,
                            ) by {
                                if chain@.contains(j as usize) {
                                    let q = choose|q: int|
                                        0 <= q < chain@.len() && chain@[q] == j as usize;
                                    assert(safe(p, chain@[q] as int));
                                }
                            }
                            assert forall|j: int, c: usize|
                                #![trigger rep_view(reports@)[j].contains(c)]
                                0 <= j < p.len() implies (rep_view(reports@)[j].contains(c)
                                <==> step_up(p, c as int) == Some(j) && processed@[c as int]) by {
                                assert(rep_view(reports@)[j] == rep0[j]);
                                if c == cur {
                                    assert(step_up(p, c as int) is None);
                                }
                            }
                            assert(children_partial(p, rep_view(reports@), processed@));
                            assert(processed@[chain@[0] as int]);
                        }
                        break;
                    }
                }
            }
        }
        start += 1;
    }
    proof {
        assert forall|j: int| 0 <= j < p.len() implies safe(p, j) by {
            assert(processed@[j]);
        }
        assert(all_safe(p));
        lemma_all_safe_acyclic(p);
        assert forall|j: int, c: usize|
            #![trigger rep_view(reports@)[j].contains(c)]
            0 <= j < p.len() implies (rep_view(reports@)[j].contains(c) <==> step_up(p, c as int)
            == Some(j)) by {
            if step_up(p, c as int) == Some(j) {
                assert((c as int) < n);
                assert(processed@[c as int]);
            }
        }
        assert(children_ok(p, rep_view(reports@)));
    }
    Ok(reports)
}

} // verus!
