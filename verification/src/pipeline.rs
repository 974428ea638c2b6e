//! The whole run: resolve manager references, certify the forest, count
//! transitive reports, and rank the enriched records.

use crate::count::count_reports;
use crate::employee::{CycleReport, Employee, UnresolvedManager};
use crate::forest::{
    cycle_witness, dangling, detect_cycles, diag_seq, distinct_ids, mgr_index, parent_view,
    resolve_parents, resolves,
};
use crate::model::{acyclic, all_safe, desc_count};
use crate::rank::{rank_by_reports, sorted_desc};
use vstd::prelude::*;

verus! {

/// The successful result of a run: the enriched records in ranked order, and
/// one diagnostic per repaired dangling manager reference.
#[derive(Debug)]
pub struct RunOutput {
    pub employees: Vec<Employee>,
    pub diagnostics: Vec<UnresolvedManager>,
}

/// Record `x` as the run hands it back: the manager reference kept exactly
/// when it resolves (a repaired root loses it), and `recursive_reports` set to
/// the number of employees for which `x` is a strict ancestor.
pub open spec fn enriched_at(s: Seq<Employee>, x: int) -> Employee {
    Employee {
        id: s[x].id,
        manager_id: if resolves(s, x) {
            s[x].manager_id
        } else {
            None
        },
        cost_center: s[x].cost_center,
        job_title: s[x].job_title,
        recursive_reports: desc_count(parent_view(s), x) as u64,
    }
}

/// The whole table after enrichment, still in ingestion order.
pub open spec fn enriched_seq(s: Seq<Employee>) -> Seq<Employee> {
    Seq::new(s.len(), |x: int| enriched_at(s, x))
}

/// Run the full pipeline over one ingested table.
///
/// Duplicate ids are a caller error and are required away. The run succeeds
/// exactly when the repaired manager relation is cycle-free; it then returns
/// a permutation of the enriched table, ranked by `recursive_reports`
/// descending, together with the dangling-reference diagnostics in record
/// order. On a cycle it returns a report whose chain certifies the cycle, and
/// produces no output.
pub fn run(input: Vec<Employee>) -> (res: Result<RunOutput, CycleReport>)
    requires
        distinct_ids(input@),
    ensures
        res is Ok <==> acyclic(parent_view(input@)),
        match res {
            Ok(out) => {
                &&& all_safe(parent_view(input@))
                &&& out.employees@.len() == input@.len()
                &&& out.employees@.to_multiset() == enriched_seq(input@).to_multiset()
                &&& sorted_desc(out.employees@)
                &&& out.diagnostics@ == diag_seq(input@, input@.len() as int)
            },
            Err(rep) => cycle_witness(input@, parent_view(input@), rep.chain@),
        },
{
    let ghost s = input@;
    let (parent, diags) = resolve_parents(&input);
    let reports = match detect_cycles(&input, &parent) {
        Ok(r) => r,
        Err(rep) => {
            return Err(rep);
        },
    };
    let rr = count_reports(&parent, &reports);
    let n = parent.len();
    let mut rest = input;
    let mut enriched: Vec<Employee> = Vec::new();
    let mut x: usize = 0;
    proof {
        assert(rest@ =~= s.skip(0));
    }
    while x < n
        invariant
            n == s.len(),
            parent@ == parent_view(s),
            parent@.len() == n,
            rr@.len() == n,
            forall|j: int| 0 <= j < n ==> #[trigger] rr@[j] == desc_count(parent_view(s), j),
            x <= n,
            rest@ == s.skip(x as int),
            enriched@.len() == x,
            forall|y: int| 0 <= y < x ==> #[trigger] enriched@[y] == enriched_at(s, y),
        decreases n - x,
    {
        let ghost rest0 = rest@;
        let e = rest.remove(0);
        proof {
            assert(rest0[0] == s[x as int]);
            assert(rest@ =~= s.skip(x as int + 1));
        }
        let mgr = match parent[x] {
            Some(_) => e.manager_id,
            None => None,
        };
        proof {
            assert(parent@[x as int] == mgr_index(s, x as int));
            assert(parent@[x as int] is Some <==> resolves(s, x as int));
        }
        enriched.push(
            Employee {
                id: e.id,
                manager_id: mgr,
                cost_center: e.cost_center,
                job_title: e.job_title,
                recursive_reports: rr[x],
            },
        );
        assert(enriched@[x as int] == enriched_at(s, x as int));
        x += 1;
    }
    proof {
        assert(enriched@ =~= enriched_seq(s));
    }
    let ranked = rank_by_reports(enriched);
    Ok(RunOutput { employees: ranked, diagnostics: diags })
}

} // verus!
