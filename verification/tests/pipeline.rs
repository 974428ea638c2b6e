use org_reports::employee::Employee;
use org_reports::pipeline::run;

fn emp(id: u64, manager_id: Option<u64>) -> Employee {
    Employee {
        id,
        manager_id,
        cost_center: String::new(),
        job_title: String::new(),
        recursive_reports: 0,
    }
}

fn rr_of(out: &[Employee], id: u64) -> u64 {
    out.iter().find(|e| e.id == id).expect("id present").recursive_reports
}

fn mgr_of(out: &[Employee], id: u64) -> Option<u64> {
    out.iter().find(|e| e.id == id).expect("id present").manager_id
}

#[test]
fn scenario_two_levels() {
    let input = vec![emp(1, None), emp(2, Some(1)), emp(3, Some(1)), emp(4, Some(2))];
    let out = run(input).expect("forest input must succeed");
    assert_eq!(out.employees.len(), 4);
    assert!(out.diagnostics.is_empty());
    assert_eq!(rr_of(&out.employees, 1), 3);
    assert_eq!(rr_of(&out.employees, 2), 1);
    assert_eq!(rr_of(&out.employees, 3), 0);
    assert_eq!(rr_of(&out.employees, 4), 0);
    // Ranked by count descending: 1 (3), then 2 (1), then 3 and 4 (ties).
    let ids: Vec<u64> = out.employees.iter().map(|e| e.id).collect();
    assert_eq!(ids[0], 1);
    assert_eq!(ids[1], 2);
    assert!(ids == vec![1, 2, 3, 4] || ids == vec![1, 2, 4, 3]);
}

#[test]
fn scenario_dangling_manager() {
    let input = vec![emp(5, Some(99))];
    let out = run(input).expect("dangling reference is recoverable");
    assert_eq!(out.diagnostics.len(), 1);
    assert_eq!(out.diagnostics[0].employee_id, 5);
    assert_eq!(out.diagnostics[0].manager_id, 99);
    assert_eq!(mgr_of(&out.employees, 5), None);
    assert_eq!(rr_of(&out.employees, 5), 0);
}

#[test]
fn scenario_two_cycle() {
    let input = vec![emp(1, Some(2)), emp(2, Some(1))];
    let rep = run(input).expect_err("a cycle must abort the run");
    assert!(rep.chain.contains(&1));
    assert!(rep.chain.contains(&2));
    assert_eq!(rep.chain.len(), 2);
}

#[test]
fn self_manager_cycle() {
    let input = vec![emp(7, Some(7))];
    let rep = run(input).expect_err("a self-managing employee is a cycle");
    assert_eq!(rep.chain, vec![7]);
}

#[test]
fn cycle_below_a_root_still_aborts() {
    // 1 is a fine root, but 2 and 3 manage each other.
    let input = vec![emp(1, None), emp(2, Some(3)), emp(3, Some(2))];
    let rep = run(input).expect_err("a cycle anywhere must abort the run");
    assert!(rep.chain.contains(&2));
    assert!(rep.chain.contains(&3));
}

#[test]
fn empty_input() {
    let out = run(Vec::new()).expect("empty input is a valid forest");
    assert!(out.employees.is_empty());
    assert!(out.diagnostics.is_empty());
}

#[test]
fn single_root() {
    let out = run(vec![emp(42, None)]).expect("single root");
    assert_eq!(out.employees.len(), 1);
    assert_eq!(out.employees[0].id, 42);
    assert_eq!(out.employees[0].recursive_reports, 0);
    assert_eq!(out.employees[0].manager_id, None);
}

#[test]
fn deep_chain_counts_and_order() {
    // 5 reports to 4 reports to 3 reports to 2 reports to 1.
    let input = vec![
        emp(3, Some(2)),
        emp(1, None),
        emp(5, Some(4)),
        emp(2, Some(1)),
        emp(4, Some(3)),
    ];
    let out = run(input).expect("chain is a forest");
    assert_eq!(rr_of(&out.employees, 1), 4);
    assert_eq!(rr_of(&out.employees, 2), 3);
    assert_eq!(rr_of(&out.employees, 3), 2);
    assert_eq!(rr_of(&out.employees, 4), 1);
    assert_eq!(rr_of(&out.employees, 5), 0);
    let ids: Vec<u64> = out.employees.iter().map(|e| e.id).collect();
    assert_eq!(ids, vec![1, 2, 3, 4, 5]);
}

#[test]
fn counts_match_strict_ancestor_definition() {
    // For every employee, recursive_reports equals the number of employees
    // it is a strict ancestor of, counted by hand over the input relation.
    let input = vec![
        emp(10, None),
        emp(11, Some(10)),
        emp(12, Some(10)),
        emp(13, Some(11)),
        emp(14, Some(11)),
        emp(15, Some(13)),
        emp(20, None),
        emp(21, Some(20)),
    ];
    let relation = vec![
        (10u64, None),
        (11, Some(10u64)),
        (12, Some(10)),
        (13, Some(11)),
        (14, Some(11)),
        (15, Some(13)),
        (20, None),
        (21, Some(20)),
    ];
    let is_strict_ancestor = |a: u64, d: u64| -> bool {
        let mut cur = d;
        for _ in 0..relation.len() {
            let up = relation.iter().find(|(id, _)| *id == cur).unwrap().1;
            match up {
                Some(m) => {
                    if m == a {
                        return true;
                    }
                    cur = m;
                }
                None => return false,
            }
        }
        false
    };
    let out = run(input).expect("forest");
    for e in &out.employees {
        let expected = relation.iter().filter(|(d, _)| is_strict_ancestor(e.id, *d)).count();
        assert_eq!(e.recursive_reports as usize, expected, "id {}", e.id);
    }
}

#[test]
fn root_totals_cover_everyone() {
    // Sum over roots of (1 + recursive_reports) equals the employee count.
    let input = vec![
        emp(1, None),
        emp(2, Some(1)),
        emp(3, Some(1)),
        emp(4, Some(2)),
        emp(9, None),
        emp(8, Some(9)),
        emp(6, Some(44)), // dangling: becomes a third root
    ];
    let total = input.len() as u64;
    let out = run(input).expect("forest after repair");
    let sum: u64 = out
        .employees
        .iter()
        .filter(|e| e.manager_id.is_none())
        .map(|e| 1 + e.recursive_reports)
        .sum();
    assert_eq!(sum, total);
}

#[test]
fn dangling_reference_becomes_root() {
    let input = vec![emp(1, None), emp(2, Some(1)), emp(3, Some(77))];
    let out = run(input).expect("dangling is recoverable");
    assert_eq!(out.diagnostics.len(), 1);
    assert_eq!(out.diagnostics[0].employee_id, 3);
    assert_eq!(out.diagnostics[0].manager_id, 77);
    // The repaired record is indistinguishable from a true root.
    assert_eq!(mgr_of(&out.employees, 3), None);
    // Resolvable references are kept.
    assert_eq!(mgr_of(&out.employees, 2), Some(1));
    assert_eq!(mgr_of(&out.employees, 1), None);
}

#[test]
fn diagnostics_in_record_order() {
    let input = vec![emp(4, Some(100)), emp(2, None), emp(9, Some(200))];
    let out = run(input).expect("recoverable");
    assert_eq!(out.diagnostics.len(), 2);
    assert_eq!(out.diagnostics[0].employee_id, 4);
    assert_eq!(out.diagnostics[0].manager_id, 100);
    assert_eq!(out.diagnostics[1].employee_id, 9);
    assert_eq!(out.diagnostics[1].manager_id, 200);
}

#[test]
fn rerun_on_output_gives_same_counts() {
    // Running the pipeline again on its own output (the derived field is
    // recomputed from scratch) yields the same counts per id.
    let input = vec![
        emp(1, None),
        emp(2, Some(1)),
        emp(3, Some(1)),
        emp(4, Some(2)),
        emp(5, Some(66)), // repaired to a root on the first run
    ];
    let first = run(input).expect("forest");
    let again: Vec<Employee> = first
        .employees
        .iter()
        .map(|e| Employee { recursive_reports: 0, ..e.clone() })
        .collect();
    let second = run(again).expect("already-repaired input is still a forest");
    assert!(second.diagnostics.is_empty());
    for e in &first.employees {
        assert_eq!(rr_of(&second.employees, e.id), e.recursive_reports, "id {}", e.id);
    }
}

#[test]
fn ties_keep_the_whole_population() {
    let input = vec![emp(1, None), emp(2, None), emp(3, None)];
    let out = run(input).expect("three roots");
    let mut ids: Vec<u64> = out.employees.iter().map(|e| e.id).collect();
    ids.sort();
    assert_eq!(ids, vec![1, 2, 3]);
    for e in &out.employees {
        assert_eq!(e.recursive_reports, 0);
    }
}

#[test]
fn opaque_fields_ride_through() {
    let input = vec![
        Employee {
            id: 1,
            manager_id: None,
            cost_center: String::from("R&D"),
            job_title: String::from("CTO"),
            recursive_reports: 0,
        },
        Employee {
            id: 2,
            manager_id: Some(1),
            cost_center: String::from("Sales"),
            job_title: String::from("AE"),
            recursive_reports: 0,
        },
    ];
    let out = run(input).expect("forest");
    let boss = out.employees.iter().find(|e| e.id == 1).unwrap();
    assert_eq!(boss.cost_center, "R&D");
    assert_eq!(boss.job_title, "CTO");
    assert_eq!(boss.recursive_reports, 1);
    let report = out.employees.iter().find(|e| e.id == 2).unwrap();
    assert_eq!(report.cost_center, "Sales");
    assert_eq!(report.job_title, "AE");
}

#[test]
fn stale_derived_field_is_recomputed() {
    // Whatever the ingested records claim as recursive_reports is ignored.
    let mut a = emp(1, None);
    a.recursive_reports = 999;
    let mut b = emp(2, Some(1));
    b.recursive_reports = 7;
    let out = run(vec![a, b]).expect("forest");
    assert_eq!(rr_of(&out.employees, 1), 1);
    assert_eq!(rr_of(&out.employees, 2), 0);
}
