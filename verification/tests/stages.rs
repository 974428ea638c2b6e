use org_reports::count::count_reports;
use org_reports::employee::Employee;
use org_reports::forest::{detect_cycles, index_of_id, resolve_parents, roots_of};
use org_reports::rank::rank_by_reports;

fn emp(id: u64, manager_id: Option<u64>) -> Employee {
    Employee {
        id,
        manager_id,
        cost_center: String::new(),
        job_title: String::new(),
        recursive_reports: 0,
    }
}

#[test]
fn index_of_id_scans_the_table() {
    let table = vec![emp(10, None), emp(20, Some(10)), emp(30, Some(10))];
    assert_eq!(index_of_id(&table, 10), Some(0));
    assert_eq!(index_of_id(&table, 20), Some(1));
    assert_eq!(index_of_id(&table, 30), Some(2));
    assert_eq!(index_of_id(&table, 40), None);
}

#[test]
fn resolve_parents_links_and_repairs() {
    let table = vec![emp(1, None), emp(2, Some(1)), emp(3, Some(55)), emp(4, Some(3))];
    let (parent, diags) = resolve_parents(&table);
    assert_eq!(parent, vec![None, Some(0), None, Some(2)]);
    assert_eq!(diags.len(), 1);
    assert_eq!(diags[0].employee_id, 3);
    assert_eq!(diags[0].manager_id, 55);
}

#[test]
fn roots_of_lists_every_root_once() {
    let parent: Vec<Option<usize>> = vec![None, Some(0), None, Some(2)];
    let roots = roots_of(&parent);
    assert_eq!(roots, vec![0, 2]);
}

#[test]
fn detect_cycles_populates_direct_reports() {
    let table = vec![emp(1, None), emp(2, Some(1)), emp(3, Some(1)), emp(4, Some(2))];
    let (parent, _) = resolve_parents(&table);
    let reports = detect_cycles(&table, &parent).expect("forest");
    let mut under_root = reports[0].clone();
    under_root.sort();
    assert_eq!(under_root, vec![1, 2]); // indices of ids 2 and 3
    assert_eq!(reports[1], vec![3]); // index of id 4
    assert!(reports[2].is_empty());
    assert!(reports[3].is_empty());
}

#[test]
fn detect_cycles_reports_the_chain() {
    let table = vec![emp(8, Some(9)), emp(9, Some(8))];
    let (parent, diags) = resolve_parents(&table);
    assert!(diags.is_empty());
    let rep = detect_cycles(&table, &parent).expect_err("two-cycle");
    assert!(rep.chain.contains(&8));
    assert!(rep.chain.contains(&9));
}

#[test]
fn count_reports_sizes_every_subtree() {
    let table = vec![emp(1, None), emp(2, Some(1)), emp(3, Some(1)), emp(4, Some(2))];
    let (parent, _) = resolve_parents(&table);
    let reports = detect_cycles(&table, &parent).expect("forest");
    let rr = count_reports(&parent, &reports);
    assert_eq!(rr, vec![3, 1, 0, 0]);
}

#[test]
fn rank_by_reports_orders_descending_and_keeps_records() {
    let mut a = emp(1, None);
    a.recursive_reports = 2;
    let mut b = emp(2, None);
    b.recursive_reports = 7;
    let mut c = emp(3, None);
    c.recursive_reports = 4;
    let out = rank_by_reports(vec![a, b, c]);
    let counts: Vec<u64> = out.iter().map(|e| e.recursive_reports).collect();
    assert_eq!(counts, vec![7, 4, 2]);
    let mut ids: Vec<u64> = out.iter().map(|e| e.id).collect();
    ids.sort();
    assert_eq!(ids, vec![1, 2, 3]);
}
