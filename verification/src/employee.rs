use vstd::prelude::*;

verus! {

/// One flat employee record, as supplied by the surrounding record store and
/// as handed back after enrichment.
///
/// `recursive_reports` is derived data: it is 0 on ingestion and is set by the
/// pipeline to the number of employees in this record's subtree, the record
/// itself excluded.
#[derive(Clone, Debug, PartialEq)]
pub struct Employee {
    pub id: u64,
    pub manager_id: Option<u64>,
    pub cost_center: String,
    pub job_title: String,
    pub recursive_reports: u64,
}

/// Non-fatal diagnostic: an employee named a manager id that matches no
/// record. The employee is promoted to a root and processing continues.
#[derive(Clone, Copy, Debug, PartialEq, Eq, Structural)]
pub struct UnresolvedManager {
    /// The employee whose reference could not be resolved.
    pub employee_id: u64,
    /// The manager id that matches no record.
    pub manager_id: u64,
}

/// Fatal outcome: the manager relation contains a cycle, so the forest is not
/// well defined and no output is produced.
///
/// `chain` holds employee ids in the order they were visited while walking
/// upward through managers; the last id's manager is again one of the ids in
/// the chain.
#[derive(Clone, Debug, PartialEq)]
pub struct CycleReport {
    pub chain: Vec<u64>,
}

} // verus!
