use vstd::prelude::*;

verus! {

/// What is reported about a node whose child count is implausibly large,
/// in place of a tree.
pub struct DiagnosticReport {
    pub role: u32,
    pub name: String,
    pub description: String,
    pub reported_children: u64,
    pub interfaces: Vec<String>,
    /// Size of one child reference times the reported child count.
    pub estimated_bytes: u128,
    pub application_name: String,
    pub application_role: u32,
}

/// Bytes that `count` child references of `reference_size` bytes each take.
pub fn estimated_footprint(reference_size: u64, count: u64) -> (r: u128)
    ensures
        r == reference_size as int * count as int,
{
    proof {
        assert(reference_size as int * count as int <= u64::MAX as int * u64::MAX as int) by (nonlinear_arith)
            requires
                reference_size <= u64::MAX,
                count <= u64::MAX,
        ;
    }
    (reference_size as u128) * (count as u128)
}

impl DiagnosticReport {
    /// The report of a node with the given description and reported child
    /// count; the footprint is computed from `reference_size`.
    pub fn new(
        role: u32,
        name: String,
        description: String,
        reported_children: u64,
        interfaces: Vec<String>,
        reference_size: u64,
        application_name: String,
        application_role: u32,
    ) -> (r: DiagnosticReport)
        ensures
            r.role == role,
            r.name@ == name@,
            r.description@ == description@,
            r.reported_children == reported_children,
            r.interfaces@ == interfaces@,
            r.estimated_bytes == reference_size as int * reported_children as int,
            r.application_name@ == application_name@,
            r.application_role == application_role,
    {
        let estimated_bytes = estimated_footprint(reference_size, reported_children);
        DiagnosticReport {
            role,
            name,
            description,
            reported_children,
            interfaces,
            estimated_bytes,
            application_name,
            application_role,
        }
    }
}

} // verus!
