//! The build-list view of one version: its recorded builds, the build a
//! caller asked to see in detail, and the output-stripped list served as
//! machine-readable data.

use vstd::prelude::*;

verus! {

/// One recorded build of a version.
pub struct Build {
    pub id: i32,
    pub rustc_version: String,
    pub docsrs_version: String,
    pub build_status: bool,
    pub build_time: i64,
    pub output: Option<String>,
}

/// Everything of a build except its output log.
pub open spec fn same_build_except_output(a: Build, b: Build) -> bool {
    a.id == b.id && a.rustc_version@ == b.rustc_version@ && a.docsrs_version@
        == b.docsrs_version@ && a.build_status == b.build_status && a.build_time == b.build_time
}

/// The first build carrying the requested id, if any.
pub fn find_build_details(builds: &Vec<Build>, req_id: i32) -> (r: Option<usize>)
    ensures
        match r {
            Some(i) => i < builds@.len() && builds@[i as int].id == req_id && (forall|j: int|
                0 <= j < i ==> builds@[j].id != req_id),
            None => forall|j: int| 0 <= j < builds@.len() ==> builds@[j].id != req_id,
        },
{
    let n = builds.len();
    let mut i: usize = 0;
    while i < n
        invariant
            i <= n,
            n == builds@.len(),
            forall|j: int| 0 <= j < i ==> builds@[j].id != req_id,
        decreases n - i,
    {
        if builds[i].id == req_id {
            return Some(i);
        }
        i += 1;
    }
    None
}

/// The same builds with every output log removed, as the machine-readable
/// list is served.
pub fn strip_build_outputs(builds: Vec<Build>) -> (r: Vec<Build>)
    ensures
        r@.len() == builds@.len(),
        forall|i: int|
            0 <= i < builds@.len() ==> same_build_except_output(#[trigger] r@[i], builds@[i])
                && r@[i].output is None,
{
    let n = builds.len();
    let mut r: Vec<Build> = Vec::new();
    let mut i: usize = 0;
    while i < n
        invariant
            i <= n,
            n == builds@.len(),
            r@.len() == i,
            forall|j: int|
                0 <= j < i ==> same_build_except_output(#[trigger] r@[j], builds@[j])
                    && r@[j].output is None,
        decreases n - i,
    {
        let b = &builds[i];
        r.push(
            Build {
                id: b.id,
                rustc_version: b.rustc_version.clone(),
                docsrs_version: b.docsrs_version.clone(),
                build_status: b.build_status,
                build_time: b.build_time,
                output: None,
            },
        );
        i += 1;
    }
    r
}

} // verus!
