//! The relational catalog: package and version identity rows plus the fixed
//! set of dependent tables that reference a version, and the cascading
//! removal of a package or a single version.
//!
//! The dependent tables are statically enumerated — one field and one
//! [`DependentTable`] variant each, never built from caller-supplied
//! strings — and the cascade removes dependent rows before their parent
//! version and package rows, keeping every invariant of the catalog.

use crate::text::str_eq;
use vstd::prelude::*;

verus! {

/// One package identity row.
pub struct CrateRow {
    pub id: u32,
    pub name: String,
    pub latest_version_id: Option<u32>,
}

/// One version row, referencing its package by id.
pub struct ReleaseRow {
    pub id: u32,
    pub crate_id: u32,
    pub version: String,
    pub release_time: u64,
}

/// One row of a dependent table, referencing a version by foreign key.
pub struct DependentRow {
    pub release_id: u32,
    pub value: String,
}

/// One ownership row, referencing a package by id.
pub struct OwnerRow {
    pub crate_id: u32,
    pub owner: String,
}

/// One per-package sandbox override row.
pub struct OverrideRow {
    pub crate_name: String,
    pub max_memory_bytes: Option<u64>,
    pub timeout_seconds: Option<u64>,
    pub max_targets: Option<u64>,
}

/// The fixed, statically enumerated list of dependent tables, in the order
/// the cascade clears them.
#[derive(Clone, Copy, PartialEq, Eq, Structural, Debug)]
pub enum DependentTable {
    AuthorRels,
    KeywordRels,
    Builds,
    CompressionRels,
    DocCoverage,
}

/// What one cascade removes: a whole package, or one of its versions.
pub ghost enum DeleteTarget {
    Crate { cid: u32 },
    Version { cid: u32, version: Seq<char> },
}

/// The target a package id and an optional version select.
pub open spec fn target_of(cid: u32, version: Option<&str>) -> DeleteTarget {
    match version {
        None => DeleteTarget::Crate { cid },
        Some(v) => DeleteTarget::Version { cid, version: v@ },
    }
}

/// Whether the cascade removes this release.
pub open spec fn release_targeted(r: ReleaseRow, t: DeleteTarget) -> bool {
    match t {
        DeleteTarget::Crate { cid } => r.crate_id == cid,
        DeleteTarget::Version { cid, version } => r.crate_id == cid && r.version@ == version,
    }
}

/// Some release removed by the cascade carries the id `x`.
pub open spec fn has_target_id(rels: Seq<ReleaseRow>, t: DeleteTarget, x: u32) -> bool {
    exists|i: int| 0 <= i < rels.len() && release_targeted(rels[i], t) && rels[i].id == x
}

/// Whether the cascade removes this dependent row: its foreign key names a
/// release the cascade removes.
pub open spec fn dependent_targeted(d: DependentRow, rels: Seq<ReleaseRow>, t: DeleteTarget) -> bool {
    has_target_id(rels, t, d.release_id)
}

/// The releases the cascade leaves, in their original order.
pub open spec fn surviving_releases(rows: Seq<ReleaseRow>, t: DeleteTarget) -> Seq<ReleaseRow>
    decreases rows.len(),
{
    if rows.len() == 0 {
        Seq::empty()
    } else {
        let rest = surviving_releases(rows.drop_last(), t);
        if release_targeted(rows.last(), t) {
            rest
        } else {
            rest.push(rows.last())
        }
    }
}

/// The dependent rows the cascade leaves, in their original order.
pub open spec fn surviving_dependents(
    rows: Seq<DependentRow>,
    rels: Seq<ReleaseRow>,
    t: DeleteTarget,
) -> Seq<DependentRow>
    decreases rows.len(),
{
    if rows.len() == 0 {
        Seq::empty()
    } else {
        let rest = surviving_dependents(rows.drop_last(), rels, t);
        if dependent_targeted(rows.last(), rels, t) {
            rest
        } else {
            rest.push(rows.last())
        }
    }
}

/// The package rows left after removing the one with id `cid`.
pub open spec fn remaining_crates(rows: Seq<CrateRow>, cid: u32) -> Seq<CrateRow>
    decreases rows.len(),
{
    if rows.len() == 0 {
        Seq::empty()
    } else {
        let rest = remaining_crates(rows.drop_last(), cid);
        if rows.last().id == cid {
            rest
        } else {
            rest.push(rows.last())
        }
    }
}

/// The ownership rows left after removing those of package `cid`.
pub open spec fn remaining_owners(rows: Seq<OwnerRow>, cid: u32) -> Seq<OwnerRow>
    decreases rows.len(),
{
    if rows.len() == 0 {
        Seq::empty()
    } else {
        let rest = remaining_owners(rows.drop_last(), cid);
        if rows.last().crate_id == cid {
            rest
        } else {
            rest.push(rows.last())
        }
    }
}

/// The sandbox-override rows left after removing those named `name`.
pub open spec fn remaining_overrides(rows: Seq<OverrideRow>, name: Seq<char>) -> Seq<OverrideRow>
    decreases rows.len(),
{
    if rows.len() == 0 {
        Seq::empty()
    } else {
        let rest = remaining_overrides(rows.drop_last(), name);
        if rows.last().crate_name@ == name {
            rest
        } else {
            rest.push(rows.last())
        }
    }
}

/// The latest release of package `cid`: maximal release time, earliest row
/// on a tie.
pub open spec fn latest_release(rels: Seq<ReleaseRow>, cid: u32) -> Option<ReleaseRow>
    decreases rels.len(),
{
    if rels.len() == 0 {
        None
    } else {
        let prev = latest_release(rels.drop_last(), cid);
        let last = rels.last();
        if last.crate_id == cid {
            match prev {
                None => Some(last),
                Some(b) => if last.release_time > b.release_time {
                    Some(last)
                } else {
                    Some(b)
                },
            }
        } else {
            prev
        }
    }
}

/// The id the latest-version pointer of package `cid` should hold.
pub open spec fn latest_id(rels: Seq<ReleaseRow>, cid: u32) -> Option<u32> {
    match latest_release(rels, cid) {
        None => None,
        Some(r) => Some(r.id),
    }
}

/// The package rows with the latest-version pointer of `cid` set to `v`.
pub open spec fn set_latest(rows: Seq<CrateRow>, cid: u32, v: Option<u32>) -> Seq<CrateRow> {
    rows.map_values(
        |c: CrateRow|
            if c.id == cid {
                CrateRow { id: c.id, name: c.name, latest_version_id: v }
            } else {
                c
            },
    )
}

/// A package row with this name exists.
pub open spec fn has_crate_named(crates: Seq<CrateRow>, name: Seq<char>) -> bool {
    exists|i: int| 0 <= i < crates.len() && crates[i].name@ == name
}

/// The package row with this name (unambiguous while names are unique).
pub open spec fn crate_named(crates: Seq<CrateRow>, name: Seq<char>) -> CrateRow {
    crates[choose|i: int| 0 <= i < crates.len() && crates[i].name@ == name]
}

/// A package row with this id exists.
pub open spec fn has_crate_id(crates: Seq<CrateRow>, cid: u32) -> bool {
    exists|i: int| 0 <= i < crates.len() && crates[i].id == cid
}

/// The package row with this id (unambiguous while ids are unique).
pub open spec fn crate_with_id(crates: Seq<CrateRow>, cid: u32) -> CrateRow {
    crates[choose|i: int| 0 <= i < crates.len() && crates[i].id == cid]
}

/// A release row with this id exists.
pub open spec fn has_release_id(rels: Seq<ReleaseRow>, id: u32) -> bool {
    exists|i: int| 0 <= i < rels.len() && rels[i].id == id
}

/// A release row of package `cid` with this version exists.
pub open spec fn has_release_version(rels: Seq<ReleaseRow>, cid: u32, version: Seq<char>) -> bool {
    exists|i: int| 0 <= i < rels.len() && rels[i].crate_id == cid && rels[i].version@ == version
}

/// An override row with this package name exists.
pub open spec fn has_override_named(rows: Seq<OverrideRow>, name: Seq<char>) -> bool {
    exists|i: int| 0 <= i < rows.len() && rows[i].crate_name@ == name
}

/// The override row with this package name.
pub open spec fn override_named(rows: Seq<OverrideRow>, name: Seq<char>) -> OverrideRow {
    rows[choose|i: int| 0 <= i < rows.len() && rows[i].crate_name@ == name]
}

/// The author names of every release of package `cid`, in row order.
pub open spec fn authors_of(
    rows: Seq<DependentRow>,
    rels: Seq<ReleaseRow>,
    cid: u32,
) -> Seq<Seq<char>>
    decreases rows.len(),
{
    if rows.len() == 0 {
        Seq::empty()
    } else {
        let rest = authors_of(rows.drop_last(), rels, cid);
        if has_target_id(rels, DeleteTarget::Crate { cid }, rows.last().release_id) {
            rest.push(rows.last().value@)
        } else {
            rest
        }
    }
}

/// The catalog: identity tables, the five dependent tables of the cascade
/// list, ownership rows and sandbox overrides, plus the id counters the
/// backend would keep in its sequences.
pub struct Catalog {
    crates: Vec<CrateRow>,
    releases: Vec<ReleaseRow>,
    author_rels: Vec<DependentRow>,
    keyword_rels: Vec<DependentRow>,
    builds: Vec<DependentRow>,
    compression_rels: Vec<DependentRow>,
    doc_coverage: Vec<DependentRow>,
    owner_rels: Vec<OwnerRow>,
    sandbox_overrides: Vec<OverrideRow>,
    next_crate_id: u32,
    next_release_id: u32,
}

impl Catalog {
    /// The package rows.
    pub closed spec fn crates(self) -> Seq<CrateRow> {
        self.crates@
    }

    /// The version rows.
    pub closed spec fn releases(self) -> Seq<ReleaseRow> {
        self.releases@
    }

    /// The rows of one dependent table.
    pub closed spec fn dependents(self, t: DependentTable) -> Seq<DependentRow> {
        match t {
            DependentTable::AuthorRels => self.author_rels@,
            DependentTable::KeywordRels => self.keyword_rels@,
            DependentTable::Builds => self.builds@,
            DependentTable::CompressionRels => self.compression_rels@,
            DependentTable::DocCoverage => self.doc_coverage@,
        }
    }

    /// The ownership rows.
    pub closed spec fn owner_rels(self) -> Seq<OwnerRow> {
        self.owner_rels@
    }

    /// The sandbox-override rows.
    pub closed spec fn sandbox_overrides(self) -> Seq<OverrideRow> {
        self.sandbox_overrides@
    }

    /// The next unassigned package id.
    pub closed spec fn next_crate_id(self) -> u32 {
        self.next_crate_id
    }

    /// The next unassigned release id.
    pub closed spec fn next_release_id(self) -> u32 {
        self.next_release_id
    }

    /// The catalog's invariants: unique ids and names, every foreign key
    /// referencing a live row, and every latest-version pointer holding
    /// exactly the latest release of its package.
    pub closed spec fn wf(self) -> bool {
        &&& forall|i: int, j: int|
            0 <= i < j < self.crates@.len() ==> self.crates@[i].id != self.crates@[j].id
                && self.crates@[i].name@ != self.crates@[j].name@
        &&& forall|i: int| 0 <= i < self.crates@.len() ==> #[trigger] self.crates@[i].id
            < self.next_crate_id
        &&& forall|i: int, j: int|
            0 <= i < j < self.releases@.len() ==> self.releases@[i].id != self.releases@[j].id && !(
            self.releases@[i].crate_id == self.releases@[j].crate_id && self.releases@[i].version@
                == self.releases@[j].version@)
        &&& forall|i: int| 0 <= i < self.releases@.len() ==> #[trigger] self.releases@[i].id
            < self.next_release_id
        &&& forall|i: int|
            0 <= i < self.releases@.len() ==> has_crate_id(
                self.crates@,
                #[trigger] self.releases@[i].crate_id,
            )
        &&& forall|t: DependentTable, i: int|
            0 <= i < self.dependents(t).len() ==> has_release_id(
                self.releases@,
                #[trigger] self.dependents(t)[i].release_id,
            )
        &&& forall|i: int|
            0 <= i < self.owner_rels@.len() ==> has_crate_id(
                self.crates@,
                #[trigger] self.owner_rels@[i].crate_id,
            )
        &&& forall|i: int, j: int|
            0 <= i < j < self.sandbox_overrides@.len() ==> self.sandbox_overrides@[i].crate_name@
                != self.sandbox_overrides@[j].crate_name@
        &&& forall|i: int|
            0 <= i < self.crates@.len() ==> (#[trigger] self.crates@[i]).latest_version_id
                == latest_id(self.releases@, self.crates@[i].id)
    }

    /// An empty catalog.
    pub fn new() -> (r: Catalog)
        ensures
            r.wf(),
            r.crates() == Seq::<CrateRow>::empty(),
            r.releases() == Seq::<ReleaseRow>::empty(),
            forall|t: DependentTable| #[trigger] r.dependents(t) == Seq::<DependentRow>::empty(),
            r.owner_rels() == Seq::<OwnerRow>::empty(),
            r.sandbox_overrides() == Seq::<OverrideRow>::empty(),
    {
        Catalog {
            crates: Vec::new(),
            releases: Vec::new(),
            author_rels: Vec::new(),
            keyword_rels: Vec::new(),
            builds: Vec::new(),
            compression_rels: Vec::new(),
            doc_coverage: Vec::new(),
            owner_rels: Vec::new(),
            sandbox_overrides: Vec::new(),
            next_crate_id: 1,
            next_release_id: 1,
        }
    }

    /// Whether a package row with this name exists.
    pub fn crate_exists(&self, name: &str) -> (r: bool)
        ensures
            r == has_crate_named(self.crates(), name@),
    {
        match find_crate_by_name(&self.crates, name) {
            Some(_) => true,
            None => {
                proof {
                    if has_crate_named(self.crates@, name@) {
                        let i = choose|i: int|
                            0 <= i < self.crates@.len() && self.crates@[i].name@ == name@;
                        assert(self.crates@[i].name@ != name@);
                    }
                }
                false
            },
        }
    }

    /// Whether a release row with this id exists.
    pub fn release_exists(&self, id: u32) -> (r: bool)
        ensures
            r == has_release_id(self.releases(), id),
    {
        let n = self.releases.len();
        let mut i: usize = 0;
        while i < n
            invariant
                i <= n,
                n == self.releases@.len(),
                forall|j: int| 0 <= j < i ==> self.releases@[j].id != id,
            decreases n - i,
        {
            if self.releases[i].id == id {
                return true;
            }
            i += 1;
        }
        proof {
            if has_release_id(self.releases@, id) {
                let j = choose|j: int| 0 <= j < self.releases@.len() && self.releases@[j].id == id;
                assert(self.releases@[j].id != id);
            }
        }
        false
    }

    /// The id of the package row with this name, if one exists.
    pub fn crate_id_by_name(&self, name: &str) -> (r: Option<u32>)
        requires
            self.wf(),
        ensures
            match r {
                Some(id) => has_crate_named(self.crates(), name@) && crate_named(
                    self.crates(),
                    name@,
                ).id == id,
                None => !has_crate_named(self.crates(), name@),
            },
    {
        match find_crate_by_name(&self.crates, name) {
            Some(i) => {
                proof {
                    let j = choose|j: int|
                        0 <= j < self.crates@.len() && self.crates@[j].name@ == name@;
                    if j != i as int {
                        assert(self.crates@[j].name@ != self.crates@[i as int].name@);
                    }
                }
                Some(self.crates[i].id)
            },
            None => {
                proof {
                    if has_crate_named(self.crates@, name@) {
                        let i = choose|i: int|
                            0 <= i < self.crates@.len() && self.crates@[i].name@ == name@;
                        assert(self.crates@[i].name@ != name@);
                    }
                }
                None
            },
        }
    }

    /// The latest-version pointer of the package with this id, if the
    /// package exists.
    pub fn latest_version_id_of(&self, crate_id: u32) -> (r: Option<u32>)
        requires
            self.wf(),
        ensures
            r == if has_crate_id(self.crates(), crate_id) {
                crate_with_id(self.crates(), crate_id).latest_version_id
            } else {
                None
            },
    {
        let n = self.crates.len();
        let mut i: usize = 0;
        while i < n
            invariant
                i <= n,
                n == self.crates@.len(),
                self.wf(),
                forall|j: int| 0 <= j < i ==> self.crates@[j].id != crate_id,
            decreases n - i,
        {
            if self.crates[i].id == crate_id {
                proof {
                    let j = choose|j: int|
                        0 <= j < self.crates@.len() && self.crates@[j].id == crate_id;
                    if j != i as int {
                        assert(self.crates@[j].id != self.crates@[i as int].id);
                    }
                }
                return self.crates[i].latest_version_id;
            }
            i += 1;
        }
        proof {
            if has_crate_id(self.crates@, crate_id) {
                let j = choose|j: int| 0 <= j < self.crates@.len() && self.crates@[j].id == crate_id;
                assert(self.crates@[j].id != crate_id);
            }
        }
        None
    }

    /// Create the package row for this name unless it exists, and return
    /// its id.
    pub fn register_crate(&mut self, name: &str) -> (id: u32)
        requires
            old(self).wf(),
            old(self).next_crate_id() < u32::MAX,
        ensures
            final(self).wf(),
            has_crate_named(old(self).crates(), name@) ==> *final(self) == *old(self) && crate_named(
                old(self).crates(),
                name@,
            ).id == id,
            !has_crate_named(old(self).crates(), name@) ==> {
                &&& final(self).crates().len() == old(self).crates().len() + 1
                &&& final(self).crates().drop_last() == old(self).crates()
                &&& final(self).crates().last().id == id
                &&& final(self).crates().last().name@ == name@
                &&& final(self).crates().last().latest_version_id is None
                &&& id == old(self).next_crate_id()
                &&& final(self).releases() == old(self).releases()
                &&& forall|t: DependentTable| #[trigger] final(self).dependents(t) == old(
                    self,
                ).dependents(t)
                &&& final(self).owner_rels() == old(self).owner_rels()
                &&& final(self).sandbox_overrides() == old(self).sandbox_overrides()
            },
    {
        match find_crate_by_name(&self.crates, name) {
            Some(i) => {
                proof {
                    let j = choose|j: int|
                        0 <= j < self.crates@.len() && self.crates@[j].name@ == name@;
                    if j != i as int {
                        assert(self.crates@[j].name@ != self.crates@[i as int].name@);
                    }
                }
                self.crates[i].id
            },
            None => {
                let id = self.next_crate_id;
                let row = CrateRow { id, name: name.to_owned(), latest_version_id: None };
                self.crates.push(row);
                self.next_crate_id = id + 1;
                proof {
                    let post = self.crates@;
                    let pre = old(self).crates@;
                    assert(post.drop_last() =~= pre);
                    assert forall|i2: int| 0 <= i2 < self.releases@.len() implies (
                    #[trigger] self.releases@[i2]).crate_id != id by {
                        assert(has_crate_id(pre, self.releases@[i2].crate_id));
                        let c = choose|c: int|
                            0 <= c < pre.len() && pre[c].id == self.releases@[i2].crate_id;
                        assert(pre[c].id < id);
                    }
                    lemma_latest_none(self.releases@, id, old(self).next_crate_id);
                    assert forall|t: DependentTable, i2: int|
                        0 <= i2 < final(self).dependents(t).len() implies has_release_id(
                        final(self).releases(),
                        #[trigger] final(self).dependents(t)[i2].release_id,
                    ) by {
                        assert(final(self).dependents(t) == old(self).dependents(t));
                        assert(has_release_id(
                            old(self).releases(),
                            old(self).dependents(t)[i2].release_id,
                        ));
                    }
                    assert forall|i: int| 0 <= i < self.releases@.len() implies has_crate_id(
                        post,
                        #[trigger] self.releases@[i].crate_id,
                    ) by {
                        let c = choose|c: int|
                            0 <= c < pre.len() && pre[c].id == self.releases@[i].crate_id;
                        assert(post[c].id == self.releases@[i].crate_id);
                    }
                    assert forall|i: int| 0 <= i < self.owner_rels@.len() implies has_crate_id(
                        post,
                        #[trigger] self.owner_rels@[i].crate_id,
                    ) by {
                        let c = choose|c: int|
                            0 <= c < pre.len() && pre[c].id == self.owner_rels@[i].crate_id;
                        assert(post[c].id == self.owner_rels@[i].crate_id);
                    }
                }
                id
            },
        }
    }

    /// Insert a release of an existing package under a fresh version
    /// string, and point the package's latest-version pointer at the
    /// latest of its releases.
    pub fn insert_release(&mut self, crate_id: u32, version: &str, release_time: u64) -> (id: u32)
        requires
            old(self).wf(),
            old(self).next_release_id() < u32::MAX,
            has_crate_id(old(self).crates(), crate_id),
            !has_release_version(old(self).releases(), crate_id, version@),
        ensures
            final(self).wf(),
            final(self).releases().len() == old(self).releases().len() + 1,
            final(self).releases().drop_last() == old(self).releases(),
            final(self).releases().last().id == id,
            final(self).releases().last().crate_id == crate_id,
            final(self).releases().last().version@ == version@,
            final(self).releases().last().release_time == release_time,
            id == old(self).next_release_id(),
            final(self).crates() == set_latest(
                old(self).crates(),
                crate_id,
                latest_id(final(self).releases(), crate_id),
            ),
            forall|t: DependentTable| #[trigger] final(self).dependents(t) == old(self).dependents(
                t,
            ),
            final(self).owner_rels() == old(self).owner_rels(),
            final(self).sandbox_overrides() == old(self).sandbox_overrides(),
    {
        let id = self.next_release_id;
        let row = ReleaseRow { id, crate_id, version: version.to_owned(), release_time };
        self.releases.push(row);
        self.next_release_id = id + 1;
        proof {
            assert(self.releases@.drop_last() =~= old(self).releases@);
        }
        let latest = compute_latest(&self.releases, crate_id);
        refresh_latest(&mut self.crates, crate_id, latest);
        proof {
            let rels = self.releases@;
            let pre_rels = old(self).releases@;
            let pre = old(self).crates@;
            let post = self.crates@;
            assert forall|i: int| 0 <= i < post.len() implies (#[trigger] post[i]).latest_version_id
                == latest_id(rels, post[i].id) by {
                assert(post[i].id == pre[i].id);
                if pre[i].id != crate_id {
                    lemma_latest_push_other(pre_rels, rels.last(), pre[i].id);
                    assert(post[i].latest_version_id == pre[i].latest_version_id);
                }
            }
            assert forall|i: int| 0 <= i < rels.len() implies has_crate_id(
                post,
                #[trigger] rels[i].crate_id,
            ) by {
                if i < pre_rels.len() {
                    assert(rels[i] == pre_rels[i]);
                    let c = choose|c: int| 0 <= c < pre.len() && pre[c].id == rels[i].crate_id;
                    assert(post[c].id == rels[i].crate_id);
                } else {
                    let c = choose|c: int| 0 <= c < pre.len() && pre[c].id == crate_id;
                    assert(post[c].id == crate_id);
                }
            }
            assert forall|i: int| 0 <= i < self.owner_rels@.len() implies has_crate_id(
                post,
                #[trigger] self.owner_rels@[i].crate_id,
            ) by {
                let c = choose|c: int|
                    0 <= c < pre.len() && pre[c].id == self.owner_rels@[i].crate_id;
                assert(post[c].id == self.owner_rels@[i].crate_id);
            }
            assert forall|t: DependentTable, i: int|
                0 <= i < self.dependents(t).len() implies has_release_id(
                rels,
                #[trigger] self.dependents(t)[i].release_id,
            ) by {
                assert(self.dependents(t) == old(self).dependents(t));
                assert(has_release_id(pre_rels, old(self).dependents(t)[i].release_id));
                let j = choose|j: int|
                    0 <= j < pre_rels.len() && pre_rels[j].id == self.dependents(t)[i].release_id;
                assert(rels[j].id == self.dependents(t)[i].release_id);
            }
        }
        id
    }

    /// Add one row to one of the five dependent tables, referencing an
    /// existing release.
    pub fn add_dependent_row(&mut self, table: DependentTable, release_id: u32, value: &str)
        requires
            old(self).wf(),
            has_release_id(old(self).releases(), release_id),
        ensures
            final(self).wf(),
            final(self).dependents(table).len() == old(self).dependents(table).len() + 1,
            final(self).dependents(table).drop_last() == old(self).dependents(table),
            final(self).dependents(table).last().release_id == release_id,
            final(self).dependents(table).last().value@ == value@,
            forall|t2: DependentTable|
                t2 != table ==> #[trigger] final(self).dependents(t2) == old(self).dependents(t2),
            final(self).crates() == old(self).crates(),
            final(self).releases() == old(self).releases(),
            final(self).owner_rels() == old(self).owner_rels(),
            final(self).sandbox_overrides() == old(self).sandbox_overrides(),
    {
        let row = DependentRow { release_id, value: value.to_owned() };
        match table {
            DependentTable::AuthorRels => self.author_rels.push(row),
            DependentTable::KeywordRels => self.keyword_rels.push(row),
            DependentTable::Builds => self.builds.push(row),
            DependentTable::CompressionRels => self.compression_rels.push(row),
            DependentTable::DocCoverage => self.doc_coverage.push(row),
        }
        proof {
            assert(final(self).dependents(table).drop_last() =~= old(self).dependents(table));
            assert forall|t: DependentTable, i: int|
                0 <= i < final(self).dependents(t).len() implies has_release_id(
                final(self).releases(),
                #[trigger] final(self).dependents(t)[i].release_id,
            ) by {
                if t == table {
                    if i < old(self).dependents(table).len() {
                        assert(final(self).dependents(t)[i] == old(self).dependents(t)[i]);
                        assert(has_release_id(
                            old(self).releases(),
                            old(self).dependents(t)[i].release_id,
                        ));
                    } else {
                        assert(final(self).dependents(t)[i].release_id == release_id);
                    }
                } else {
                    assert(final(self).dependents(t) == old(self).dependents(t));
                    assert(has_release_id(
                        old(self).releases(),
                        old(self).dependents(t)[i].release_id,
                    ));
                }
            }
        }
    }

    /// Add one ownership row for an existing package.
    pub fn add_owner(&mut self, crate_id: u32, owner: &str)
        requires
            old(self).wf(),
            has_crate_id(old(self).crates(), crate_id),
        ensures
            final(self).wf(),
            final(self).owner_rels().len() == old(self).owner_rels().len() + 1,
            final(self).owner_rels().drop_last() == old(self).owner_rels(),
            final(self).owner_rels().last().crate_id == crate_id,
            final(self).owner_rels().last().owner@ == owner@,
            final(self).crates() == old(self).crates(),
            final(self).releases() == old(self).releases(),
            forall|t: DependentTable| #[trigger] final(self).dependents(t) == old(self).dependents(
                t,
            ),
            final(self).sandbox_overrides() == old(self).sandbox_overrides(),
    {
        let row = OwnerRow { crate_id, owner: owner.to_owned() };
        self.owner_rels.push(row);
        proof {
            assert(final(self).owner_rels@.drop_last() =~= old(self).owner_rels@);
            assert forall|t: DependentTable, i: int|
                0 <= i < final(self).dependents(t).len() implies has_release_id(
                final(self).releases(),
                #[trigger] final(self).dependents(t)[i].release_id,
            ) by {
                assert(final(self).dependents(t) == old(self).dependents(t));
                assert(has_release_id(
                    old(self).releases(),
                    old(self).dependents(t)[i].release_id,
                ));
            }
        }
    }

    /// Record the sandbox-override row for a package name not yet present.
    pub fn set_sandbox_override(&mut self, row: OverrideRow)
        requires
            old(self).wf(),
            !has_override_named(old(self).sandbox_overrides(), row.crate_name@),
        ensures
            final(self).wf(),
            final(self).sandbox_overrides() == old(self).sandbox_overrides().push(row),
            final(self).crates() == old(self).crates(),
            final(self).releases() == old(self).releases(),
            forall|t: DependentTable| #[trigger] final(self).dependents(t) == old(self).dependents(
                t,
            ),
            final(self).owner_rels() == old(self).owner_rels(),
    {
        proof {
            assert forall|i: int| 0 <= i < old(self).sandbox_overrides@.len() implies old(
                self,
            ).sandbox_overrides@[i].crate_name@ != row.crate_name@ by {
                if old(self).sandbox_overrides@[i].crate_name@ == row.crate_name@ {
                    assert(has_override_named(old(self).sandbox_overrides@, row.crate_name@));
                }
            }
        }
        self.sandbox_overrides.push(row);
        proof {
            assert forall|t: DependentTable, i: int|
                0 <= i < final(self).dependents(t).len() implies has_release_id(
                final(self).releases(),
                #[trigger] final(self).dependents(t)[i].release_id,
            ) by {
                assert(final(self).dependents(t) == old(self).dependents(t));
                assert(has_release_id(
                    old(self).releases(),
                    old(self).dependents(t)[i].release_id,
                ));
            }
        }
    }

    /// The sandbox-override row recorded for this package name, if any.
    pub fn sandbox_override_for(&self, name: &str) -> (r: Option<&OverrideRow>)
        requires
            self.wf(),
        ensures
            match r {
                Some(o) => has_override_named(self.sandbox_overrides(), name@) && *o
                    == override_named(self.sandbox_overrides(), name@),
                None => !has_override_named(self.sandbox_overrides(), name@),
            },
    {
        let n = self.sandbox_overrides.len();
        let mut i: usize = 0;
        while i < n
            invariant
                i <= n,
                n == self.sandbox_overrides@.len(),
                self.wf(),
                forall|j: int| 0 <= j < i ==> self.sandbox_overrides@[j].crate_name@ != name@,
            decreases n - i,
        {
            if str_eq(self.sandbox_overrides[i].crate_name.as_str(), name) {
                proof {
                    let j = choose|j: int|
                        0 <= j < self.sandbox_overrides@.len()
                            && self.sandbox_overrides@[j].crate_name@ == name@;
                    if j != i as int {
                        assert(self.sandbox_overrides@[j].crate_name@
                            != self.sandbox_overrides@[i as int].crate_name@);
                    }
                }
                return Some(&self.sandbox_overrides[i]);
            }
            i += 1;
        }
        proof {
            if has_override_named(self.sandbox_overrides@, name@) {
                let j = choose|j: int|
                    0 <= j < self.sandbox_overrides@.len()
                        && self.sandbox_overrides@[j].crate_name@ == name@;
                assert(self.sandbox_overrides@[j].crate_name@ != name@);
            }
        }
        None
    }

    /// The author names recorded for the releases of package `cid`, in row
    /// order.
    pub fn authors(&self, cid: u32) -> (r: Vec<String>)
        ensures
            r.deep_view() == authors_of(self.dependents(DependentTable::AuthorRels), self.releases(), cid),
    {
        let n = self.author_rels.len();
        let mut r: Vec<String> = Vec::new();
        let mut i: usize = 0;
        proof {
            assert(self.author_rels@.subrange(0, 0) =~= Seq::<DependentRow>::empty());
        }
        while i < n
            invariant
                i <= n,
                n == self.author_rels@.len(),
                r.deep_view() == authors_of(
                    self.author_rels@.subrange(0, i as int),
                    self.releases@,
                    cid,
                ),
            decreases n - i,
        {
            let ghost pre = self.author_rels@.subrange(0, i as int);
            let ghost post = self.author_rels@.subrange(0, (i + 1) as int);
            proof {
                assert(post.drop_last() =~= pre);
                assert(post.last() == self.author_rels@[i as int]);
            }
            let d = &self.author_rels[i];
            if release_of_crate(&self.releases, d.release_id, cid) {
                let ghost prev = r.deep_view();
                r.push(d.value.clone());
                proof {
                    assert(r.deep_view() =~= prev.push(d.value@));
                }
            }
            i += 1;
        }
        proof {
            assert(self.author_rels@.subrange(0, n as int) =~= self.author_rels@);
        }
        r
    }
}

fn find_crate_by_name(crates: &Vec<CrateRow>, name: &str) -> (r: Option<usize>)
    ensures
        match r {
            Some(i) => i < crates@.len() && crates@[i as int].name@ == name@,
            None => forall|j: int| 0 <= j < crates@.len() ==> crates@[j].name@ != name@,
        },
{
    let n = crates.len();
    let mut i: usize = 0;
    while i < n
        invariant
            i <= n,
            n == crates@.len(),
            forall|j: int| 0 <= j < i ==> crates@[j].name@ != name@,
        decreases n - i,
    {
        if str_eq(crates[i].name.as_str(), name) {
            return Some(i);
        }
        i += 1;
    }
    None
}

/// Whether the release with id `id` exists and belongs to package `cid`.
fn release_of_crate(rels: &Vec<ReleaseRow>, id: u32, cid: u32) -> (r: bool)
    ensures
        r == has_target_id(rels@, DeleteTarget::Crate { cid }, id),
{
    let n = rels.len();
    let mut i: usize = 0;
    while i < n
        invariant
            i <= n,
            n == rels@.len(),
            forall|j: int|
                0 <= j < i ==> !(release_targeted(
                    #[trigger] rels@[j],
                    DeleteTarget::Crate { cid },
                ) && rels@[j].id == id),
        decreases n - i,
    {
        if rels[i].crate_id == cid && rels[i].id == id {
            return true;
        }
        i += 1;
    }
    proof {
        if has_target_id(rels@, DeleteTarget::Crate { cid }, id) {
            let j = choose|j: int|
                0 <= j < rels@.len() && release_targeted(rels@[j], DeleteTarget::Crate { cid })
                    && rels@[j].id == id;
            assert(!(release_targeted(rels@[j], DeleteTarget::Crate { cid }) && rels@[j].id == id));
        }
    }
    false
}

/// The latest release of a package that has none stays absent.
proof fn lemma_latest_none(rels: Seq<ReleaseRow>, cid: u32, bound: u32)
    requires
        forall|i: int| 0 <= i < rels.len() ==> (#[trigger] rels[i]).crate_id != cid,
    ensures
        latest_release(rels, cid) is None,
    decreases rels.len(),
{
    if rels.len() > 0 {
        lemma_latest_none(rels.drop_last(), cid, bound);
    }
}

/// Pushing a release of another package does not move a latest pointer.
proof fn lemma_latest_push_other(rels: Seq<ReleaseRow>, r: ReleaseRow, cid: u32)
    requires
        r.crate_id != cid,
    ensures
        latest_release(rels.push(r), cid) == latest_release(rels, cid),
{
    assert(rels.push(r).drop_last() =~= rels);
    assert(rels.push(r).last() == r);
}

/// The latest release of package `cid` among `rels`, by scanning in row
/// order and replacing only on a strictly later time.
fn compute_latest(rels: &Vec<ReleaseRow>, cid: u32) -> (r: Option<u32>)
    ensures
        r == latest_id(rels@, cid),
{
    let n = rels.len();
    let mut best_idx: Option<usize> = None;
    let mut i: usize = 0;
    proof {
        assert(rels@.subrange(0, 0) =~= Seq::<ReleaseRow>::empty());
    }
    while i < n
        invariant
            i <= n,
            n == rels@.len(),
            match best_idx {
                None => latest_release(rels@.subrange(0, i as int), cid) is None,
                Some(b) => b < i && latest_release(rels@.subrange(0, i as int), cid) == Some(
                    rels@[b as int],
                ),
            },
        decreases n - i,
    {
        let ghost pre = rels@.subrange(0, i as int);
        let ghost post = rels@.subrange(0, (i + 1) as int);
        proof {
            assert(post.drop_last() =~= pre);
            assert(post.last() == rels@[i as int]);
        }
        if rels[i].crate_id == cid {
            match best_idx {
                None => {
                    best_idx = Some(i);
                },
                Some(b) => {
                    if rels[i].release_time > rels[b].release_time {
                        best_idx = Some(i);
                    }
                },
            }
        }
        i += 1;
    }
    proof {
        assert(rels@.subrange(0, n as int) =~= rels@);
    }
    match best_idx {
        None => None,
        Some(b) => Some(rels[b].id),
    }
}

/// Set the latest-version pointer of package `cid` to `v`.
fn refresh_latest(crates: &mut Vec<CrateRow>, cid: u32, v: Option<u32>)
    ensures
        final(crates)@ == set_latest(old(crates)@, cid, v),
{
    let ghost pre = old(crates)@;
    let n = crates.len();
    let mut i: usize = 0;
    while i < n
        invariant
            i <= n,
            n == crates@.len(),
            crates@.len() == pre.len(),
            forall|j: int| i <= j < pre.len() ==> crates@[j] == pre[j],
            forall|j: int|
                0 <= j < i ==> crates@[j] == (if pre[j].id == cid {
                    CrateRow { id: pre[j].id, name: pre[j].name, latest_version_id: v }
                } else {
                    pre[j]
                }),
        decreases n - i,
    {
        if crates[i].id == cid {
            let name = crates[i].name.clone();
            let id = crates[i].id;
            let slot = vstd::std_specs::vec::vec_index_mut(crates, i);
            *slot = CrateRow { id, name, latest_version_id: v };
        }
        i += 1;
    }
    proof {
        assert(crates@ =~= set_latest(pre, cid, v));
    }
}

/// What the metadata phase of a version deletion leaves: dependent rows of
/// the targeted release gone from every table of the cascade list, the
/// release row gone, and the package's latest-version pointer recomputed.
pub open spec fn version_cascade_applied(
    pre: Catalog,
    post: Catalog,
    cid: u32,
    version: Seq<char>,
) -> bool {
    let t = DeleteTarget::Version { cid, version };
    &&& post.releases() == surviving_releases(pre.releases(), t)
    &&& forall|tb: DependentTable| #[trigger] post.dependents(tb) == surviving_dependents(
        pre.dependents(tb),
        pre.releases(),
        t,
    )
    &&& post.crates() == set_latest(pre.crates(), cid, latest_id(post.releases(), cid))
    &&& post.owner_rels() == pre.owner_rels()
    &&& post.sandbox_overrides() == pre.sandbox_overrides()
    &&& post.next_crate_id() == pre.next_crate_id()
    &&& post.next_release_id() == pre.next_release_id()
}

/// What the metadata phase of a package deletion leaves: every dependent
/// row of the package's releases gone, then its releases, ownership rows,
/// sandbox overrides, and finally the package row itself.
pub open spec fn crate_cascade_applied(
    pre: Catalog,
    post: Catalog,
    cid: u32,
    name: Seq<char>,
) -> bool {
    let t = DeleteTarget::Crate { cid };
    &&& post.crates() == remaining_crates(pre.crates(), cid)
    &&& post.releases() == surviving_releases(pre.releases(), t)
    &&& forall|tb: DependentTable| #[trigger] post.dependents(tb) == surviving_dependents(
        pre.dependents(tb),
        pre.releases(),
        t,
    )
    &&& post.owner_rels() == remaining_owners(pre.owner_rels(), cid)
    &&& post.sandbox_overrides() == remaining_overrides(pre.sandbox_overrides(), name)
    &&& post.next_crate_id() == pre.next_crate_id()
    &&& post.next_release_id() == pre.next_release_id()
}

/// The surviving releases are exactly the rows not targeted.
proof fn lemma_surviving_releases_membership(rows: Seq<ReleaseRow>, t: DeleteTarget)
    ensures
        forall|x: ReleaseRow|
            #[trigger] surviving_releases(rows, t).contains(x) <==> rows.contains(x)
                && !release_targeted(x, t),
    decreases rows.len(),
{
    if rows.len() > 0 {
        lemma_surviving_releases_membership(rows.drop_last(), t);
        let dl = rows.drop_last();
        let surv = surviving_releases(rows, t);
        assert forall|x: ReleaseRow| #[trigger] surv.contains(x) implies rows.contains(x)
            && !release_targeted(x, t) by {
            let i = choose|i: int| 0 <= i < surv.len() && surv[i] == x;
            if i < surviving_releases(dl, t).len() {
                assert(surviving_releases(dl, t).contains(x));
                let m = choose|m: int| 0 <= m < dl.len() && dl[m] == x;
                assert(rows[m] == x);
            } else {
                assert(x == rows.last());
                assert(rows[rows.len() - 1] == x);
            }
        }
        assert forall|x: ReleaseRow| rows.contains(x) && !release_targeted(x, t) implies
            #[trigger] surv.contains(x) by {
            let i = choose|i: int| 0 <= i < rows.len() && rows[i] == x;
            if i < rows.len() - 1 {
                assert(dl[i] == x);
                assert(dl.contains(x));
                assert(surviving_releases(dl, t).contains(x));
                let m = choose|m: int|
                    0 <= m < surviving_releases(dl, t).len() && surviving_releases(dl, t)[m] == x;
                assert(surv[m] == x);
            } else {
                assert(x == rows.last());
                assert(surv[surv.len() - 1] == x);
            }
        }
    }
}

/// The surviving dependent rows are exactly the rows not targeted.
proof fn lemma_surviving_dependents_membership(
    rows: Seq<DependentRow>,
    rels: Seq<ReleaseRow>,
    t: DeleteTarget,
)
    ensures
        forall|x: DependentRow|
            #[trigger] surviving_dependents(rows, rels, t).contains(x) <==> rows.contains(x)
                && !dependent_targeted(x, rels, t),
    decreases rows.len(),
{
    if rows.len() > 0 {
        lemma_surviving_dependents_membership(rows.drop_last(), rels, t);
        let dl = rows.drop_last();
        let surv = surviving_dependents(rows, rels, t);
        assert forall|x: DependentRow| #[trigger] surv.contains(x) implies rows.contains(x)
            && !dependent_targeted(x, rels, t) by {
            let i = choose|i: int| 0 <= i < surv.len() && surv[i] == x;
            if i < surviving_dependents(dl, rels, t).len() {
                assert(surviving_dependents(dl, rels, t).contains(x));
                let m = choose|m: int| 0 <= m < dl.len() && dl[m] == x;
                assert(rows[m] == x);
            } else {
                assert(x == rows.last());
                assert(rows[rows.len() - 1] == x);
            }
        }
        assert forall|x: DependentRow| rows.contains(x) && !dependent_targeted(x, rels, t) implies
            #[trigger] surv.contains(x) by {
            let i = choose|i: int| 0 <= i < rows.len() && rows[i] == x;
            if i < rows.len() - 1 {
                assert(dl[i] == x);
                assert(dl.contains(x));
                assert(surviving_dependents(dl, rels, t).contains(x));
                let m = choose|m: int|
                    0 <= m < surviving_dependents(dl, rels, t).len() && surviving_dependents(
                        dl,
                        rels,
                        t,
                    )[m] == x;
                assert(surv[m] == x);
            } else {
                assert(x == rows.last());
                assert(surv[surv.len() - 1] == x);
            }
        }
    }
}

/// The remaining package rows are exactly those with another id.
proof fn lemma_remaining_crates_membership(rows: Seq<CrateRow>, cid: u32)
    ensures
        forall|x: CrateRow|
            #[trigger] remaining_crates(rows, cid).contains(x) <==> rows.contains(x) && x.id
                != cid,
    decreases rows.len(),
{
    if rows.len() > 0 {
        lemma_remaining_crates_membership(rows.drop_last(), cid);
        let dl = rows.drop_last();
        let surv = remaining_crates(rows, cid);
        assert forall|x: CrateRow| #[trigger] surv.contains(x) implies rows.contains(x) && x.id
            != cid by {
            let i = choose|i: int| 0 <= i < surv.len() && surv[i] == x;
            if i < remaining_crates(dl, cid).len() {
                assert(remaining_crates(dl, cid).contains(x));
                let m = choose|m: int| 0 <= m < dl.len() && dl[m] == x;
                assert(rows[m] == x);
            } else {
                assert(x == rows.last());
                assert(rows[rows.len() - 1] == x);
            }
        }
        assert forall|x: CrateRow| rows.contains(x) && x.id != cid implies #[trigger] surv.contains(
            x,
        ) by {
            let i = choose|i: int| 0 <= i < rows.len() && rows[i] == x;
            if i < rows.len() - 1 {
                assert(dl[i] == x);
                assert(dl.contains(x));
                assert(remaining_crates(dl, cid).contains(x));
                let m = choose|m: int|
                    0 <= m < remaining_crates(dl, cid).len() && remaining_crates(dl, cid)[m] == x;
                assert(surv[m] == x);
            } else {
                assert(x == rows.last());
                assert(surv[surv.len() - 1] == x);
            }
        }
    }
}

/// The remaining ownership rows are exactly those of other packages.
proof fn lemma_remaining_owners_membership(rows: Seq<OwnerRow>, cid: u32)
    ensures
        forall|x: OwnerRow|
            #[trigger] remaining_owners(rows, cid).contains(x) <==> rows.contains(x) && x.crate_id
                != cid,
    decreases rows.len(),
{
    if rows.len() > 0 {
        lemma_remaining_owners_membership(rows.drop_last(), cid);
        let dl = rows.drop_last();
        let surv = remaining_owners(rows, cid);
        assert forall|x: OwnerRow| #[trigger] surv.contains(x) implies rows.contains(x)
            && x.crate_id != cid by {
            let i = choose|i: int| 0 <= i < surv.len() && surv[i] == x;
            if i < remaining_owners(dl, cid).len() {
                assert(remaining_owners(dl, cid).contains(x));
                let m = choose|m: int| 0 <= m < dl.len() && dl[m] == x;
                assert(rows[m] == x);
            } else {
                assert(x == rows.last());
                assert(rows[rows.len() - 1] == x);
            }
        }
        assert forall|x: OwnerRow| rows.contains(x) && x.crate_id != cid implies
            #[trigger] surv.contains(x) by {
            let i = choose|i: int| 0 <= i < rows.len() && rows[i] == x;
            if i < rows.len() - 1 {
                assert(dl[i] == x);
                assert(dl.contains(x));
                assert(remaining_owners(dl, cid).contains(x));
                let m = choose|m: int|
                    0 <= m < remaining_owners(dl, cid).len() && remaining_owners(dl, cid)[m] == x;
                assert(surv[m] == x);
            } else {
                assert(x == rows.last());
                assert(surv[surv.len() - 1] == x);
            }
        }
    }
}

/// Unique release ids and unique version strings survive the cascade.
proof fn lemma_surviving_releases_unique(rows: Seq<ReleaseRow>, t: DeleteTarget)
    requires
        forall|i: int, j: int| 0 <= i < j < rows.len() ==> rows[i].id != rows[j].id && !(
        rows[i].crate_id == rows[j].crate_id && rows[i].version@ == rows[j].version@),
    ensures
        forall|i: int, j: int|
            0 <= i < j < surviving_releases(rows, t).len() ==> surviving_releases(rows, t)[i].id
                != surviving_releases(rows, t)[j].id && !(surviving_releases(rows, t)[i].crate_id
                == surviving_releases(rows, t)[j].crate_id && surviving_releases(
                rows,
                t,
            )[i].version@ == surviving_releases(rows, t)[j].version@),
    decreases rows.len(),
{
    if rows.len() > 0 {
        let dl = rows.drop_last();
        lemma_surviving_releases_unique(dl, t);
        lemma_surviving_releases_membership(dl, t);
        let surv = surviving_releases(rows, t);
        let sdl = surviving_releases(dl, t);
        assert forall|i: int, j: int| 0 <= i < j < surv.len() implies surv[i].id != surv[j].id && !(
        surv[i].crate_id == surv[j].crate_id && surv[i].version@ == surv[j].version@) by {
            if j < sdl.len() {
            } else {
                assert(surv[j] == rows.last());
                assert(sdl.contains(surv[i]));
                let m = choose|m: int| 0 <= m < dl.len() && dl[m] == surv[i];
                assert(rows[m] == surv[i]);
                assert(rows[m].id != rows.last().id);
            }
        }
    }
}

/// Unique package ids and names survive the removal of one package row.
proof fn lemma_remaining_crates_unique(rows: Seq<CrateRow>, cid: u32)
    requires
        forall|i: int, j: int|
            0 <= i < j < rows.len() ==> rows[i].id != rows[j].id && rows[i].name@
                != rows[j].name@,
    ensures
        forall|i: int, j: int|
            0 <= i < j < remaining_crates(rows, cid).len() ==> remaining_crates(rows, cid)[i].id
                != remaining_crates(rows, cid)[j].id && remaining_crates(rows, cid)[i].name@
                != remaining_crates(rows, cid)[j].name@,
    decreases rows.len(),
{
    if rows.len() > 0 {
        let dl = rows.drop_last();
        lemma_remaining_crates_unique(dl, cid);
        lemma_remaining_crates_membership(dl, cid);
        let surv = remaining_crates(rows, cid);
        let sdl = remaining_crates(dl, cid);
        assert forall|i: int, j: int| 0 <= i < j < surv.len() implies surv[i].id != surv[j].id
            && surv[i].name@ != surv[j].name@ by {
            if j < sdl.len() {
            } else {
                assert(surv[j] == rows.last());
                assert(sdl.contains(surv[i]));
                let m = choose|m: int| 0 <= m < dl.len() && dl[m] == surv[i];
                assert(rows[m] == surv[i]);
                assert(rows[m].id != rows.last().id);
            }
        }
    }
}

/// Unique override names survive the removal of one package's row.
proof fn lemma_remaining_overrides_unique(rows: Seq<OverrideRow>, name: Seq<char>)
    requires
        forall|i: int, j: int|
            0 <= i < j < rows.len() ==> rows[i].crate_name@ != rows[j].crate_name@,
    ensures
        forall|i: int, j: int|
            0 <= i < j < remaining_overrides(rows, name).len() ==> remaining_overrides(
                rows,
                name,
            )[i].crate_name@ != remaining_overrides(rows, name)[j].crate_name@,
    decreases rows.len(),
{
    if rows.len() > 0 {
        let dl = rows.drop_last();
        lemma_remaining_overrides_unique(dl, name);
        let surv = remaining_overrides(rows, name);
        let sdl = remaining_overrides(dl, name);
        assert forall|i: int, j: int| 0 <= i < j < surv.len() implies surv[i].crate_name@
            != surv[j].crate_name@ by {
            if j < sdl.len() {
            } else {
                assert(surv[j] == rows.last());
                lemma_remaining_overrides_elements(dl, name, i);
                let m = choose|m: int| 0 <= m < dl.len() && dl[m] == sdl[i];
                assert(rows[m] == surv[i]);
                assert(rows[m].crate_name@ != rows.last().crate_name@);
            }
        }
    }
}

/// Every remaining override row stands somewhere in the source rows.
proof fn lemma_remaining_overrides_elements(rows: Seq<OverrideRow>, name: Seq<char>, i: int)
    requires
        0 <= i < remaining_overrides(rows, name).len(),
    ensures
        exists|m: int| 0 <= m < rows.len() && rows[m] == remaining_overrides(rows, name)[i],
    decreases rows.len(),
{
    if rows.len() > 0 {
        let dl = rows.drop_last();
        let surv = remaining_overrides(rows, name);
        let sdl = remaining_overrides(dl, name);
        if i < sdl.len() {
            lemma_remaining_overrides_elements(dl, name, i);
            let m = choose|m: int| 0 <= m < dl.len() && dl[m] == sdl[i];
            assert(rows[m] == surv[i]);
        } else {
            assert(rows[rows.len() - 1] == surv[i]);
        }
    }
}

/// A cascade that targets another package does not move a latest pointer.
proof fn lemma_latest_surviving(rows: Seq<ReleaseRow>, t: DeleteTarget, c: u32)
    requires
        match t {
            DeleteTarget::Crate { cid } => cid != c,
            DeleteTarget::Version { cid, version } => cid != c,
        },
    ensures
        latest_release(surviving_releases(rows, t), c) == latest_release(rows, c),
    decreases rows.len(),
{
    if rows.len() > 0 {
        let dl = rows.drop_last();
        lemma_latest_surviving(dl, t, c);
        let last = rows.last();
        if release_targeted(last, t) {
            assert(last.crate_id != c);
        } else {
            assert(surviving_releases(rows, t) == surviving_releases(dl, t).push(last));
            assert(surviving_releases(dl, t).push(last).drop_last() =~= surviving_releases(dl, t));
            assert(surviving_releases(dl, t).push(last).last() == last);
        }
    }
}

fn is_release_targeted(r: &ReleaseRow, cid: u32, version: Option<&str>) -> (b: bool)
    ensures
        b == release_targeted(*r, target_of(cid, version)),
{
    match version {
        None => r.crate_id == cid,
        Some(v) => r.crate_id == cid && str_eq(r.version.as_str(), v),
    }
}

fn ids_contain(ids: &Vec<u32>, x: u32) -> (b: bool)
    ensures
        b == ids@.contains(x),
{
    let n = ids.len();
    let mut i: usize = 0;
    while i < n
        invariant
            i <= n,
            n == ids@.len(),
            forall|j: int| 0 <= j < i ==> ids@[j] != x,
        decreases n - i,
    {
        if ids[i] == x {
            assert(ids@[i as int] == x);
            return true;
        }
        i += 1;
    }
    proof {
        if ids@.contains(x) {
            let j = choose|j: int| 0 <= j < ids@.len() && ids@[j] == x;
            assert(ids@[j] != x);
        }
    }
    false
}

/// The ids of every release the cascade targets.
fn collect_target_ids(rels: &Vec<ReleaseRow>, cid: u32, version: Option<&str>) -> (ids: Vec<u32>)
    ensures
        forall|x: u32|
            #[trigger] ids@.contains(x) <==> has_target_id(rels@, target_of(cid, version), x),
{
    let ghost t = target_of(cid, version);
    let n = rels.len();
    let mut ids: Vec<u32> = Vec::new();
    let mut i: usize = 0;
    while i < n
        invariant
            i <= n,
            n == rels@.len(),
            t == target_of(cid, version),
            forall|x: u32|
                #[trigger] ids@.contains(x) <==> has_target_id(
                    rels@.subrange(0, i as int),
                    t,
                    x,
                ),
        decreases n - i,
    {
        let ghost pre = rels@.subrange(0, i as int);
        let ghost post = rels@.subrange(0, (i + 1) as int);
        let ghost ids_pre = ids@;
        if is_release_targeted(&rels[i], cid, version) {
            ids.push(rels[i].id);
        }
        proof {
            assert forall|x: u32| #[trigger] ids@.contains(x) implies has_target_id(
                post,
                t,
                x,
            ) by {
                let j = choose|j: int| 0 <= j < ids@.len() && ids@[j] == x;
                if j < ids_pre.len() {
                    assert(ids_pre[j] == x);
                    assert(ids_pre.contains(x));
                    let m = choose|m: int|
                        0 <= m < pre.len() && release_targeted(pre[m], t) && pre[m].id == x;
                    assert(post[m] == pre[m]);
                    assert(release_targeted(post[m], t) && post[m].id == x);
                } else {
                    assert(release_targeted(rels@[i as int], t) && rels@[i as int].id == x);
                    assert(post[i as int] == rels@[i as int]);
                }
            }
            assert forall|x: u32| has_target_id(post, t, x) implies #[trigger] ids@.contains(
                x,
            ) by {
                let m = choose|m: int|
                    0 <= m < post.len() && release_targeted(post[m], t) && post[m].id == x;
                if m < i {
                    assert(pre[m] == post[m]);
                    assert(release_targeted(pre[m], t) && pre[m].id == x);
                    assert(has_target_id(pre, t, x));
                    assert(ids_pre.contains(x));
                    let j = choose|j: int| 0 <= j < ids_pre.len() && ids_pre[j] == x;
                    assert(ids@[j] == x);
                } else {
                    assert(post[m] == rels@[i as int]);
                    assert(release_targeted(rels@[i as int], t));
                    assert(ids@[ids@.len() - 1] == x);
                }
            }
        }
        i += 1;
    }
    proof {
        assert(rels@.subrange(0, n as int) =~= rels@);
    }
    ids
}

fn clone_release(r: &ReleaseRow) -> (c: ReleaseRow)
    ensures
        c == *r,
{
    ReleaseRow {
        id: r.id,
        crate_id: r.crate_id,
        version: r.version.clone(),
        release_time: r.release_time,
    }
}

fn clone_dependent(r: &DependentRow) -> (c: DependentRow)
    ensures
        c == *r,
{
    DependentRow { release_id: r.release_id, value: r.value.clone() }
}

/// Drop the targeted releases, keeping the rest in order.
fn retain_releases(rows: &mut Vec<ReleaseRow>, cid: u32, version: Option<&str>)
    ensures
        final(rows)@ == surviving_releases(old(rows)@, target_of(cid, version)),
{
    let ghost t = target_of(cid, version);
    let ghost src = rows@;
    let n = rows.len();
    let mut out: Vec<ReleaseRow> = Vec::new();
    let mut i: usize = 0;
    proof {
        assert(src.subrange(0, 0) =~= Seq::<ReleaseRow>::empty());
    }
    while i < n
        invariant
            i <= n,
            n == rows@.len(),
            rows@ == src,
            t == target_of(cid, version),
            out@ == surviving_releases(src.subrange(0, i as int), t),
        decreases n - i,
    {
        let ghost pre = src.subrange(0, i as int);
        let ghost post = src.subrange(0, (i + 1) as int);
        proof {
            assert(post.drop_last() =~= pre);
            assert(post.last() == src[i as int]);
        }
        if !is_release_targeted(&rows[i], cid, version) {
            out.push(clone_release(&rows[i]));
        }
        i += 1;
    }
    proof {
        assert(src.subrange(0, n as int) =~= src);
    }
    *rows = out;
}

/// Drop the dependent rows whose release the cascade removes, keeping the
/// rest in order.  `ids` holds exactly the targeted release ids.
fn retain_dependents(
    rows: &mut Vec<DependentRow>,
    ids: &Vec<u32>,
    Ghost(rels): Ghost<Seq<ReleaseRow>>,
    Ghost(t): Ghost<DeleteTarget>,
)
    requires
        forall|x: u32| #[trigger] ids@.contains(x) <==> has_target_id(rels, t, x),
    ensures
        final(rows)@ == surviving_dependents(old(rows)@, rels, t),
{
    let ghost src = rows@;
    let n = rows.len();
    let mut out: Vec<DependentRow> = Vec::new();
    let mut i: usize = 0;
    proof {
        assert(src.subrange(0, 0) =~= Seq::<DependentRow>::empty());
    }
    while i < n
        invariant
            i <= n,
            n == rows@.len(),
            rows@ == src,
            forall|x: u32| #[trigger] ids@.contains(x) <==> has_target_id(rels, t, x),
            out@ == surviving_dependents(src.subrange(0, i as int), rels, t),
        decreases n - i,
    {
        let ghost pre = src.subrange(0, i as int);
        let ghost post = src.subrange(0, (i + 1) as int);
        proof {
            assert(post.drop_last() =~= pre);
            assert(post.last() == src[i as int]);
        }
        if !ids_contain(ids, rows[i].release_id) {
            out.push(clone_dependent(&rows[i]));
        }
        i += 1;
    }
    proof {
        assert(src.subrange(0, n as int) =~= src);
    }
    *rows = out;
}

/// Drop the package row with id `cid`, keeping the rest in order.
fn retain_crates(rows: &mut Vec<CrateRow>, cid: u32)
    ensures
        final(rows)@ == remaining_crates(old(rows)@, cid),
{
    let ghost src = rows@;
    let n = rows.len();
    let mut out: Vec<CrateRow> = Vec::new();
    let mut i: usize = 0;
    proof {
        assert(src.subrange(0, 0) =~= Seq::<CrateRow>::empty());
    }
    while i < n
        invariant
            i <= n,
            n == rows@.len(),
            rows@ == src,
            out@ == remaining_crates(src.subrange(0, i as int), cid),
        decreases n - i,
    {
        let ghost pre = src.subrange(0, i as int);
        let ghost post = src.subrange(0, (i + 1) as int);
        proof {
            assert(post.drop_last() =~= pre);
            assert(post.last() == src[i as int]);
        }
        if rows[i].id != cid {
            let r = &rows[i];
            out.push(
                CrateRow { id: r.id, name: r.name.clone(), latest_version_id: r.latest_version_id },
            );
        }
        i += 1;
    }
    proof {
        assert(src.subrange(0, n as int) =~= src);
    }
    *rows = out;
}

/// Drop the ownership rows of package `cid`, keeping the rest in order.
fn retain_owners(rows: &mut Vec<OwnerRow>, cid: u32)
    ensures
        final(rows)@ == remaining_owners(old(rows)@, cid),
{
    let ghost src = rows@;
    let n = rows.len();
    let mut out: Vec<OwnerRow> = Vec::new();
    let mut i: usize = 0;
    proof {
        assert(src.subrange(0, 0) =~= Seq::<OwnerRow>::empty());
    }
    while i < n
        invariant
            i <= n,
            n == rows@.len(),
            rows@ == src,
            out@ == remaining_owners(src.subrange(0, i as int), cid),
        decreases n - i,
    {
        let ghost pre = src.subrange(0, i as int);
        let ghost post = src.subrange(0, (i + 1) as int);
        proof {
            assert(post.drop_last() =~= pre);
            assert(post.last() == src[i as int]);
        }
        if rows[i].crate_id != cid {
            let r = &rows[i];
            out.push(OwnerRow { crate_id: r.crate_id, owner: r.owner.clone() });
        }
        i += 1;
    }
    proof {
        assert(src.subrange(0, n as int) =~= src);
    }
    *rows = out;
}

/// Drop the sandbox-override rows named `name`, keeping the rest in order.
fn retain_overrides(rows: &mut Vec<OverrideRow>, name: &str)
    ensures
        final(rows)@ == remaining_overrides(old(rows)@, name@),
{
    let ghost src = rows@;
    let n = rows.len();
    let mut out: Vec<OverrideRow> = Vec::new();
    let mut i: usize = 0;
    proof {
        assert(src.subrange(0, 0) =~= Seq::<OverrideRow>::empty());
    }
    while i < n
        invariant
            i <= n,
            n == rows@.len(),
            rows@ == src,
            out@ == remaining_overrides(src.subrange(0, i as int), name@),
        decreases n - i,
    {
        let ghost pre = src.subrange(0, i as int);
        let ghost post = src.subrange(0, (i + 1) as int);
        proof {
            assert(post.drop_last() =~= pre);
            assert(post.last() == src[i as int]);
        }
        if !str_eq(rows[i].crate_name.as_str(), name) {
            let r = &rows[i];
            out.push(
                OverrideRow {
                    crate_name: r.crate_name.clone(),
                    max_memory_bytes: r.max_memory_bytes,
                    timeout_seconds: r.timeout_seconds,
                    max_targets: r.max_targets,
                },
            );
        }
        i += 1;
    }
    proof {
        assert(src.subrange(0, n as int) =~= src);
    }
    *rows = out;
}

impl Catalog {
    /// The metadata phase of deleting one version: clear its rows from each
    /// dependent table in cascade order, remove the release row, and point
    /// the package's latest-version pointer at the latest remaining release.
    pub fn apply_version_cascade(&mut self, crate_id: u32, version: &str)
        requires
            old(self).wf(),
            has_crate_id(old(self).crates(), crate_id),
        ensures
            final(self).wf(),
            version_cascade_applied(*old(self), *final(self), crate_id, version@),
    {
        let ghost t = DeleteTarget::Version { cid: crate_id, version: version@ };
        let ghost prels = self.releases@;
        let ghost pre_crates = self.crates@;
        let ids = collect_target_ids(&self.releases, crate_id, Some(version));
        retain_dependents(&mut self.author_rels, &ids, Ghost(prels), Ghost(t));
        retain_dependents(&mut self.keyword_rels, &ids, Ghost(prels), Ghost(t));
        retain_dependents(&mut self.builds, &ids, Ghost(prels), Ghost(t));
        retain_dependents(&mut self.compression_rels, &ids, Ghost(prels), Ghost(t));
        retain_dependents(&mut self.doc_coverage, &ids, Ghost(prels), Ghost(t));
        retain_releases(&mut self.releases, crate_id, Some(version));
        let latest = compute_latest(&self.releases, crate_id);
        refresh_latest(&mut self.crates, crate_id, latest);
        proof {
            let srels = self.releases@;
            let post_crates = self.crates@;
            assert(srels == surviving_releases(prels, t));
            lemma_surviving_releases_membership(prels, t);
            lemma_surviving_releases_unique(prels, t);
            assert(post_crates.len() == pre_crates.len());
            assert forall|c: int| 0 <= c < pre_crates.len() implies (#[trigger] post_crates[c]).id
                == pre_crates[c].id && post_crates[c].name@ == pre_crates[c].name@ by {
            }
            assert forall|i: int| 0 <= i < srels.len() implies #[trigger] srels[i].id < old(
                self,
            ).next_release_id by {
                assert(srels.contains(srels[i]));
                let m = choose|m: int| 0 <= m < prels.len() && prels[m] == srels[i];
            }
            assert forall|i: int| 0 <= i < srels.len() implies has_crate_id(
                post_crates,
                #[trigger] srels[i].crate_id,
            ) by {
                assert(srels.contains(srels[i]));
                let m = choose|m: int| 0 <= m < prels.len() && prels[m] == srels[i];
                assert(has_crate_id(pre_crates, prels[m].crate_id));
                let c = choose|c: int| 0 <= c < pre_crates.len() && pre_crates[c].id
                    == prels[m].crate_id;
                assert(post_crates[c].id == srels[i].crate_id);
            }
            assert forall|tb: DependentTable| #[trigger] self.dependents(tb)
                == surviving_dependents(old(self).dependents(tb), prels, t) by {
            }
            assert forall|tb: DependentTable, i: int|
                0 <= i < self.dependents(tb).len() implies has_release_id(
                srels,
                #[trigger] self.dependents(tb)[i].release_id,
            ) by {
                let d = self.dependents(tb)[i];
                assert(self.dependents(tb).contains(d));
                lemma_surviving_dependents_membership(old(self).dependents(tb), prels, t);
                assert(old(self).dependents(tb).contains(d) && !dependent_targeted(d, prels, t));
                let m = choose|m: int|
                    0 <= m < old(self).dependents(tb).len() && old(self).dependents(tb)[m] == d;
                assert(has_release_id(prels, d.release_id));
                let j = choose|j: int| 0 <= j < prels.len() && prels[j].id == d.release_id;
                if release_targeted(prels[j], t) {
                    assert(has_target_id(prels, t, d.release_id));
                }
                assert(prels.contains(prels[j]));
                assert(srels.contains(prels[j]));
                let m2 = choose|m2: int| 0 <= m2 < srels.len() && srels[m2] == prels[j];
                assert(srels[m2].id == d.release_id);
            }
            assert forall|i: int| 0 <= i < self.owner_rels@.len() implies has_crate_id(
                post_crates,
                #[trigger] self.owner_rels@[i].crate_id,
            ) by {
                assert(has_crate_id(pre_crates, old(self).owner_rels@[i].crate_id));
                let c = choose|c: int|
                    0 <= c < pre_crates.len() && pre_crates[c].id
                        == self.owner_rels@[i].crate_id;
                assert(post_crates[c].id == self.owner_rels@[i].crate_id);
            }
            assert forall|c: int| 0 <= c < post_crates.len() implies (
            #[trigger] post_crates[c]).latest_version_id == latest_id(
                srels,
                post_crates[c].id,
            ) by {
                if pre_crates[c].id == crate_id {
                    assert(post_crates[c].latest_version_id == latest);
                } else {
                    assert(post_crates[c].latest_version_id == pre_crates[c].latest_version_id);
                    lemma_latest_surviving(prels, t, pre_crates[c].id);
                }
            }
        }
    }

    /// The metadata phase of deleting a whole package: clear its sandbox
    /// overrides, the dependent rows of every one of its releases in
    /// cascade order, its ownership rows, its releases, and finally the
    /// package row itself.
    pub fn apply_crate_cascade(&mut self, crate_id: u32, name: &str)
        requires
            old(self).wf(),
        ensures
            final(self).wf(),
            crate_cascade_applied(*old(self), *final(self), crate_id, name@),
    {
        let ghost t = DeleteTarget::Crate { cid: crate_id };
        let ghost prels = self.releases@;
        let ghost pre_crates = self.crates@;
        retain_overrides(&mut self.sandbox_overrides, name);
        let ids = collect_target_ids(&self.releases, crate_id, None);
        retain_dependents(&mut self.author_rels, &ids, Ghost(prels), Ghost(t));
        retain_dependents(&mut self.keyword_rels, &ids, Ghost(prels), Ghost(t));
        retain_dependents(&mut self.builds, &ids, Ghost(prels), Ghost(t));
        retain_dependents(&mut self.compression_rels, &ids, Ghost(prels), Ghost(t));
        retain_dependents(&mut self.doc_coverage, &ids, Ghost(prels), Ghost(t));
        retain_owners(&mut self.owner_rels, crate_id);
        retain_releases(&mut self.releases, crate_id, None);
        retain_crates(&mut self.crates, crate_id);
        proof {
            let srels = self.releases@;
            let post_crates = self.crates@;
            assert(srels == surviving_releases(prels, t));
            assert(post_crates == remaining_crates(pre_crates, crate_id));
            lemma_surviving_releases_membership(prels, t);
            lemma_surviving_releases_unique(prels, t);
            lemma_remaining_crates_membership(pre_crates, crate_id);
            lemma_remaining_crates_unique(pre_crates, crate_id);
            lemma_remaining_owners_membership(old(self).owner_rels@, crate_id);
            lemma_remaining_overrides_unique(old(self).sandbox_overrides@, name@);
            assert forall|c: int| 0 <= c < post_crates.len() implies #[trigger] post_crates[c].id
                < old(self).next_crate_id by {
                assert(post_crates.contains(post_crates[c]));
                let m = choose|m: int|
                    0 <= m < pre_crates.len() && pre_crates[m] == post_crates[c];
            }
            assert forall|i: int| 0 <= i < srels.len() implies #[trigger] srels[i].id < old(
                self,
            ).next_release_id by {
                assert(srels.contains(srels[i]));
                let m = choose|m: int| 0 <= m < prels.len() && prels[m] == srels[i];
            }
            assert forall|i: int| 0 <= i < srels.len() implies has_crate_id(
                post_crates,
                #[trigger] srels[i].crate_id,
            ) by {
                assert(srels.contains(srels[i]));
                assert(!release_targeted(srels[i], t));
                let m = choose|m: int| 0 <= m < prels.len() && prels[m] == srels[i];
                assert(has_crate_id(pre_crates, prels[m].crate_id));
                let c = choose|c: int| 0 <= c < pre_crates.len() && pre_crates[c].id
                    == prels[m].crate_id;
                assert(pre_crates.contains(pre_crates[c]));
                assert(pre_crates[c].id != crate_id);
                assert(post_crates.contains(pre_crates[c]));
                let c2 = choose|c2: int|
                    0 <= c2 < post_crates.len() && post_crates[c2] == pre_crates[c];
                assert(post_crates[c2].id == srels[i].crate_id);
            }
            assert forall|tb: DependentTable| #[trigger] self.dependents(tb)
                == surviving_dependents(old(self).dependents(tb), prels, t) by {
            }
            assert forall|tb: DependentTable, i: int|
                0 <= i < self.dependents(tb).len() implies has_release_id(
                srels,
                #[trigger] self.dependents(tb)[i].release_id,
            ) by {
                let d = self.dependents(tb)[i];
                assert(self.dependents(tb).contains(d));
                lemma_surviving_dependents_membership(old(self).dependents(tb), prels, t);
                assert(old(self).dependents(tb).contains(d) && !dependent_targeted(d, prels, t));
                let m = choose|m: int|
                    0 <= m < old(self).dependents(tb).len() && old(self).dependents(tb)[m] == d;
                assert(has_release_id(prels, d.release_id));
                let j = choose|j: int| 0 <= j < prels.len() && prels[j].id == d.release_id;
                if release_targeted(prels[j], t) {
                    assert(has_target_id(prels, t, d.release_id));
                }
                assert(prels.contains(prels[j]));
                assert(srels.contains(prels[j]));
                let m2 = choose|m2: int| 0 <= m2 < srels.len() && srels[m2] == prels[j];
                assert(srels[m2].id == d.release_id);
            }
            assert forall|i: int| 0 <= i < self.owner_rels@.len() implies has_crate_id(
                post_crates,
                #[trigger] self.owner_rels@[i].crate_id,
            ) by {
                let o = self.owner_rels@[i];
                assert(self.owner_rels@.contains(o));
                assert(old(self).owner_rels@.contains(o) && o.crate_id != crate_id);
                let m = choose|m: int|
                    0 <= m < old(self).owner_rels@.len() && old(self).owner_rels@[m] == o;
                assert(has_crate_id(pre_crates, o.crate_id));
                let c = choose|c: int|
                    0 <= c < pre_crates.len() && pre_crates[c].id == o.crate_id;
                assert(pre_crates.contains(pre_crates[c]));
                assert(post_crates.contains(pre_crates[c]));
                let c2 = choose|c2: int|
                    0 <= c2 < post_crates.len() && post_crates[c2] == pre_crates[c];
                assert(post_crates[c2].id == o.crate_id);
            }
            assert forall|c: int| 0 <= c < post_crates.len() implies (
            #[trigger] post_crates[c]).latest_version_id == latest_id(
                srels,
                post_crates[c].id,
            ) by {
                assert(post_crates.contains(post_crates[c]));
                assert(pre_crates.contains(post_crates[c]) && post_crates[c].id != crate_id);
                let m = choose|m: int|
                    0 <= m < pre_crates.len() && pre_crates[m] == post_crates[c];
                assert(pre_crates[m].latest_version_id == latest_id(prels, pre_crates[m].id));
                lemma_latest_surviving(prels, t, post_crates[c].id);
            }
        }
    }
}

/// The table name of one dependent table, as the backend schema spells it.
pub fn dependent_table_name(t: DependentTable) -> (r: &'static str)
    ensures
        r@ == match t {
            DependentTable::AuthorRels => "author_rels"@,
            DependentTable::KeywordRels => "keyword_rels"@,
            DependentTable::Builds => "builds"@,
            DependentTable::CompressionRels => "compression_rels"@,
            DependentTable::DocCoverage => "doc_coverage"@,
        },
{
    match t {
        DependentTable::AuthorRels => "author_rels",
        DependentTable::KeywordRels => "keyword_rels",
        DependentTable::Builds => "builds",
        DependentTable::CompressionRels => "compression_rels",
        DependentTable::DocCoverage => "doc_coverage",
    }
}

/// The foreign-key column of one dependent table: the column that
/// references the version row.
pub fn dependent_fk_column(t: DependentTable) -> (r: &'static str)
    ensures
        r@ == match t {
            DependentTable::AuthorRels => "rid"@,
            DependentTable::KeywordRels => "rid"@,
            DependentTable::Builds => "rid"@,
            DependentTable::CompressionRels => "release"@,
            DependentTable::DocCoverage => "release_id"@,
        },
{
    match t {
        DependentTable::AuthorRels => "rid",
        DependentTable::KeywordRels => "rid",
        DependentTable::Builds => "rid",
        DependentTable::CompressionRels => "release",
        DependentTable::DocCoverage => "release_id",
    }
}

/// The five dependent tables in the order the cascade clears them.
pub fn cascade_order() -> (r: Vec<DependentTable>)
    ensures
        r@ == seq![
            DependentTable::AuthorRels,
            DependentTable::KeywordRels,
            DependentTable::Builds,
            DependentTable::CompressionRels,
            DependentTable::DocCoverage,
        ],
{
    let mut r: Vec<DependentTable> = Vec::new();
    r.push(DependentTable::AuthorRels);
    r.push(DependentTable::KeywordRels);
    r.push(DependentTable::Builds);
    r.push(DependentTable::CompressionRels);
    r.push(DependentTable::DocCoverage);
    proof {
        assert(r@ =~= seq![
            DependentTable::AuthorRels,
            DependentTable::KeywordRels,
            DependentTable::Builds,
            DependentTable::CompressionRels,
            DependentTable::DocCoverage,
        ]);
    }
    r
}

} // verus!
