//! Two-phase cascading deletion of a package or a single version.
//!
//! Phase one is a relational transaction over the catalog: dependent rows
//! first, then the version or package row.  If the backend reports an error
//! during that transaction — modelled by the `backend_fault` argument —
//! the whole transaction rolls back and nothing at all is removed; the blob
//! phase is never reached.  Phase two removes the blob prefixes of the
//! deleted package or version from the blob store.  The two phases are not
//! one atomic unit: a fault after the metadata commit may leave orphaned
//! blobs, an accepted eventual-consistency gap reconciled by an external
//! audit.  Deleting a package name with no matching row is an error, never
//! a silent no-op.

use crate::catalog::{crate_cascade_applied, crate_named, has_crate_id, has_crate_named,
    version_cascade_applied, Catalog};
use crate::storage::{remove_prefix, BlobStore};
use vstd::prelude::*;
use vstd::string::StringExecFns;

verus! {

/// Why a deletion failed.
#[derive(Clone, Copy, PartialEq, Eq, Structural, Debug)]
pub enum DeleteError {
    /// No package row carries the requested name.
    MissingCrate,
    /// The backend reported an error inside the metadata transaction,
    /// which therefore rolled back.
    TransactionFailed,
}

/// The blob prefix of a whole package in one storage area.
pub open spec fn crate_prefix(area: Seq<char>, name: Seq<char>) -> Seq<char> {
    area + "/"@ + name + "/"@
}

/// The blob prefix of one version in one storage area.
pub open spec fn version_prefix(area: Seq<char>, name: Seq<char>, version: Seq<char>) -> Seq<
    char,
> {
    area + "/"@ + name + "/"@ + version + "/"@
}

fn crate_prefix_string(area: &str, name: &str) -> (r: String)
    ensures
        r@ == crate_prefix(area@, name@),
{
    String::from_str(area).concat("/").concat(name).concat("/")
}

fn version_prefix_string(area: &str, name: &str, version: &str) -> (r: String)
    ensures
        r@ == version_prefix(area@, name@, version@),
{
    String::from_str(area).concat("/").concat(name).concat("/").concat(version).concat("/")
}

fn get_id(catalog: &Catalog, name: &str) -> (r: Result<u32, DeleteError>)
    requires
        catalog.wf(),
    ensures
        match r {
            Ok(id) => has_crate_named(catalog.crates(), name@) && crate_named(
                catalog.crates(),
                name@,
            ).id == id,
            Err(e) => e == DeleteError::MissingCrate && !has_crate_named(
                catalog.crates(),
                name@,
            ),
        },
{
    match catalog.crate_id_by_name(name) {
        Some(id) => Ok(id),
        None => Err(DeleteError::MissingCrate),
    }
}

/// The metadata phase of deleting one version: one relational transaction
/// that clears the version's dependent rows, removes its release row and
/// recomputes the package's latest-version pointer — or, on a missing
/// package or a backend fault, changes nothing at all.
pub fn delete_version_from_database(
    catalog: &mut Catalog,
    name: &str,
    version: &str,
    backend_fault: bool,
) -> (r: Result<(), DeleteError>)
    requires
        old(catalog).wf(),
    ensures
        final(catalog).wf(),
        match r {
            Ok(()) => !backend_fault && has_crate_named(old(catalog).crates(), name@)
                && version_cascade_applied(
                *old(catalog),
                *final(catalog),
                crate_named(old(catalog).crates(), name@).id,
                version@,
            ),
            Err(DeleteError::MissingCrate) => !has_crate_named(old(catalog).crates(), name@)
                && *final(catalog) == *old(catalog),
            Err(DeleteError::TransactionFailed) => backend_fault && has_crate_named(
                old(catalog).crates(),
                name@,
            ) && *final(catalog) == *old(catalog),
        },
{
    let crate_id = match get_id(catalog, name) {
        Ok(id) => id,
        Err(e) => {
            return Err(e);
        },
    };
    if backend_fault {
        return Err(DeleteError::TransactionFailed);
    }
    proof {
        let i = choose|i: int|
            0 <= i < catalog.crates().len() && catalog.crates()[i].name@ == name@;
        assert(catalog.crates()[i].id == crate_id);
        assert(has_crate_id(catalog.crates(), crate_id));
    }
    catalog.apply_version_cascade(crate_id, version);
    Ok(())
}

/// The metadata phase of deleting a whole package, given its id: one
/// relational transaction over sandbox overrides, the dependent tables,
/// ownership rows, releases and the package row — or, on a backend fault,
/// a rollback that changes nothing at all.
pub fn delete_crate_from_database(
    catalog: &mut Catalog,
    name: &str,
    crate_id: u32,
    backend_fault: bool,
) -> (r: Result<(), DeleteError>)
    requires
        old(catalog).wf(),
    ensures
        final(catalog).wf(),
        match r {
            Ok(()) => !backend_fault && crate_cascade_applied(
                *old(catalog),
                *final(catalog),
                crate_id,
                name@,
            ),
            Err(e) => e == DeleteError::TransactionFailed && backend_fault && *final(catalog)
                == *old(catalog),
        },
{
    if backend_fault {
        return Err(DeleteError::TransactionFailed);
    }
    catalog.apply_crate_cascade(crate_id, name);
    Ok(())
}

/// Delete one version of a package: the metadata phase, then — only after
/// it committed — the version's blob prefixes in each storage area.  On a
/// missing package name or a backend fault nothing is removed anywhere.
pub fn delete_version(
    catalog: &mut Catalog,
    store: &mut BlobStore,
    name: &str,
    version: &str,
    backend_fault: bool,
) -> (r: Result<(), DeleteError>)
    requires
        old(catalog).wf(),
        old(store).wf(),
    ensures
        final(catalog).wf(),
        final(store).wf(),
        match r {
            Ok(()) => {
                &&& !backend_fault
                &&& has_crate_named(old(catalog).crates(), name@)
                &&& version_cascade_applied(
                    *old(catalog),
                    *final(catalog),
                    crate_named(old(catalog).crates(), name@).id,
                    version@,
                )
                &&& final(store).files() == remove_prefix(
                    remove_prefix(
                        old(store).files(),
                        version_prefix("rustdoc"@, name@, version@),
                    ),
                    version_prefix("sources"@, name@, version@),
                )
                &&& final(store).uploaded() == old(store).uploaded()
            },
            Err(DeleteError::MissingCrate) => !has_crate_named(old(catalog).crates(), name@)
                && *final(catalog) == *old(catalog) && *final(store) == *old(store),
            Err(DeleteError::TransactionFailed) => backend_fault && has_crate_named(
                old(catalog).crates(),
                name@,
            ) && *final(catalog) == *old(catalog) && *final(store) == *old(store),
        },
{
    match delete_version_from_database(catalog, name, version, backend_fault) {
        Err(e) => Err(e),
        Ok(()) => {
            let p1 = version_prefix_string("rustdoc", name, version);
            let _ = store.delete_prefix(p1.as_str());
            let p2 = version_prefix_string("sources", name, version);
            let _ = store.delete_prefix(p2.as_str());
            Ok(())
        },
    }
}

/// Delete a whole package: the metadata phase, then — only after it
/// committed — the package's blob prefixes in each storage area.  On a
/// missing package name or a backend fault nothing is removed anywhere.
pub fn delete_crate(
    catalog: &mut Catalog,
    store: &mut BlobStore,
    name: &str,
    backend_fault: bool,
) -> (r: Result<(), DeleteError>)
    requires
        old(catalog).wf(),
        old(store).wf(),
    ensures
        final(catalog).wf(),
        final(store).wf(),
        match r {
            Ok(()) => {
                &&& !backend_fault
                &&& has_crate_named(old(catalog).crates(), name@)
                &&& crate_cascade_applied(
                    *old(catalog),
                    *final(catalog),
                    crate_named(old(catalog).crates(), name@).id,
                    name@,
                )
                &&& final(store).files() == remove_prefix(
                    remove_prefix(old(store).files(), crate_prefix("rustdoc"@, name@)),
                    crate_prefix("sources"@, name@),
                )
                &&& final(store).uploaded() == old(store).uploaded()
            },
            Err(DeleteError::MissingCrate) => !has_crate_named(old(catalog).crates(), name@)
                && *final(catalog) == *old(catalog) && *final(store) == *old(store),
            Err(DeleteError::TransactionFailed) => backend_fault && has_crate_named(
                old(catalog).crates(),
                name@,
            ) && *final(catalog) == *old(catalog) && *final(store) == *old(store),
        },
{
    let crate_id = match get_id(catalog, name) {
        Ok(id) => id,
        Err(e) => {
            return Err(e);
        },
    };
    match delete_crate_from_database(catalog, name, crate_id, backend_fault) {
        Err(e) => Err(e),
        Ok(()) => {
            let p1 = crate_prefix_string("rustdoc", name);
            let _ = store.delete_prefix(p1.as_str());
            let p2 = crate_prefix_string("sources", name);
            let _ = store.delete_prefix(p2.as_str());
            Ok(())
        },
    }
}

} // verus!
