//! The relational-table-backed blob store and its scoped transactions.
//!
//! Blobs live in one table keyed by path.  Reads enforce a caller-supplied
//! size ceiling and reject unrecognized compression codes; writes go through
//! a [`StorageTransaction`], a buffered batch that becomes visible only when
//! [`StorageTransaction::complete`] applies it as one atomic unit.  Dropping
//! a transaction without completing it rolls every buffered operation back,
//! which is the safety net for multi-step operations.

use crate::like::{build_prefix_pattern, is_prefix_of, lemma_prefix_pattern_matches, like_match,
    like_matches, prefix_pattern};
use crate::text::{chars_of, str_eq};
use vstd::prelude::*;

verus! {

/// The relational backend caps one blob's content near 1 GiB.
pub const MAX_BLOB_SIZE: usize = 0x40000000;

/// The content encodings this engine recognizes.
#[derive(Clone, Copy, PartialEq, Eq, Structural, Debug)]
pub enum CompressionAlgorithm {
    Zstd,
}

impl CompressionAlgorithm {
    /// The small-integer code stored beside a blob's content.
    pub open spec fn spec_code(self) -> i16 {
        match self {
            CompressionAlgorithm::Zstd => 0,
        }
    }

    /// The code this algorithm is stored under.
    pub fn code(self) -> (r: i16)
        ensures
            r == self.spec_code(),
    {
        match self {
            CompressionAlgorithm::Zstd => 0,
        }
    }

    /// The algorithm a stored code denotes, if any.
    pub open spec fn spec_from_code(c: i16) -> Option<CompressionAlgorithm> {
        if c == 0 {
            Some(CompressionAlgorithm::Zstd)
        } else {
            None
        }
    }

    /// Decode a stored code.
    pub fn from_code(c: i16) -> (r: Option<CompressionAlgorithm>)
        ensures
            r == Self::spec_from_code(c),
    {
        if c == 0 {
            Some(CompressionAlgorithm::Zstd)
        } else {
            None
        }
    }
}

/// The stored code of an optional algorithm; absence means uncompressed.
pub open spec fn code_of(c: Option<CompressionAlgorithm>) -> Option<i16> {
    match c {
        None => None,
        Some(a) => Some(a.spec_code()),
    }
}

/// A stored compression code the current engine can decode.
pub open spec fn valid_compression(c: Option<i16>) -> bool {
    match c {
        None => true,
        Some(x) => CompressionAlgorithm::spec_from_code(x) is Some,
    }
}

/// One stored artifact: a named binary payload with its content type,
/// optional compression code, and the time of its last write.
#[derive(Debug)]
pub struct Blob {
    pub path: String,
    pub mime: String,
    pub content: Vec<u8>,
    pub compression: Option<CompressionAlgorithm>,
    pub date_updated: u64,
}

/// What the store remembers about one path: everything but the key.
pub ghost struct BlobData {
    pub mime: Seq<char>,
    pub content: Seq<u8>,
    pub compression: Option<i16>,
    pub date_updated: u64,
}

/// The stored form of a blob written at time `now`.
pub open spec fn stored_data(b: Blob, now: u64) -> BlobData {
    BlobData {
        mime: b.mime@,
        content: b.content@,
        compression: code_of(b.compression),
        date_updated: now,
    }
}

/// The data a returned blob carries.
pub open spec fn blob_data(b: Blob) -> BlobData {
    BlobData {
        mime: b.mime@,
        content: b.content@,
        compression: code_of(b.compression),
        date_updated: b.date_updated,
    }
}

/// Why a storage operation was refused.
#[derive(Clone, Copy, PartialEq, Eq, Structural, Debug)]
pub enum StorageError {
    /// No blob lives at the requested path.
    PathNotFound,
    /// The stored content is larger than the requested read ceiling.
    SizeLimitExceeded,
    /// The stored compression code is not one this engine can decode.
    CorruptData,
    /// A write larger than the backend's per-blob cap.
    BlobTooLarge,
}

/// What a bounded read returns: the blob at `path`, or the first error in
/// the order the backend reports them.
pub open spec fn lookup(files: Map<Seq<char>, BlobData>, path: Seq<char>, max_size: int) -> Result<
    BlobData,
    StorageError,
> {
    if !files.contains_key(path) {
        Err(StorageError::PathNotFound)
    } else if files[path].content.len() > max_size {
        Err(StorageError::SizeLimitExceeded)
    } else if !valid_compression(files[path].compression) {
        Err(StorageError::CorruptData)
    } else {
        Ok(files[path])
    }
}

/// The store after every blob under the literal prefix `p` is gone.
pub open spec fn remove_prefix(files: Map<Seq<char>, BlobData>, p: Seq<char>) -> Map<
    Seq<char>,
    BlobData,
> {
    files.remove_keys(Set::new(|k: Seq<char>| is_prefix_of(p, k)))
}

struct FileRow {
    path: String,
    mime: String,
    content: Vec<u8>,
    compression: Option<i16>,
    date_updated: u64,
}

spec fn row_data(r: FileRow) -> BlobData {
    BlobData {
        mime: r.mime@,
        content: r.content@,
        compression: r.compression,
        date_updated: r.date_updated,
    }
}

spec fn paths_unique(rows: Seq<FileRow>) -> bool {
    forall|i: int, j: int| 0 <= i < j < rows.len() ==> rows[i].path@ != rows[j].path@
}

spec fn path_index(rows: Seq<FileRow>, k: Seq<char>) -> int {
    choose|i: int| 0 <= i < rows.len() && rows[i].path@ == k
}

spec fn seq_has_path(rows: Seq<FileRow>, p: Seq<char>) -> bool {
    exists|i: int| 0 <= i < rows.len() && rows[i].path@ == p
}

spec fn files_of(rows: Seq<FileRow>) -> Map<Seq<char>, BlobData> {
    Map::new(
        |k: Seq<char>| seq_has_path(rows, k),
        |k: Seq<char>| row_data(rows[path_index(rows, k)]),
    )
}

proof fn lemma_files_at(rows: Seq<FileRow>, i: int)
    requires
        paths_unique(rows),
        0 <= i < rows.len(),
    ensures
        files_of(rows).contains_key(rows[i].path@),
        files_of(rows)[rows[i].path@] == row_data(rows[i]),
{
    let k = rows[i].path@;
    assert(files_of(rows).contains_key(k));
    let j = path_index(rows, k);
    assert(0 <= j < rows.len() && rows[j].path@ == k);
    if i != j {
        assert(rows[i].path@ != rows[j].path@);
    }
}

/// The relational-table blob store: one row per path, plus the running
/// count of blobs uploaded through completed transactions.
pub struct BlobStore {
    rows: Vec<FileRow>,
    uploaded_total: u64,
}

/// One buffered operation of a storage transaction.
enum StorageOp {
    Store(Blob),
    DeletePrefix { prefix: String, pattern: Vec<char> },
}

/// What a buffered operation means, independent of its mechanism.
pub ghost enum StorageOpView {
    Store { path: Seq<char>, blob: Blob },
    DeletePrefix { prefix: Seq<char> },
}

spec fn op_view(op: StorageOp) -> StorageOpView {
    match op {
        StorageOp::Store(b) => StorageOpView::Store { path: b.path@, blob: b },
        StorageOp::DeletePrefix { prefix, pattern } => StorageOpView::DeletePrefix {
            prefix: prefix@,
        },
    }
}

spec fn op_wf(op: StorageOp) -> bool {
    match op {
        StorageOp::Store(b) => b.content@.len() <= MAX_BLOB_SIZE,
        StorageOp::DeletePrefix { prefix, pattern } => pattern@ == prefix_pattern(prefix@),
    }
}

/// One operation applied to the store's contents, writes stamped with `now`.
pub open spec fn apply_op(
    files: Map<Seq<char>, BlobData>,
    op: StorageOpView,
    now: u64,
) -> Map<Seq<char>, BlobData> {
    match op {
        StorageOpView::Store { path, blob } => files.insert(path, stored_data(blob, now)),
        StorageOpView::DeletePrefix { prefix } => remove_prefix(files, prefix),
    }
}

/// A sequence of operations applied in order.
pub open spec fn apply_ops(
    files: Map<Seq<char>, BlobData>,
    ops: Seq<StorageOpView>,
    now: u64,
) -> Map<Seq<char>, BlobData>
    decreases ops.len(),
{
    if ops.len() == 0 {
        files
    } else {
        apply_op(apply_ops(files, ops.drop_last(), now), ops.last(), now)
    }
}

impl BlobStore {
    /// The live contents: each path to what is stored under it.
    pub closed spec fn files(self) -> Map<Seq<char>, BlobData> {
        files_of(self.rows@)
    }

    /// How many blobs completed transactions have written.
    pub closed spec fn uploaded(self) -> u64 {
        self.uploaded_total
    }

    /// Paths are unique: at most one live blob per path.
    pub closed spec fn wf(self) -> bool {
        paths_unique(self.rows@)
    }

    /// An empty store.
    pub fn new() -> (r: BlobStore)
        ensures
            r.wf(),
            r.files() == Map::<Seq<char>, BlobData>::empty(),
            r.uploaded() == 0,
    {
        let r = BlobStore { rows: Vec::new(), uploaded_total: 0 };
        proof {
            assert(r.files() =~= Map::<Seq<char>, BlobData>::empty());
        }
        r
    }

    /// An existence probe, independent of blob size.
    pub fn blob_exists(&self, path: &str) -> (r: bool)
        ensures
            r == self.files().contains_key(path@),
    {
        match find_row(&self.rows, path) {
            Some(i) => {
                proof {
                    assert(self.files().contains_key(path@));
                }
                true
            },
            None => {
                proof {
                    if self.files().contains_key(path@) {
                        let i = choose|i: int|
                            0 <= i < self.rows@.len() && self.rows@[i].path@ == path@;
                        assert(self.rows@[i].path@ != path@);
                    }
                }
                false
            },
        }
    }

    /// A bounded read: the blob at `path`, unless it is missing, its stored
    /// content exceeds `max_size`, or its compression code is unrecognized.
    /// The ceiling is enforced against the stored size, never by truncation.
    pub fn get(&self, path: &str, max_size: usize) -> (r: Result<Blob, StorageError>)
        requires
            self.wf(),
        ensures
            match r {
                Ok(b) => lookup(self.files(), path@, max_size as int) == Ok::<
                    BlobData,
                    StorageError,
                >(blob_data(b)) && b.path@ == path@,
                Err(e) => lookup(self.files(), path@, max_size as int) == Err::<
                    BlobData,
                    StorageError,
                >(e),
            },
    {
        match find_row(&self.rows, path) {
            None => {
                proof {
                    if self.files().contains_key(path@) {
                        let i = choose|i: int|
                            0 <= i < self.rows@.len() && self.rows@[i].path@ == path@;
                        assert(self.rows@[i].path@ != path@);
                    }
                }
                Err(StorageError::PathNotFound)
            },
            Some(i) => {
                proof {
                    lemma_files_at(self.rows@, i as int);
                }
                let row = &self.rows[i];
                if row.content.len() > max_size {
                    Err(StorageError::SizeLimitExceeded)
                } else {
                    let compression = match row.compression {
                        None => None,
                        Some(c) => {
                            match CompressionAlgorithm::from_code(c) {
                                None => {
                                    return Err(StorageError::CorruptData);
                                },
                                Some(alg) => Some(alg),
                            }
                        },
                    };
                    Ok(
                        Blob {
                            path: path.to_owned(),
                            mime: row.mime.clone(),
                            content: clone_bytes(&row.content),
                            compression,
                            date_updated: row.date_updated,
                        },
                    )
                }
            },
        }
    }

    /// A fresh transaction against this store.
    pub fn start_storage_transaction(&self) -> (t: StorageTransaction)
        ensures
            t.wf(),
            t.ops_view() == Seq::<StorageOpView>::empty(),
            t.pending() == 0,
    {
        let t = StorageTransaction { ops: Vec::new(), pending_uploads: 0 };
        proof {
            assert(t.ops_view() =~= Seq::<StorageOpView>::empty());
        }
        t
    }

    /// Delete every blob whose path starts with the literal `prefix`.
    /// Metacharacters in `prefix` are escaped before matching, so they are
    /// never interpreted as pattern wildcards; a prefix that matches nothing
    /// deletes nothing and is not an error.
    pub fn delete_prefix(&mut self, prefix: &str) -> (r: Result<(), StorageError>)
        requires
            old(self).wf(),
        ensures
            final(self).wf(),
            r is Ok,
            final(self).files() == remove_prefix(old(self).files(), prefix@),
            final(self).uploaded() == old(self).uploaded(),
    {
        let pattern = build_prefix_pattern(prefix);
        remove_matching_rows(&mut self.rows, &pattern);
        proof {
            lemma_pattern_set_is_prefix_set(prefix@);
        }
        Ok(())
    }

    /// One row written around the engine: a raw code and timestamp, as a
    /// migration or an older writer may have left it.  This is how a stored
    /// compression code the current engine does not recognize can arise.
    pub fn put_raw_row(
        &mut self,
        path: &str,
        mime: &str,
        content: Vec<u8>,
        compression: Option<i16>,
        date_updated: u64,
    )
        requires
            old(self).wf(),
        ensures
            final(self).wf(),
            final(self).files() == old(self).files().insert(
                path@,
                BlobData {
                    mime: mime@,
                    content: content@,
                    compression,
                    date_updated,
                },
            ),
            final(self).uploaded() == old(self).uploaded(),
    {
        let row = FileRow {
            path: path.to_owned(),
            mime: mime.to_owned(),
            content,
            compression,
            date_updated,
        };
        upsert_row(&mut self.rows, row);
    }

    /// The number of blobs uploaded through completed transactions.
    pub fn uploaded_files_total(&self) -> (r: u64)
        ensures
            r == self.uploaded(),
    {
        self.uploaded_total
    }
}

/// A scoped, explicitly-completed batch of blob writes and prefix
/// deletions.  Nothing is visible in the store until `complete`; dropping
/// the transaction instead abandons every buffered operation.
pub struct StorageTransaction {
    ops: Vec<StorageOp>,
    pending_uploads: u64,
}

impl StorageTransaction {
    /// The buffered operations, oldest first.
    pub closed spec fn ops_view(self) -> Seq<StorageOpView> {
        self.ops@.map_values(|op: StorageOp| op_view(op))
    }

    /// How many blob writes this transaction has buffered.
    pub closed spec fn pending(self) -> u64 {
        self.pending_uploads
    }

    /// Every buffered write fits the backend cap and every buffered
    /// deletion carries the escaped pattern of its literal prefix.
    pub closed spec fn wf(self) -> bool {
        forall|i: int| 0 <= i < self.ops@.len() ==> op_wf(#[trigger] self.ops@[i])
    }

    /// Buffer a batch of upserts, one atomic unit: either every blob of the
    /// batch is accepted, or — if any single write exceeds the backend's
    /// per-blob cap — none is, and the transaction is left as it was.
    pub fn store_batch(&mut self, batch: Vec<Blob>) -> (r: Result<(), StorageError>)
        requires
            old(self).wf(),
            old(self).pending() + batch@.len() <= u64::MAX,
        ensures
            final(self).wf(),
            match r {
                Ok(()) => (forall|i: int|
                    0 <= i < batch@.len() ==> #[trigger] batch@[i].content@.len() <= MAX_BLOB_SIZE)
                    && final(self).ops_view() == old(self).ops_view() + batch@.map_values(
                    |b: Blob| StorageOpView::Store { path: b.path@, blob: b },
                ) && final(self).pending() == old(self).pending() + batch@.len(),
                Err(e) => e == StorageError::BlobTooLarge && (exists|i: int|
                    0 <= i < batch@.len() && #[trigger] batch@[i].content@.len() > MAX_BLOB_SIZE)
                    && final(self).ops_view() == old(self).ops_view() && final(self).pending()
                    == old(self).pending(),
            },
    {
        let n = batch.len();
        let mut i: usize = 0;
        while i < n
            invariant
                i <= n,
                n == batch@.len(),
                forall|j: int| 0 <= j < i ==> #[trigger] batch@[j].content@.len() <= MAX_BLOB_SIZE,
                self.wf(),
                self.ops_view() == old(self).ops_view(),
                self.pending() == old(self).pending(),
            decreases n - i,
        {
            if batch[i].content.len() > MAX_BLOB_SIZE {
                return Err(StorageError::BlobTooLarge);
            }
            i += 1;
        }
        let ghost batch_seq = batch@;
        let mut rest = batch;
        let mut done: usize = 0;
        while rest.len() > 0
            invariant
                n == batch_seq.len(),
                done <= n,
                done + rest@.len() == batch_seq.len(),
                rest@ == batch_seq.skip(done as int),
                self.wf(),
                forall|j: int|
                    0 <= j < batch_seq.len() ==> #[trigger] batch_seq[j].content@.len()
                        <= MAX_BLOB_SIZE,
                self.ops_view() == old(self).ops_view() + batch_seq.subrange(
                    0,
                    done as int,
                ).map_values(|b: Blob| StorageOpView::Store { path: b.path@, blob: b }),
                self.pending_uploads == old(self).pending() + done,
                old(self).pending() + batch_seq.len() <= u64::MAX,
            decreases rest@.len(),
        {
            let b = rest.remove(0);
            proof {
                assert(b == batch_seq[done as int]);
                assert(rest@ =~= batch_seq.skip((done + 1) as int));
            }
            let ghost prev_ops = self.ops@;
            self.ops.push(StorageOp::Store(b));
            self.pending_uploads = self.pending_uploads + 1;
            proof {
                let pre = batch_seq.subrange(0, done as int);
                let post = batch_seq.subrange(0, (done + 1) as int);
                let f = |b: Blob| StorageOpView::Store { path: b.path@, blob: b };
                assert(post =~= pre.push(batch_seq[done as int]));
                assert(post.map_values(f) =~= pre.map_values(f).push(f(batch_seq[done as int])));
                assert(self.ops@ =~= prev_ops.push(StorageOp::Store(b)));
                assert(self.ops@.map_values(|op: StorageOp| op_view(op)) =~= prev_ops.map_values(
                    |op: StorageOp| op_view(op),
                ).push(op_view(StorageOp::Store(b))));
                assert(op_view(StorageOp::Store(b)) == f(b));
                assert(self.ops_view() =~= old(self).ops_view() + post.map_values(f));
            }
            done += 1;
        }
        proof {
            assert(batch_seq.subrange(0, batch_seq.len() as int) =~= batch_seq);
        }
        Ok(())
    }

    /// Buffer the deletion of every blob under the literal `prefix`.  The
    /// prefix is escaped here, before it ever reaches pattern matching.
    pub fn delete_prefix(&mut self, prefix: &str) -> (r: Result<(), StorageError>)
        requires
            old(self).wf(),
        ensures
            final(self).wf(),
            r is Ok,
            final(self).ops_view() == old(self).ops_view().push(
                StorageOpView::DeletePrefix { prefix: prefix@ },
            ),
            final(self).pending() == old(self).pending(),
    {
        let pattern = build_prefix_pattern(prefix);
        self.ops.push(StorageOp::DeletePrefix { prefix: prefix.to_owned(), pattern });
        proof {
            assert(final(self).ops_view() =~= old(self).ops_view().push(
                StorageOpView::DeletePrefix { prefix: prefix@ },
            ));
        }
        Ok(())
    }

    /// Commit: apply every buffered operation, in order, as one atomic
    /// unit, stamping each written blob with `now` and counting it.
    pub fn complete(self, store: &mut BlobStore, now: u64) -> (r: Result<(), StorageError>)
        requires
            self.wf(),
            old(store).wf(),
            old(store).uploaded() + self.pending() <= u64::MAX,
        ensures
            final(store).wf(),
            r is Ok,
            final(store).files() == apply_ops(old(store).files(), self.ops_view(), now),
            final(store).uploaded() == old(store).uploaded() + self.pending(),
    {
        let ghost ops_seq = self.ops_view();
        let n = self.ops.len();
        let mut i: usize = 0;
        while i < n
            invariant
                i <= n,
                n == self.ops@.len(),
                self.wf(),
                ops_seq == self.ops_view(),
                store.wf(),
                store.files() == apply_ops(old(store).files(), ops_seq.subrange(0, i as int), now),
                store.uploaded_total == old(store).uploaded(),
            decreases n - i,
        {
            proof {
                assert(ops_seq.subrange(0, (i + 1) as int).drop_last() =~= ops_seq.subrange(
                    0,
                    i as int,
                ));
                assert(ops_seq.subrange(0, (i + 1) as int).last() == ops_seq[i as int]);
                assert(op_wf(self.ops@[i as int]));
            }
            match &self.ops[i] {
                StorageOp::Store(b) => {
                    let row = FileRow {
                        path: b.path.clone(),
                        mime: b.mime.clone(),
                        content: clone_bytes(&b.content),
                        compression: match b.compression {
                            None => None,
                            Some(alg) => Some(alg.code()),
                        },
                        date_updated: now,
                    };
                    proof {
                        assert(row_data(row) == stored_data(*b, now));
                    }
                    upsert_row(&mut store.rows, row);
                },
                StorageOp::DeletePrefix { prefix, pattern } => {
                    remove_matching_rows(&mut store.rows, pattern);
                    proof {
                        lemma_pattern_set_is_prefix_set(prefix@);
                    }
                },
            }
            i += 1;
        }
        proof {
            assert(ops_seq.subrange(0, n as int) =~= ops_seq);
        }
        store.uploaded_total = store.uploaded_total + self.pending_uploads;
        Ok(())
    }
}

fn find_row(rows: &Vec<FileRow>, path: &str) -> (r: Option<usize>)
    ensures
        match r {
            Some(i) => i < rows@.len() && rows@[i as int].path@ == path@,
            None => forall|i: int| 0 <= i < rows@.len() ==> rows@[i].path@ != path@,
        },
{
    let n = rows.len();
    let mut i: usize = 0;
    while i < n
        invariant
            i <= n,
            n == rows@.len(),
            forall|j: int| 0 <= j < i ==> rows@[j].path@ != path@,
        decreases n - i,
    {
        if str_eq(rows[i].path.as_str(), path) {
            return Some(i);
        }
        i += 1;
    }
    None
}

fn clone_bytes(v: &Vec<u8>) -> (r: Vec<u8>)
    ensures
        r@ == v@,
{
    let n = v.len();
    let mut r: Vec<u8> = Vec::new();
    let mut i: usize = 0;
    while i < n
        invariant
            i <= n,
            n == v@.len(),
            r@ == v@.subrange(0, i as int),
        decreases n - i,
    {
        r.push(v[i]);
        assert(v@.subrange(0, i as int).push(v@[i as int]) =~= v@.subrange(0, (i + 1) as int));
        i += 1;
    }
    assert(v@.subrange(0, n as int) =~= v@);
    r
}

fn upsert_row(rows: &mut Vec<FileRow>, row: FileRow)
    requires
        paths_unique(old(rows)@),
    ensures
        paths_unique(final(rows)@),
        files_of(final(rows)@) == files_of(old(rows)@).insert(row.path@, row_data(row)),
{
    let ghost old_rows = rows@;
    let ghost k = row.path@;
    let ghost d = row_data(row);
    match find_row(rows, row.path.as_str()) {
        Some(i) => {
            let slot = vstd::std_specs::vec::vec_index_mut(rows, i);
            *slot = row;
            proof {
                let new_rows = rows@;
                assert(new_rows =~= old_rows.update(i as int, row));
                assert(paths_unique(new_rows));
                lemma_files_insert(old_rows, new_rows, i as int, k, d);
            }
        },
        None => {
            rows.push(row);
            proof {
                let new_rows = rows@;
                assert(new_rows =~= old_rows.push(row));
                assert(forall|i: int| 0 <= i < old_rows.len() ==> old_rows[i].path@ != k);
                assert(paths_unique(new_rows));
                lemma_files_insert(old_rows, new_rows, old_rows.len() as int, k, d);
            }
        },
    }
}

proof fn lemma_files_insert(
    old_rows: Seq<FileRow>,
    new_rows: Seq<FileRow>,
    i: int,
    k: Seq<char>,
    d: BlobData,
)
    requires
        paths_unique(old_rows),
        paths_unique(new_rows),
        0 <= i < new_rows.len(),
        new_rows[i].path@ == k,
        row_data(new_rows[i]) == d,
        forall|j: int|
            #![trigger new_rows[j]]
            0 <= j < new_rows.len() && j != i ==> j < old_rows.len() && new_rows[j] == old_rows[j],
        old_rows.len() <= new_rows.len() <= old_rows.len() + 1,
        new_rows.len() == old_rows.len() ==> old_rows[i].path@ == k,
        new_rows.len() == old_rows.len() + 1 ==> i == old_rows.len(),
    ensures
        files_of(new_rows) == files_of(old_rows).insert(k, d),
{
    let lhs = files_of(new_rows);
    let rhs = files_of(old_rows).insert(k, d);
    assert forall|p: Seq<char>| lhs.contains_key(p) implies rhs.contains_key(p) by {
        assert(seq_has_path(new_rows, p));
        let j = choose|j: int| 0 <= j < new_rows.len() && new_rows[j].path@ == p;
        if j != i {
            assert(new_rows[j] == old_rows[j]);
            assert(old_rows[j].path@ == p);
            assert(seq_has_path(old_rows, p));
            assert(files_of(old_rows).contains_key(p));
        }
    }
    assert forall|p: Seq<char>| rhs.contains_key(p) implies lhs.contains_key(p) by {
        if p == k {
            assert(new_rows[i].path@ == p);
            assert(seq_has_path(new_rows, p));
        } else {
            assert(files_of(old_rows).contains_key(p));
            assert(seq_has_path(old_rows, p));
            let j = choose|j: int| 0 <= j < old_rows.len() && old_rows[j].path@ == p;
            if new_rows.len() == old_rows.len() && j == i {
                assert(old_rows[i].path@ == k);
            } else {
                assert(new_rows[j] == old_rows[j]);
                assert(new_rows[j].path@ == p);
                assert(seq_has_path(new_rows, p));
            }
        }
    }
    assert forall|p: Seq<char>| lhs.contains_key(p) implies lhs[p] == rhs[p] by {
        if p == k {
            lemma_files_at(new_rows, i);
        } else {
            assert(seq_has_path(new_rows, p));
            let j = choose|j: int| 0 <= j < new_rows.len() && new_rows[j].path@ == p;
            assert(j != i);
            assert(new_rows[j] == old_rows[j]);
            assert(old_rows[j].path@ == p);
            lemma_files_at(new_rows, j);
            lemma_files_at(old_rows, j);
        }
    }
    assert(lhs =~= rhs);
}

/// The keys a stored prefix pattern matches are exactly the keys under the
/// literal prefix.
proof fn lemma_pattern_set_is_prefix_set(p: Seq<char>)
    ensures
        Set::new(|k: Seq<char>| like_matches(prefix_pattern(p), k)) == Set::new(
            |k: Seq<char>| is_prefix_of(p, k),
        ),
{
    let a = Set::new(|k: Seq<char>| like_matches(prefix_pattern(p), k));
    let b = Set::new(|k: Seq<char>| is_prefix_of(p, k));
    assert forall|k: Seq<char>| #[trigger] a.contains(k) <==> b.contains(k) by {
        lemma_prefix_pattern_matches(p, k);
    }
    assert(a =~= b);
}

spec fn suffix_has_kept_path(
    rows: Seq<FileRow>,
    from: int,
    pattern: Seq<char>,
    p: Seq<char>,
) -> bool {
    exists|y: int| from <= y < rows.len() && rows[y].path@ == p && !like_matches(pattern, p)
}

spec fn row_from_suffix(rows: Seq<FileRow>, from: int, pattern: Seq<char>, r: FileRow) -> bool {
    exists|y: int| from <= y < rows.len() && r == rows[y] && !like_matches(pattern, rows[y].path@)
}

fn remove_matching_rows(rows: &mut Vec<FileRow>, pattern: &Vec<char>)
    requires
        paths_unique(old(rows)@),
    ensures
        paths_unique(final(rows)@),
        files_of(final(rows)@) == files_of(old(rows)@).remove_keys(
            Set::new(|k: Seq<char>| like_matches(pattern@, k)),
        ),
{
    let ghost old_rows = rows@;
    let ghost nn = old_rows.len();
    let mut kept: Vec<FileRow> = Vec::new();
    while rows.len() > 0
        invariant
            paths_unique(old_rows),
            nn == old_rows.len(),
            rows@.len() <= nn,
            rows@ == old_rows.subrange(0, rows@.len() as int),
            forall|p: Seq<char>|
                #[trigger] seq_has_path(kept@, p) <==> suffix_has_kept_path(
                    old_rows,
                    rows@.len() as int,
                    pattern@,
                    p,
                ),
            forall|x: int|
                0 <= x < kept@.len() ==> row_from_suffix(
                    old_rows,
                    rows@.len() as int,
                    pattern@,
                    #[trigger] kept@[x],
                ),
            paths_unique(kept@),
        decreases rows@.len(),
    {
        let ghost j = rows@.len() - 1;
        let ghost kept_pre = kept@;
        let row = rows.pop().unwrap();
        proof {
            assert(row == old_rows[j]);
            assert(rows@ =~= old_rows.subrange(0, j));
        }
        let pv = chars_of(row.path.as_str());
        let keep = !like_match(pattern, &pv);
        if keep {
            proof {
                if seq_has_path(kept_pre, row.path@) {
                    assert(suffix_has_kept_path(old_rows, j + 1, pattern@, row.path@));
                    let y = choose|y: int|
                        j + 1 <= y < nn && old_rows[y].path@ == row.path@ && !like_matches(
                            pattern@,
                            row.path@,
                        );
                    assert(old_rows[j].path@ != old_rows[y].path@);
                    assert(false);
                }
            }
            kept.push(row);
        }
        proof {
            assert forall|p: Seq<char>| #[trigger] seq_has_path(kept@, p) implies
                suffix_has_kept_path(old_rows, j, pattern@, p) by {
                let x = choose|x: int| 0 <= x < kept@.len() && kept@[x].path@ == p;
                if x < kept_pre.len() {
                    assert(kept_pre[x].path@ == p);
                    assert(seq_has_path(kept_pre, p));
                    assert(suffix_has_kept_path(old_rows, j + 1, pattern@, p));
                } else {
                    assert(kept@[x] == old_rows[j]);
                    assert(old_rows[j].path@ == p && !like_matches(pattern@, p));
                }
            }
            assert forall|p: Seq<char>| suffix_has_kept_path(old_rows, j, pattern@, p) implies
                #[trigger] seq_has_path(kept@, p) by {
                let y = choose|y: int|
                    j <= y < nn && old_rows[y].path@ == p && !like_matches(pattern@, p);
                if y == j {
                    assert(!like_matches(pattern@, old_rows[j].path@));
                    assert(keep);
                    assert(kept@[kept@.len() - 1] == row);
                    assert(kept@[kept@.len() - 1].path@ == p);
                    assert(seq_has_path(kept@, p));
                } else {
                    assert(suffix_has_kept_path(old_rows, j + 1, pattern@, p));
                    assert(seq_has_path(kept_pre, p));
                    let x = choose|x: int| 0 <= x < kept_pre.len() && kept_pre[x].path@ == p;
                    assert(kept@[x].path@ == p);
                }
            }
            assert forall|x: int| 0 <= x < kept@.len() implies row_from_suffix(
                old_rows,
                j,
                pattern@,
                #[trigger] kept@[x],
            ) by {
                if x < kept_pre.len() {
                    assert(row_from_suffix(old_rows, j + 1, pattern@, kept_pre[x]));
                    let y = choose|y: int|
                        j + 1 <= y < nn && kept_pre[x] == old_rows[y] && !like_matches(
                            pattern@,
                            old_rows[y].path@,
                        );
                    assert(kept@[x] == old_rows[y]);
                } else {
                    assert(kept@[x] == old_rows[j]);
                }
            }
        }
    }
    *rows = kept;
    proof {
        let final_rows = rows@;
        let lhs = files_of(final_rows);
        let rhs = files_of(old_rows).remove_keys(
            Set::new(|k: Seq<char>| like_matches(pattern@, k)),
        );
        assert forall|p: Seq<char>| lhs.contains_key(p) implies rhs.contains_key(p) && lhs[p]
            == rhs[p] by {
            assert(seq_has_path(final_rows, p));
            assert(suffix_has_kept_path(old_rows, 0, pattern@, p));
            let y = choose|y: int|
                0 <= y < nn && old_rows[y].path@ == p && !like_matches(pattern@, p);
            assert(old_rows[y].path@ == p);
            assert(seq_has_path(old_rows, p));
            assert(files_of(old_rows).contains_key(p));
            assert(!Set::new(|k: Seq<char>| like_matches(pattern@, k)).contains(p));
            assert(rhs.contains_key(p));
            let x = choose|x: int| 0 <= x < final_rows.len() && final_rows[x].path@ == p;
            lemma_files_at(final_rows, x);
            assert(row_from_suffix(old_rows, 0, pattern@, final_rows[x]));
            let y2 = choose|y2: int|
                0 <= y2 < nn && final_rows[x] == old_rows[y2] && !like_matches(
                    pattern@,
                    old_rows[y2].path@,
                );
            lemma_files_at(old_rows, y2);
        }
        assert forall|p: Seq<char>| rhs.contains_key(p) implies lhs.contains_key(p) by {
            assert(files_of(old_rows).contains_key(p));
            assert(seq_has_path(old_rows, p));
            assert(!Set::new(|k: Seq<char>| like_matches(pattern@, k)).contains(p));
            assert(!like_matches(pattern@, p));
            let y = choose|y: int| 0 <= y < nn && old_rows[y].path@ == p;
            assert(old_rows[y].path@ == p && !like_matches(pattern@, p));
            assert(suffix_has_kept_path(old_rows, 0, pattern@, p));
            assert(seq_has_path(final_rows, p));
        }
        assert(lhs =~= rhs);
    }
}

/// Storing a blob and then reading it back under a sufficient ceiling
/// returns exactly what was stored: content, mime and compression
/// together.  The stored form is what completing a one-blob batch leaves.
pub proof fn lemma_store_then_get(files: Map<Seq<char>, BlobData>, b: Blob, now: u64, max_size: int)
    requires
        b.content@.len() <= max_size,
    ensures
        lookup(
            apply_ops(files, seq![StorageOpView::Store { path: b.path@, blob: b }], now),
            b.path@,
            max_size,
        ) == Ok::<BlobData, StorageError>(stored_data(b, now)),
{
    let ops = seq![StorageOpView::Store { path: b.path@, blob: b }];
    assert(ops.drop_last() =~= Seq::<StorageOpView>::empty());
    assert(apply_ops(files, ops.drop_last(), now) == files);
    assert(apply_ops(files, ops, now) == files.insert(b.path@, stored_data(b, now)));
    assert(valid_compression(stored_data(b, now).compression)) by {
        match b.compression {
            None => {},
            Some(alg) => {
                assert(code_of(b.compression) == Some(alg.spec_code()));
            },
        }
    }
}

/// Writing the same path twice leaves exactly one blob there, holding the
/// later write; the store is upserted, never duplicated.
pub proof fn lemma_upsert_replaces(
    files: Map<Seq<char>, BlobData>,
    path: Seq<char>,
    d1: BlobData,
    d2: BlobData,
)
    ensures
        files.insert(path, d1).insert(path, d2) == files.insert(path, d2),
{
    assert(files.insert(path, d1).insert(path, d2) =~= files.insert(path, d2));
}

/// The size ceiling is exact: a stored blob of size `s` is refused at
/// ceiling `s - 1` and returned whole at ceiling `s`.
pub proof fn lemma_size_ceiling(files: Map<Seq<char>, BlobData>, path: Seq<char>)
    requires
        files.contains_key(path),
        valid_compression(files[path].compression),
    ensures
        lookup(files, path, files[path].content.len() - 1) == Err::<BlobData, StorageError>(
            StorageError::SizeLimitExceeded,
        ),
        lookup(files, path, files[path].content.len() as int) == Ok::<BlobData, StorageError>(
            files[path],
        ),
{
}

/// Prefix deletion is idempotent: a second deletion of the same prefix
/// changes nothing, and after either one no blob remains under the prefix.
pub proof fn lemma_delete_prefix_idempotent(files: Map<Seq<char>, BlobData>, p: Seq<char>)
    ensures
        remove_prefix(remove_prefix(files, p), p) == remove_prefix(files, p),
        forall|k: Seq<char>|
            is_prefix_of(p, k) ==> !(#[trigger] remove_prefix(files, p).contains_key(k)),
{
    assert(remove_prefix(remove_prefix(files, p), p) =~= remove_prefix(files, p));
}

} // verus!
