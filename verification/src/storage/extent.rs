//! Extent file layout, staging, commit, and immutability.
//!
//! Decides the full lifecycle of extent files:
//! - Path derivation from `(DiskId, ExtentId, ExtentVersion)`
//! - Temporary file staging with integrity metadata
//! - Atomic promotion from staged to committed (rename after fsync)
//! - Immutability enforcement for committed extents
//!
//! The file operations themselves are carried out by the caller, who hands in what they
//! found.

use crate::collections::sorted_ids;
use crate::ids::{DiskId, ExtentId};
use crate::storage::error::StorageError;
use crate::text::{
    decimal, decimal_is_injective, decimal_text, join2, join3, join4, join5,
    same_text, uuid_text, uuid_text_is_injective,
};
use std::collections::BTreeMap;
use vstd::prelude::*;
use vstd::string::*;
use vstd::utf8::is_ascii_chars;

verus! {

broadcast use vstd::std_specs::btree::group_btree_axioms;

/// Version identifier for an extent.
pub type ExtentVersion = u64;

/// Storage class for an extent.
#[derive(Clone, Copy, Debug, PartialEq, Eq, Structural, Hash)]
pub enum StorageClass {
    Default,
    HighPerformance,
    Archive,
}

impl Default for StorageClass {
    fn default() -> (r: Self)
        ensures
            r == StorageClass::Default,
    {
        StorageClass::Default
    }
}

/// Metadata for a committed local extent.
#[derive(Clone, Debug)]
pub struct ExtentMeta {
    pub extent_id: ExtentId,
    pub disk_id: DiskId,
    pub version: ExtentVersion,
    pub checksum: String,
    pub size: u64,
    pub storage_class: StorageClass,
    /// When the extent was committed, in seconds since the epoch.
    pub committed_at: u64,
}

/// Local extent index entry: where an extent is and what it holds.
#[derive(Clone, Debug)]
pub struct LocalExtentEntry {
    pub extent_id: ExtentId,
    pub disk_id: DiskId,
    pub path: String,
    pub version: ExtentVersion,
    pub checksum: String,
    pub size: u64,
    pub storage_class: StorageClass,
}

/// A path and what is joined to it, as the file system takes them: one separator between
/// the two, and none where the path is empty or ends in one.
pub open spec fn path_join(base: Seq<char>, part: Seq<char>) -> Seq<char> {
    if base.len() == 0 {
        part
    } else if base.last() == '/' {
        base + part
    } else {
        base + "/"@ + part
    }
}

/// The name of the file of an extent's version.
pub open spec fn extent_file_name(extent_id: ExtentId, version: ExtentVersion) -> Seq<char> {
    extent_id.text() + "_v"@ + decimal(version as nat)
}

/// Where a committed extent is: `<mount_path>/committed/<extent_id_prefix>/<extent_id>_v<version>`.
pub open spec fn committed_path(
    mount_path: Seq<char>,
    extent_id: ExtentId,
    version: ExtentVersion,
) -> Seq<char> {
    path_join(
        path_join(path_join(mount_path, "committed"@), extent_id.text().take(8)),
        extent_file_name(extent_id, version),
    )
}

/// Where a staged extent is: `<mount_path>/staged/<extent_id>_v<version>.staging`.
pub open spec fn staged_path(
    mount_path: Seq<char>,
    extent_id: ExtentId,
    version: ExtentVersion,
) -> Seq<char> {
    path_join(
        path_join(mount_path, "staged"@),
        extent_file_name(extent_id, version) + ".staging"@,
    )
}

/// Where the metadata of a committed extent is: beside it, with `.meta` at the end.
pub open spec fn meta_path(
    mount_path: Seq<char>,
    extent_id: ExtentId,
    version: ExtentVersion,
) -> Seq<char> {
    committed_path(mount_path, extent_id, version) + ".meta"@
}

proof fn lemma_uuid_text_chars(value: u128)
    ensures
        uuid_text(value).len() == 36,
        is_ascii_chars(uuid_text(value)),
        forall|i: int| 0 <= i < 36 ==> #[trigger] uuid_text(value)[i] != '/',
{
}

/// Joins a part to a path.
pub fn join_path(base: &str, part: &str) -> (r: String)
    ensures
        r@ == path_join(base@, part@),
{
    let n = base.unicode_len();
    if n == 0 {
        part.to_owned()
    } else if base.get_char(n - 1) == '/' {
        join2(base, part)
    } else {
        join3(base, "/", part)
    }
}

fn file_name(extent_id: ExtentId, version: ExtentVersion) -> (r: String)
    ensures
        r@ == extent_file_name(extent_id, version),
{
    join3(extent_id.to_text().as_str(), "_v", decimal_text(version).as_str())
}

/// Compute the path for a committed extent.
///
/// Layout: `<mount_path>/committed/<extent_id_prefix>/<extent_id>_v<version>`
pub fn committed_extent_path(mount_path: &str, extent_id: ExtentId, version: ExtentVersion) -> (r:
    String)
    ensures
        r@ == committed_path(mount_path@, extent_id, version),
{
    let id_text = extent_id.to_text();
    proof {
        lemma_uuid_text_chars(extent_id.value);
    }
    let prefix = id_text.as_str().substring_ascii(0, 8);
    assert(prefix@ =~= extent_id.text().take(8));
    let dir = join_path(join_path(mount_path, "committed").as_str(), prefix);
    join_path(dir.as_str(), file_name(extent_id, version).as_str())
}

/// Compute the path for a staged (temporary) extent file.
pub fn staged_extent_path(mount_path: &str, extent_id: ExtentId, version: ExtentVersion) -> (r:
    String)
    ensures
        r@ == staged_path(mount_path@, extent_id, version),
{
    let name = join2(file_name(extent_id, version).as_str(), ".staging");
    join_path(join_path(mount_path, "staged").as_str(), name.as_str())
}

/// Compute the metadata path for a committed extent.
pub fn extent_meta_path(mount_path: &str, extent_id: ExtentId, version: ExtentVersion) -> (r:
    String)
    ensures
        r@ == meta_path(mount_path@, extent_id, version),
{
    join2(committed_extent_path(mount_path, extent_id, version).as_str(), ".meta")
}

proof fn lemma_file_name_fixes_extent(a: ExtentId, v: ExtentVersion, b: ExtentId, w: ExtentVersion)
    requires
        extent_file_name(a, v) == extent_file_name(b, w),
    ensures
        a == b,
        v == w,
{
    reveal_strlit("_v");
    let x = extent_file_name(a, v);
    let y = extent_file_name(b, w);
    lemma_uuid_text_chars(a.value);
    lemma_uuid_text_chars(b.value);
    assert(x.take(36) =~= uuid_text(a.value));
    assert(y.take(36) =~= uuid_text(b.value));
    uuid_text_is_injective(a.value, b.value);
    assert(x.skip(38) =~= decimal(v as nat));
    assert(y.skip(38) =~= decimal(w as nat));
    decimal_is_injective(v as nat, w as nat);
}

/// Different versions of extents have different files: no two committed extents of a
/// disk share a path.
pub proof fn committed_paths_are_distinct(
    mount_path: Seq<char>,
    a: ExtentId,
    v: ExtentVersion,
    b: ExtentId,
    w: ExtentVersion,
)
    requires
        committed_path(mount_path, a, v) == committed_path(mount_path, b, w),
    ensures
        a == b,
        v == w,
{
    reveal_strlit("/");
    reveal_strlit("committed");
    let base = path_join(mount_path, "committed"@);
    lemma_uuid_text_chars(a.value);
    lemma_uuid_text_chars(b.value);
    assert(base.last() == 'd');
    let dir_a = path_join(base, a.text().take(8));
    let dir_b = path_join(base, b.text().take(8));
    assert(dir_a.last() == a.text()[7]);
    assert(dir_b.last() == b.text()[7]);
    assert(dir_a.len() == base.len() + 9);
    assert(dir_b.len() == base.len() + 9);
    let n = dir_a.len() as int + 1;
    let x = committed_path(mount_path, a, v);
    let y = committed_path(mount_path, b, w);
    assert(x.skip(n) =~= extent_file_name(a, v));
    assert(y.skip(n) =~= extent_file_name(b, w));
    lemma_file_name_fixes_extent(a, v, b, w);
}

/// Different versions of extents are staged in different files.
pub proof fn staged_paths_are_distinct(
    mount_path: Seq<char>,
    a: ExtentId,
    v: ExtentVersion,
    b: ExtentId,
    w: ExtentVersion,
)
    requires
        staged_path(mount_path, a, v) == staged_path(mount_path, b, w),
    ensures
        a == b,
        v == w,
{
    reveal_strlit("/");
    reveal_strlit("staged");
    reveal_strlit(".staging");
    let base = path_join(mount_path, "staged"@);
    assert(base.last() == 'd');
    let n = base.len() as int + 1;
    let x = staged_path(mount_path, a, v);
    let y = staged_path(mount_path, b, w);
    let p = extent_file_name(a, v);
    let q = extent_file_name(b, w);
    assert(x.skip(n) =~= p + ".staging"@);
    assert(y.skip(n) =~= q + ".staging"@);
    assert(p.len() == q.len());
    assert((p + ".staging"@).take(p.len() as int) =~= p);
    assert((q + ".staging"@).take(q.len() as int) =~= q);
    lemma_file_name_fixes_extent(a, v, b, w);
}

/// The checksum of a byte string: its BLAKE3 hash, in hexadecimal.
pub uninterp spec fn blake3_hex(data: Seq<u8>) -> Seq<char>;

/// Whether a text is one of lower-case hexadecimal digits.
pub open spec fn is_hex(s: Seq<char>) -> bool {
    forall|i: int|
        0 <= i < s.len() ==> ('0' <= #[trigger] s[i] && s[i] <= '9') || ('a' <= s[i] && s[i] <= 'f')
}

/// The hash of a byte string, as text: `blake3::hash` and `Hash::to_hex`.  The contract
/// says that the text is a function of the bytes, and that it has 64 lower-case
/// hexadecimal digits.  It does not say which ones.
#[verifier::external_body]
fn hash_hex(data: &[u8]) -> (s: String)
    ensures
        s@ == blake3_hex(data@),
        s@.len() == 64,
        is_hex(s@),
{
    blake3::hash(data).to_hex().to_string()
}

/// Compute the checksum of data.
pub fn compute_checksum(data: &[u8]) -> (s: String)
    ensures
        s@ == blake3_hex(data@),
        s@.len() == 64,
        is_hex(s@),
{
    hash_hex(data)
}

/// Whether a checksum that was computed is the expected one.
pub fn checksum_matches(computed: &str, expected: &str) -> (r: bool)
    ensures
        r == (computed@ == expected@),
{
    same_text(computed, expected)
}

/// Verify data against a previously computed checksum.
pub fn verify_checksum(data: &[u8], expected: &str) -> (r: bool)
    ensures
        r == (blake3_hex(data@) == expected@),
        expected@.len() != 64 ==> !r,
{
    checksum_matches(compute_checksum(data).as_str(), expected)
}

/// Central extent index tracking all committed local extents, keyed by the value of
/// their identifier.
#[derive(Clone, Debug)]
pub struct ExtentIndex {
    pub entries: BTreeMap<u128, LocalExtentEntry>,
}

impl Default for ExtentIndex {
    fn default() -> (r: Self)
        ensures
            r.entries@ == Map::<u128, LocalExtentEntry>::empty(),
    {
        Self::new()
    }
}

/// Whether a list holds, in the order of their identifiers, the entries of an index that
/// are on a disk, or all where no disk is given.
pub open spec fn lists_entries(
    entries: Map<u128, LocalExtentEntry>,
    disk: Option<DiskId>,
    r: Seq<&LocalExtentEntry>,
) -> bool {
    &&& forall|i: int|
        0 <= i < r.len() ==> entries.contains_key((#[trigger] r[i]).extent_id.value) && *r[i]
            == entries[r[i].extent_id.value] && (disk is Some ==> r[i].disk_id == disk->0)
    &&& forall|i: int, j: int|
        0 <= i < j < r.len() ==> (#[trigger] r[i]).extent_id.value < (#[trigger] r[j]).extent_id.value
    &&& forall|e: u128| #[trigger]
        entries.contains_key(e) && (disk is Some ==> entries[e].disk_id == disk->0) ==> exists|
            i: int,
        |
            0 <= i < r.len() && (#[trigger] r[i]).extent_id.value == e
}

impl ExtentIndex {
    /// Every entry stands under its own identifier.
    pub open spec fn wf(&self) -> bool {
        forall|e: u128| #[trigger]
            self.entries@.contains_key(e) ==> self.entries@[e].extent_id.value == e
    }

    /// An empty index.
    pub fn new() -> (r: Self)
        ensures
            r.entries@ == Map::<u128, LocalExtentEntry>::empty(),
            r.wf(),
    {
        ExtentIndex { entries: BTreeMap::new() }
    }

    /// Adds an entry; refused where the extent is indexed already.
    pub fn insert(&mut self, entry: LocalExtentEntry) -> (r: Result<(), StorageError>)
        ensures
            old(self).wf() ==> final(self).wf(),
            if old(self).entries@.contains_key(entry.extent_id.value) {
                &&& r is Err
                &&& r->Err_0 is ExtentExists
                &&& r->Err_0.detail() == "extent "@ + entry.extent_id.text() + " already indexed"@
                &&& final(self).entries@ == old(self).entries@
            } else {
                &&& r is Ok
                &&& final(self).entries@ == old(self).entries@.insert(
                    entry.extent_id.value,
                    entry,
                )
            },
    {
        if self.entries.contains_key(&entry.extent_id.value) {
            return Err(
                StorageError::ExtentExists(
                    join3("extent ", entry.extent_id.to_text().as_str(), " already indexed"),
                ),
            );
        }
        self.entries.insert(entry.extent_id.value, entry);
        Ok(())
    }

    /// The entry of an extent.
    pub fn get(&self, extent_id: ExtentId) -> (r: Option<&LocalExtentEntry>)
        ensures
            match r {
                Some(e) => self.entries@.contains_key(extent_id.value) && *e
                    == self.entries@[extent_id.value],
                None => !self.entries@.contains_key(extent_id.value),
            },
    {
        self.entries.get(&extent_id.value)
    }

    /// Takes the entry of an extent out.
    pub fn remove(&mut self, extent_id: ExtentId) -> (r: Option<LocalExtentEntry>)
        ensures
            final(self).entries@ == old(self).entries@.remove(extent_id.value),
            old(self).wf() ==> final(self).wf(),
            match r {
                Some(e) => old(self).entries@.contains_key(extent_id.value) && e
                    == old(self).entries@[extent_id.value],
                None => !old(self).entries@.contains_key(extent_id.value),
            },
    {
        self.entries.remove(&extent_id.value)
    }

    /// Whether an extent is indexed.
    pub fn contains(&self, extent_id: ExtentId) -> (r: bool)
        ensures
            r == self.entries@.contains_key(extent_id.value),
    {
        self.entries.contains_key(&extent_id.value)
    }

    /// The number of extents.
    pub fn count(&self) -> (r: usize)
        ensures
            r == self.entries@.len(),
    {
        self.entries.len()
    }

    fn list(&self, disk: Option<DiskId>) -> (r: Vec<&LocalExtentEntry>)
        requires
            self.wf(),
        ensures
            lists_entries(self.entries@, disk, r@),
            disk is None ==> r@.len() == self.entries@.len(),
    {
        let keys = sorted_ids(&self.entries);
        let mut r: Vec<&LocalExtentEntry> = Vec::new();
        let mut i: usize = 0;
        while i < keys.len()
            invariant
                i <= keys@.len(),
                self.wf(),
                forall|a: int, b: int|
                    0 <= a < b < keys@.len() ==> #[trigger] keys@[a] < #[trigger] keys@[b],
                forall|k: u128| #[trigger] self.entries@.contains_key(k) <==> keys@.contains(k),
                forall|j: int|
                    0 <= j < r@.len() ==> self.entries@.contains_key(
                        (#[trigger] r@[j]).extent_id.value,
                    ) && *r@[j] == self.entries@[r@[j].extent_id.value] && (disk is Some
                        ==> r@[j].disk_id == disk->0),
                forall|a: int, b: int|
                    0 <= a < b < r@.len() ==> (#[trigger] r@[a]).extent_id.value < (
                    #[trigger] r@[b]).extent_id.value,
                forall|j: int, m: int|
                    0 <= j < r@.len() && i <= m < keys@.len() ==> (
                    #[trigger] r@[j]).extent_id.value < #[trigger] keys@[m],
                forall|m: int|
                    0 <= m < i && (disk is Some ==> self.entries@[#[trigger] keys@[m]].disk_id
                        == disk->0) ==> exists|j: int|
                        0 <= j < r@.len() && (#[trigger] r@[j]).extent_id.value == keys@[m],
                disk is None ==> r@.len() == i,
            decreases keys@.len() - i,
        {
            let k = keys[i];
            assert(keys@.contains(k));
            let ghost before = r@;
            match self.entries.get(&k) {
                Some(e) => {
                    let wanted = match disk {
                        Some(d) => e.disk_id == d,
                        None => true,
                    };
                    if wanted {
                        r.push(e);
                    }
                    proof {
                        assert forall|m: int|
                            0 <= m < i + 1 && (disk is Some
                                ==> self.entries@[#[trigger] keys@[m]].disk_id
                                == disk->0) implies exists|j: int|
                            0 <= j < r@.len() && (#[trigger] r@[j]).extent_id.value == keys@[m] by {
                            if m < i {
                                let j = choose|j: int|
                                    0 <= j < before.len() && (
                                    #[trigger] before[j]).extent_id.value == keys@[m];
                                assert(r@[j].extent_id.value == keys@[m]);
                            } else {
                                assert(r@[before.len() as int].extent_id.value == keys@[m]);
                            }
                        }
                    }
                },
                None => {
                    assert(false);
                },
            }
            i = i + 1;
        }
        proof {
            assert forall|e: u128| #[trigger]
                self.entries@.contains_key(e) && (disk is Some ==> self.entries@[e].disk_id
                    == disk->0) implies exists|j: int|
                0 <= j < r@.len() && (#[trigger] r@[j]).extent_id.value == e by {
                assert(keys@.contains(e));
                let m = choose|m: int| 0 <= m < keys@.len() && keys@[m] == e;
                assert(self.entries@[keys@[m]] == self.entries@[e]);
            }
        }
        r
    }

    /// The extents on a disk, in the order of their identifiers.
    pub fn list_for_disk(&self, disk_id: DiskId) -> (r: Vec<&LocalExtentEntry>)
        requires
            self.wf(),
        ensures
            lists_entries(self.entries@, Some(disk_id), r@),
            forall|i: int|
                0 <= i < r@.len() ==> self.entries@.contains_key((#[trigger] r@[i]).extent_id.value)
                    && *r@[i] == self.entries@[r@[i].extent_id.value] && r@[i].disk_id == disk_id,
            forall|i: int, j: int|
                0 <= i < j < r@.len() ==> (#[trigger] r@[i]).extent_id.value < (
                #[trigger] r@[j]).extent_id.value,
            forall|e: u128| #[trigger]
                self.entries@.contains_key(e) && self.entries@[e].disk_id == disk_id ==> exists|i: int|
                    0 <= i < r@.len() && (#[trigger] r@[i]).extent_id.value == e,
    {
        self.list(Some(disk_id))
    }

    /// All extents, in the order of their identifiers.
    pub fn list_all(&self) -> (r: Vec<&LocalExtentEntry>)
        requires
            self.wf(),
        ensures
            lists_entries(self.entries@, None, r@),
            forall|i: int|
                0 <= i < r@.len() ==> self.entries@.contains_key((#[trigger] r@[i]).extent_id.value)
                    && *r@[i] == self.entries@[r@[i].extent_id.value],
            forall|i: int, j: int|
                0 <= i < j < r@.len() ==> (#[trigger] r@[i]).extent_id.value < (
                #[trigger] r@[j]).extent_id.value,
            forall|e: u128| #[trigger]
                self.entries@.contains_key(e) ==> exists|i: int|
                    0 <= i < r@.len() && (#[trigger] r@[i]).extent_id.value == e,
            r@.len() == self.entries@.len(),
    {
        self.list(None)
    }
}

/// A step in the writing of a file.
#[derive(Clone, Copy, Debug, PartialEq, Eq, Structural)]
pub enum FileStep {
    Create,
    Write,
    Sync,
}

/// What a file is written for.
#[derive(Clone, Copy, Debug, PartialEq, Eq, Structural)]
pub enum FilePurpose {
    Staging,
    Metadata,
}

/// What is said of a step that failed.
pub open spec fn file_fault(purpose: FilePurpose, step: FileStep) -> Seq<char> {
    match (purpose, step) {
        (FilePurpose::Staging, FileStep::Create) => "failed to create staging file "@,
        (FilePurpose::Staging, FileStep::Write) => "failed to write staging file "@,
        (FilePurpose::Staging, FileStep::Sync) => "fsync failed for staging file "@,
        (FilePurpose::Metadata, FileStep::Create) => "failed to create metadata file "@,
        (FilePurpose::Metadata, FileStep::Write) => "failed to write metadata file "@,
        (FilePurpose::Metadata, FileStep::Sync) => "fsync failed for metadata file "@,
    }
}

/// The error of a step in the writing of a file.
pub fn file_failure(purpose: FilePurpose, step: FileStep, path: &str, reason: &str) -> (e:
    StorageError)
    ensures
        e is StagingError,
        e.detail() == file_fault(purpose, step) + path@ + ": "@ + reason@,
{
    let head = match (purpose, step) {
        (FilePurpose::Staging, FileStep::Create) => "failed to create staging file ",
        (FilePurpose::Staging, FileStep::Write) => "failed to write staging file ",
        (FilePurpose::Staging, FileStep::Sync) => "fsync failed for staging file ",
        (FilePurpose::Metadata, FileStep::Create) => "failed to create metadata file ",
        (FilePurpose::Metadata, FileStep::Write) => "failed to write metadata file ",
        (FilePurpose::Metadata, FileStep::Sync) => "fsync failed for metadata file ",
    };
    StorageError::StagingError(join4(head, path, ": ", reason))
}

/// The error of a rename that failed.
pub fn rename_failure(from: &str, to: &str, reason: &str) -> (e: StorageError)
    ensures
        e is StagingError,
        e.detail() == "atomic rename failed "@ + from@ + " \u{2192} "@ + to@ + ": "@ + reason@,
{
    let head = join4("atomic rename failed ", from, " \u{2192} ", to);
    StorageError::StagingError(join3(head.as_str(), ": ", reason))
}

/// The error of a directory that could not be opened or synced.
pub fn sync_dir_failure(dir: &str, opened: bool, reason: &str) -> (e: StorageError)
    ensures
        e is StagingError,
        e.detail() == (if opened {
            "failed to sync parent dir "@ + dir@ + ": "@ + reason@
        } else {
            "failed to open parent dir "@ + dir@ + " for sync: "@ + reason@
        }),
{
    if opened {
        StorageError::StagingError(join4("failed to sync parent dir ", dir, ": ", reason))
    } else {
        StorageError::StagingError(
            join4("failed to open parent dir ", dir, " for sync: ", reason),
        )
    }
}

/// A file operation on the way of an extent from staged to committed.
#[derive(Clone, Debug)]
pub enum CommitAction {
    /// Make sure that a directory exists.
    CreateDir { path: String },
    /// Write the metadata to a file and sync the file.
    WriteMeta { path: String, meta: ExtentMeta },
    /// Rename a file.
    Promote { from: String, to: String },
    /// Sync a directory.
    SyncDir { path: String },
}

/// What is needed to stage an extent.
#[derive(Clone, Debug)]
pub struct StagePlan {
    /// The directory that has to exist.
    pub dir: String,
    /// The file to write and sync.
    pub path: String,
    pub checksum: String,
}

/// What is needed to commit an extent.
#[derive(Clone, Debug)]
pub struct CommitPlan {
    /// The operations, each to be carried out after the one before has succeeded.
    pub actions: Vec<CommitAction>,
    /// The index entry of the extent once it is committed.
    pub entry: LocalExtentEntry,
}

impl CommitPlan {
    /// The metadata that the plan writes.
    pub open spec fn meta(self) -> ExtentMeta {
        self.actions@[1]->meta
    }

    /// Whether the plan commits a version of an extent on a disk: it makes the directory,
    /// writes the metadata, renames the staged file and syncs the directory, in this
    /// order; the entry is the one that the metadata gives.
    pub open spec fn commits(
        self,
        store: ExtentStore,
        extent_id: ExtentId,
        version: ExtentVersion,
    ) -> bool {
        let mount = store.mount_path@;
        let dir = committed_dir(mount, extent_id);
        let to = committed_path(mount, extent_id, version);
        let acts = self.actions@;
        &&& acts.len() == 4
        &&& acts[0] matches CommitAction::CreateDir { path } && path@ == dir
        &&& acts[1] matches CommitAction::WriteMeta { path, meta } && path@ == meta_path(
            mount,
            extent_id,
            version,
        )
        &&& acts[2] matches CommitAction::Promote { from, to: promoted } && from@ == staged_path(
            mount,
            extent_id,
            version,
        ) && promoted@ == to
        &&& acts[3] matches CommitAction::SyncDir { path } && path@ == dir
        &&& self.meta().extent_id == extent_id
        &&& self.meta().disk_id == store.disk_id
        &&& self.meta().version == version
        &&& self.entry.path@ == to
        &&& self.entry == recovered_entry(self.entry.path, self.meta())
    }
}

/// What a file holds.
pub ghost enum FileModel {
    Data(Seq<u8>),
    Meta(ExtentMeta),
}

/// The files of a disk, by their paths, after an operation.
pub open spec fn carried_out(files: Map<Seq<char>, FileModel>, action: CommitAction) -> Map<
    Seq<char>,
    FileModel,
> {
    match action {
        CommitAction::WriteMeta { path, meta } => files.insert(path@, FileModel::Meta(meta)),
        CommitAction::Promote { from, to } => if files.contains_key(from@) {
            files.remove(from@).insert(to@, files[from@])
        } else {
            files
        },
        _ => files,
    }
}

/// The files of a disk after the first operations.
pub open spec fn first_carried_out(
    files: Map<Seq<char>, FileModel>,
    actions: Seq<CommitAction>,
    count: nat,
) -> Map<Seq<char>, FileModel>
    decreases count,
{
    if count == 0 {
        files
    } else {
        carried_out(
            first_carried_out(files, actions, (count - 1) as nat),
            actions[count - 1],
        )
    }
}

proof fn lemma_decimal_ends(n: nat)
    ensures
        decimal(n).len() > 0,
        '0' <= decimal(n).last() <= '9',
    decreases n,
{
    if n >= 10 {
        lemma_decimal_ends(n / 10);
    }
}

/// Staged files, committed files and metadata files are kept apart: no staged extent can
/// be taken for a committed one, and no data for metadata.
pub proof fn files_of_different_kinds_are_distinct(
    mount_path: Seq<char>,
    a: ExtentId,
    v: ExtentVersion,
    b: ExtentId,
    w: ExtentVersion,
)
    ensures
        staged_path(mount_path, a, v) != committed_path(mount_path, b, w),
        staged_path(mount_path, a, v) != meta_path(mount_path, b, w),
        committed_path(mount_path, a, v) != meta_path(mount_path, b, w),
        !names_metadata(extent_file_name(a, v)),
{
    reveal_strlit("/");
    reveal_strlit("committed");
    reveal_strlit("staged");
    reveal_strlit(".meta");
    let at = path_join(mount_path, "staged"@).len() - 6;
    let x = staged_path(mount_path, a, v);
    let y = committed_path(mount_path, b, w);
    assert(path_join(mount_path, "committed"@).len() - 9 == at);
    assert(path_join(mount_path, "staged"@)[at] == 's');
    assert(path_join(mount_path, "committed"@)[at] == 'c');
    assert(x[at] == 's');
    assert(path_join(path_join(mount_path, "committed"@), b.text().take(8))[at] == 'c');
    assert(y[at] == 'c');
    assert(meta_path(mount_path, b, w)[at] == 'c');
    lemma_decimal_ends(v as nat);
    let name = extent_file_name(a, v);
    assert(name.last() == decimal(v as nat).last());
    assert(committed_path(mount_path, a, v).last() == name.last());
    assert(meta_path(mount_path, b, w).last() == 'a');
    if names_metadata(name) {
        assert(name.skip(name.len() - 5).last() == 'a');
    }
}

/// A commit that stops after any of its operations leaves the extent either staged as it
/// was, and not committed, or committed with what was staged and with its metadata: the
/// data is never seen without its metadata. No other file changes.
pub proof fn commit_is_atomic(
    store: ExtentStore,
    extent_id: ExtentId,
    version: ExtentVersion,
    plan: CommitPlan,
    files: Map<Seq<char>, FileModel>,
    count: nat,
)
    requires
        plan.commits(store, extent_id, version),
        files.contains_key(staged_path(store.mount_path@, extent_id, version)),
        !files.contains_key(committed_path(store.mount_path@, extent_id, version)),
        count <= plan.actions@.len(),
    ensures
        ({
            let from = staged_path(store.mount_path@, extent_id, version);
            let to = committed_path(store.mount_path@, extent_id, version);
            let beside = meta_path(store.mount_path@, extent_id, version);
            let after = first_carried_out(files, plan.actions@, count);
            &&& if count <= 2 {
                &&& after.contains_key(from)
                &&& after[from] == files[from]
                &&& !after.contains_key(to)
            } else {
                &&& !after.contains_key(from)
                &&& after.contains_key(to)
                &&& after[to] == files[from]
                &&& after.contains_key(beside)
                &&& after[beside] == FileModel::Meta(plan.meta())
            }
            &&& forall|path: Seq<char>|
                path != from && path != to && path != beside ==> #[trigger] after.contains_key(path)
                    == files.contains_key(path) && (files.contains_key(path) ==> after[path]
                    == files[path])
        }),
{
    files_of_different_kinds_are_distinct(
        store.mount_path@,
        extent_id,
        version,
        extent_id,
        version,
    );
    let acts = plan.actions@;
    assert(first_carried_out(files, acts, 0) == files);
    assert(first_carried_out(files, acts, 1) == carried_out(files, acts[0]));
    assert(first_carried_out(files, acts, 2) == carried_out(
        first_carried_out(files, acts, 1),
        acts[1],
    ));
    assert(first_carried_out(files, acts, 3) == carried_out(
        first_carried_out(files, acts, 2),
        acts[2],
    ));
    assert(first_carried_out(files, acts, 4) == carried_out(
        first_carried_out(files, acts, 3),
        acts[3],
    ));
}

/// A committed extent is immutable: a commit of another version, or of another extent,
/// leaves its data and its metadata as they are, wherever it stops.
pub proof fn commits_leave_other_extents_alone(
    store: ExtentStore,
    extent_id: ExtentId,
    version: ExtentVersion,
    plan: CommitPlan,
    files: Map<Seq<char>, FileModel>,
    count: nat,
    other: ExtentId,
    other_version: ExtentVersion,
)
    requires
        plan.commits(store, extent_id, version),
        files.contains_key(staged_path(store.mount_path@, extent_id, version)),
        !files.contains_key(committed_path(store.mount_path@, extent_id, version)),
        count <= plan.actions@.len(),
        other != extent_id || other_version != version,
        files.contains_key(committed_path(store.mount_path@, other, other_version)),
        files.contains_key(meta_path(store.mount_path@, other, other_version)),
    ensures
        ({
            let data = committed_path(store.mount_path@, other, other_version);
            let beside = meta_path(store.mount_path@, other, other_version);
            let after = first_carried_out(files, plan.actions@, count);
            &&& after.contains_key(data)
            &&& after[data] == files[data]
            &&& after.contains_key(beside)
            &&& after[beside] == files[beside]
        }),
{
    let mount = store.mount_path@;
    commit_is_atomic(store, extent_id, version, plan, files, count);
    files_of_different_kinds_are_distinct(mount, extent_id, version, other, other_version);
    files_of_different_kinds_are_distinct(mount, other, other_version, extent_id, version);
    let x = committed_path(mount, extent_id, version);
    let y = committed_path(mount, other, other_version);
    if x == y {
        committed_paths_are_distinct(mount, extent_id, version, other, other_version);
    }
    if x + ".meta"@ == y + ".meta"@ {
        assert((x + ".meta"@).len() == (y + ".meta"@).len());
        assert((x + ".meta"@).take(x.len() as int) =~= x);
        assert((y + ".meta"@).take(y.len() as int) =~= y);
        committed_paths_are_distinct(mount, extent_id, version, other, other_version);
    }
    let after = first_carried_out(files, plan.actions@, count);
    assert(after.contains_key(y) == files.contains_key(y));
    assert(after.contains_key(y + ".meta"@) == files.contains_key(y + ".meta"@));
}

/// The directory of a committed extent.
pub open spec fn committed_dir(mount_path: Seq<char>, extent_id: ExtentId) -> Seq<char> {
    path_join(path_join(mount_path, "committed"@), extent_id.text().take(8))
}

/// A file that was found in the staging directory.
#[derive(Clone, Debug)]
pub struct StagedFile {
    pub path: String,
    pub is_file: bool,
    /// Its age in seconds, where it is known.
    pub age_secs: Option<u64>,
}

impl StagedFile {
    /// Whether the file has outlived the retention interval.
    pub open spec fn is_orphaned(self, retention_secs: u64) -> bool {
        self.is_file && self.age_secs is Some && self.age_secs->0 >= retention_secs
    }
}

/// The paths of the files that have outlived the retention interval, in order.
pub open spec fn orphaned_paths(files: Seq<StagedFile>, retention_secs: u64) -> Seq<Seq<char>>
    decreases files.len(),
{
    if files.len() == 0 {
        Seq::empty()
    } else {
        let front = orphaned_paths(files.drop_last(), retention_secs);
        if files.last().is_orphaned(retention_secs) {
            front.push(files.last().path@)
        } else {
            front
        }
    }
}

/// What reading a committed extent comes to.
pub ghost enum ReadOutcome {
    Missing,
    Mismatch { expected: Seq<char>, actual: Seq<char> },
    Read { bytes: Seq<u8>, checksum: Seq<char> },
}

/// What reading a committed extent comes to, given what its file holds and the checksum
/// that its metadata records: what is read is checked against what is recorded.
pub open spec fn read_outcome(data: Option<Seq<u8>>, recorded: Option<Seq<char>>) -> ReadOutcome {
    match (data, recorded) {
        (None, _) => ReadOutcome::Missing,
        (Some(bytes), Some(expected)) => if expected == blake3_hex(bytes) {
            ReadOutcome::Read { bytes, checksum: expected }
        } else {
            ReadOutcome::Mismatch { expected, actual: blake3_hex(bytes) }
        },
        (Some(bytes), None) => ReadOutcome::Read { bytes, checksum: blake3_hex(bytes) },
    }
}

/// What was staged and then committed under the checksum of the staging is read back.
pub proof fn committed_data_is_read_back(
    store: ExtentStore,
    extent_id: ExtentId,
    version: ExtentVersion,
    data: Seq<u8>,
    plan: CommitPlan,
    files: Map<Seq<char>, FileModel>,
)
    requires
        plan.commits(store, extent_id, version),
        plan.meta().checksum@ == blake3_hex(data),
        files.contains_key(staged_path(store.mount_path@, extent_id, version)),
        files[staged_path(store.mount_path@, extent_id, version)] == FileModel::Data(data),
        !files.contains_key(committed_path(store.mount_path@, extent_id, version)),
    ensures
        ({
            let after = first_carried_out(files, plan.actions@, plan.actions@.len());
            let to = committed_path(store.mount_path@, extent_id, version);
            let beside = meta_path(store.mount_path@, extent_id, version);
            &&& after.contains_key(to)
            &&& after.contains_key(beside)
            &&& after[to] matches FileModel::Data(held) && after[beside] matches FileModel::Meta(
                meta,
            ) && read_outcome(Some(held), Some(meta.checksum@)) == (ReadOutcome::Read {
                bytes: data,
                checksum: blake3_hex(data),
            })
        }),
{
    commit_is_atomic(store, extent_id, version, plan, files, plan.actions@.len());
}

/// Data that came to have another checksum than the one recorded is never handed out.
pub proof fn corruption_is_not_read(data: Seq<u8>, recorded: Seq<char>)
    requires
        blake3_hex(data) != recorded,
    ensures
        read_outcome(Some(data), Some(recorded)) == (ReadOutcome::Mismatch {
            expected: recorded,
            actual: blake3_hex(data),
        }),
{
}

/// What the metadata file beside a committed file holds.
#[derive(Clone, Debug)]
pub enum MetaFile {
    Missing,
    /// It cannot be read, for the given reason.
    Unreadable(String),
    /// It cannot be understood, for the given reason.
    Corrupt(String),
    Holds(ExtentMeta),
}

/// A file that was found among the committed extents.
#[derive(Clone, Debug)]
pub struct CommittedFile {
    pub path: String,
    /// The last part of the path.
    pub name: String,
    pub meta: MetaFile,
}

/// Whether a file name has the extension `meta`.
pub open spec fn names_metadata(name: Seq<char>) -> bool {
    name.len() > 5 && name.skip(name.len() - 5) == ".meta"@
}

/// The entry that the metadata beside a committed file stands for.
pub open spec fn recovered_entry(path: String, meta: ExtentMeta) -> LocalExtentEntry {
    LocalExtentEntry {
        extent_id: meta.extent_id,
        disk_id: meta.disk_id,
        path,
        version: meta.version,
        checksum: meta.checksum,
        size: meta.size,
        storage_class: meta.storage_class,
    }
}

/// What a scan of committed files leaves: the index, how many extents were added to it,
/// and how many files gave none.
pub struct ScanModel {
    pub entries: Map<u128, LocalExtentEntry>,
    pub recovered: nat,
    pub errors: nat,
}

/// What a scan of committed files leaves.  Metadata files are passed over; of two files
/// of one extent the first counts.
pub open spec fn scanned(
    entries: Map<u128, LocalExtentEntry>,
    files: Seq<CommittedFile>,
) -> ScanModel
    decreases files.len(),
{
    if files.len() == 0 {
        ScanModel { entries, recovered: 0, errors: 0 }
    } else {
        let front = scanned(entries, files.drop_last());
        let file = files.last();
        if names_metadata(file.name@) {
            front
        } else {
            match file.meta {
                MetaFile::Holds(meta) => if front.entries.contains_key(meta.extent_id.value) {
                    front
                } else {
                    ScanModel {
                        entries: front.entries.insert(
                            meta.extent_id.value,
                            recovered_entry(file.path, meta),
                        ),
                        recovered: front.recovered + 1,
                        ..front
                    }
                },
                _ => ScanModel { errors: front.errors + 1, ..front },
            }
        }
    }
}

/// A scan keeps what was indexed, adds only entries that a committed file and its
/// metadata stand for, and counts each at most once.
pub proof fn scan_adds_only_committed_extents(
    entries: Map<u128, LocalExtentEntry>,
    files: Seq<CommittedFile>,
)
    ensures
        scanned(entries, files).recovered + scanned(entries, files).errors <= files.len(),
        forall|e: u128| #[trigger]
            entries.contains_key(e) ==> scanned(entries, files).entries.contains_key(e) && scanned(
                entries,
                files,
            ).entries[e] == entries[e],
        forall|e: u128| #[trigger]
            scanned(entries, files).entries.contains_key(e) && !entries.contains_key(e) ==> exists|
                i: int,
            |
                0 <= i < files.len() && (#[trigger] files[i]).meta is Holds && !names_metadata(
                    files[i].name@,
                ) && scanned(entries, files).entries[e] == recovered_entry(
                    files[i].path,
                    files[i].meta->Holds_0,
                ) && files[i].meta->Holds_0.extent_id.value == e,
    decreases files.len(),
{
    if files.len() > 0 {
        let front = files.drop_last();
        scan_adds_only_committed_extents(entries, front);
        let before = scanned(entries, front);
        let after = scanned(entries, files);
        assert forall|e: u128| #[trigger]
            after.entries.contains_key(e) && !entries.contains_key(e) implies exists|i: int|
            0 <= i < files.len() && (#[trigger] files[i]).meta is Holds && !names_metadata(
                files[i].name@,
            ) && after.entries[e] == recovered_entry(files[i].path, files[i].meta->Holds_0)
                && files[i].meta->Holds_0.extent_id.value == e by {
            if before.entries.contains_key(e) {
                let i = choose|i: int|
                    0 <= i < front.len() && (#[trigger] front[i]).meta is Holds && !names_metadata(
                        front[i].name@,
                    ) && before.entries[e] == recovered_entry(
                        front[i].path,
                        front[i].meta->Holds_0,
                    ) && front[i].meta->Holds_0.extent_id.value == e;
                assert(files[i] == front[i]);
            } else {
                assert(files[files.len() - 1] == files.last());
            }
        }
    }
}

/// A file is a metadata file exactly where its name is something followed by `.meta`.
pub proof fn metadata_names_end_in_meta(name: Seq<char>)
    ensures
        names_metadata(name) <==> exists|stem: Seq<char>|
            stem.len() > 0 && name == #[trigger] (stem + ".meta"@),
{
    reveal_strlit(".meta");
    if names_metadata(name) {
        let stem = name.take(name.len() - 5);
        assert(name =~= stem + ".meta"@);
    }
    assert forall|stem: Seq<char>| stem.len() > 0 && name == #[trigger] (stem
        + ".meta"@) implies names_metadata(name) by {
        assert(name.skip(name.len() - 5) =~= ".meta"@);
    }
}

/// Whether a file is that of a committed extent whose metadata can be read.
pub open spec fn is_intact(file: CommittedFile) -> bool {
    &&& forall|stem: Seq<char>| stem.len() > 0 ==> file.name@ != #[trigger] (stem + ".meta"@)
    &&& file.meta is Holds
}

/// Whether a file is that of a committed extent whose metadata cannot be read.
pub open spec fn is_broken(file: CommittedFile) -> bool {
    &&& forall|stem: Seq<char>| stem.len() > 0 ==> file.name@ != #[trigger] (stem + ".meta"@)
    &&& !(file.meta is Holds)
}

/// Whether a file is the first intact one of its extent.
pub open spec fn is_first_of_extent(files: Seq<CommittedFile>, i: int) -> bool {
    &&& is_intact(files[i])
    &&& forall|j: int|
        0 <= j < i && is_intact(#[trigger] files[j]) ==> files[j].meta->Holds_0.extent_id
            != files[i].meta->Holds_0.extent_id
}

/// A scan is complete: afterwards every extent that has a committed file with readable
/// metadata is indexed, with what the metadata of the first such file says, unless it was
/// indexed before, in which case its entry stays. As many extents are counted as recovered
/// as the index has grown by, and as many errors as there are files whose metadata cannot
/// be read.
pub proof fn scan_finds_every_committed_extent(
    entries: Map<u128, LocalExtentEntry>,
    files: Seq<CommittedFile>,
)
    requires
        entries.dom().finite(),
    ensures
        ({
            let after = scanned(entries, files);
            &&& forall|i: int|
                0 <= i < files.len() && is_intact(#[trigger] files[i])
                    ==> after.entries.contains_key(files[i].meta->Holds_0.extent_id.value)
            &&& forall|i: int|
                0 <= i < files.len() && #[trigger] is_first_of_extent(files, i)
                    && !entries.contains_key(files[i].meta->Holds_0.extent_id.value) ==> {
                    let meta = files[i].meta->Holds_0;
                    let entry = after.entries[meta.extent_id.value];
                    &&& entry.extent_id == meta.extent_id
                    &&& entry.disk_id == meta.disk_id
                    &&& entry.path == files[i].path
                    &&& entry.version == meta.version
                    &&& entry.checksum == meta.checksum
                    &&& entry.size == meta.size
                    &&& entry.storage_class == meta.storage_class
                }
            &&& forall|e: u128| #[trigger]
                entries.contains_key(e) ==> after.entries.contains_key(e) && after.entries[e]
                    == entries[e]
            &&& forall|e: u128| #[trigger]
                after.entries.contains_key(e) && !entries.contains_key(e) ==> exists|i: int|
                    0 <= i < files.len() && is_intact(#[trigger] files[i])
                        && files[i].meta->Holds_0.extent_id.value == e
            &&& after.entries.dom().finite()
            &&& after.entries.dom().len() == entries.dom().len() + after.recovered
            &&& after.errors == files.filter(|f: CommittedFile| is_broken(f)).len()
        }),
    decreases files.len(),
{
    reveal(Seq::filter);
    if files.len() > 0 {
        let front = files.drop_last();
        let last = files.len() - 1;
        scan_finds_every_committed_extent(entries, front);
        metadata_names_end_in_meta(files[last].name@);
        let before = scanned(entries, front);
        let after = scanned(entries, files);
        assert forall|i: int|
            0 <= i < files.len() && is_intact(#[trigger] files[i]) implies after.entries.contains_key(
            files[i].meta->Holds_0.extent_id.value,
        ) by {
            if i < last {
                assert(front[i] == files[i]);
            }
        }
        assert forall|i: int|
            0 <= i < files.len() && #[trigger] is_first_of_extent(files, i)
                && !entries.contains_key(files[i].meta->Holds_0.extent_id.value) implies {
            let meta = files[i].meta->Holds_0;
            let entry = after.entries[meta.extent_id.value];
            &&& entry.extent_id == meta.extent_id
            &&& entry.disk_id == meta.disk_id
            &&& entry.path == files[i].path
            &&& entry.version == meta.version
            &&& entry.checksum == meta.checksum
            &&& entry.size == meta.size
            &&& entry.storage_class == meta.storage_class
        } by {
            let id = files[i].meta->Holds_0.extent_id.value;
            if i < last {
                assert(front[i] == files[i]);
                assert(is_first_of_extent(front, i)) by {
                    assert forall|j: int|
                        0 <= j < i && is_intact(
                            #[trigger] front[j],
                        ) implies front[j].meta->Holds_0.extent_id
                        != front[i].meta->Holds_0.extent_id by {
                        assert(front[j] == files[j]);
                    }
                }
                assert(before.entries.contains_key(id));
            } else if before.entries.contains_key(id) {
                let j = choose|j: int|
                    0 <= j < front.len() && is_intact(#[trigger] front[j])
                        && front[j].meta->Holds_0.extent_id.value == id;
                assert(front[j] == files[j]);
                assert(files[j].meta->Holds_0.extent_id != files[i].meta->Holds_0.extent_id);
            }
        }
        assert forall|e: u128| #[trigger]
            after.entries.contains_key(e) && !entries.contains_key(e) implies exists|i: int|
            0 <= i < files.len() && is_intact(#[trigger] files[i])
                && files[i].meta->Holds_0.extent_id.value == e by {
            if before.entries.contains_key(e) {
                let j = choose|j: int|
                    0 <= j < front.len() && is_intact(#[trigger] front[j])
                        && front[j].meta->Holds_0.extent_id.value == e;
                assert(front[j] == files[j]);
            } else {
                assert(is_intact(files[last]));
            }
        }
        assert(files.last() == files[last]);
        if !names_metadata(files[last].name@) && files[last].meta is Holds {
            let id = files[last].meta->Holds_0.extent_id.value;
            if !before.entries.contains_key(id) {
                assert(after.entries.dom() =~= before.entries.dom().insert(id));
            }
        }
    }
}

/// A commit plan does its four steps in the order that makes it safe: the directory is
/// there before anything is put in it, the metadata is written before the rename, and the
/// directory that the extent is renamed into is synced last.
pub proof fn commits_go_in_order(
    plan: CommitPlan,
    store: ExtentStore,
    extent_id: ExtentId,
    version: ExtentVersion,
)
    requires
        plan.commits(store, extent_id, version),
    ensures
        plan.actions@.len() == 4,
        plan.actions@[0] is CreateDir,
        plan.actions@[1] is WriteMeta,
        plan.actions@[2] is Promote,
        plan.actions@[3] is SyncDir,
        ({
            let dir = plan.actions@[0]->CreateDir_path@;
            let to = plan.actions@[2]->to@;
            let name = uuid_text(extent_id.value) + "_v"@ + decimal(version as nat);
            &&& plan.actions@[3]->SyncDir_path@ == dir
            &&& to == dir + "/"@ + name
            &&& plan.actions@[1]->WriteMeta_path@ == to + ".meta"@
            &&& plan.actions@[2]->from@ != to
            &&& plan.actions@[1]->meta.extent_id == extent_id
            &&& plan.actions@[1]->meta.version == version
            &&& plan.actions@[1]->meta.disk_id == store.disk_id
        }),
        ({
            let meta = plan.actions@[1]->meta;
            &&& plan.entry.extent_id == extent_id
            &&& plan.entry.disk_id == store.disk_id
            &&& plan.entry.version == version
            &&& plan.entry.path@ == plan.actions@[2]->to@
            &&& plan.entry.checksum == meta.checksum
            &&& plan.entry.size == meta.size
            &&& plan.entry.storage_class == meta.storage_class
        }),
{
    let mount = store.mount_path@;
    let dir = committed_dir(mount, extent_id);
    lemma_uuid_text_chars(extent_id.value);
    assert(dir.last() == extent_id.text()[7]) by {
        assert(extent_id.text().take(8).last() == extent_id.text()[7]);
    }
    files_of_different_kinds_are_distinct(mount, extent_id, version, extent_id, version);
}

/// Files are laid out under the mount path by their kind, and committed ones by the first
/// eight digits of the extent's identifier.
pub proof fn paths_follow_the_layout(
    mount_path: Seq<char>,
    extent_id: ExtentId,
    version: ExtentVersion,
)
    requires
        mount_path.len() > 0,
        mount_path.last() != '/',
    ensures
        ({
            let name = uuid_text(extent_id.value) + "_v"@ + decimal(version as nat);
            let digits = uuid_text(extent_id.value).take(8);
            let committed = mount_path + "/"@ + "committed"@ + "/"@ + digits + "/"@ + name;
            &&& committed_path(mount_path, extent_id, version) == committed
            &&& meta_path(mount_path, extent_id, version) == committed + ".meta"@
            &&& staged_path(mount_path, extent_id, version) == mount_path + "/"@ + "staged"@ + "/"@
                + name + ".staging"@
            &&& committed_path(mount_path + "/"@, extent_id, version) == committed
            &&& staged_path(mount_path + "/"@, extent_id, version) == staged_path(
                mount_path,
                extent_id,
                version,
            )
        }),
{
    reveal_strlit("/");
    reveal_strlit("committed");
    reveal_strlit("staged");
    lemma_uuid_text_chars(extent_id.value);
    let digits = uuid_text(extent_id.value).take(8);
    let name = uuid_text(extent_id.value) + "_v"@ + decimal(version as nat);
    assert(digits.last() == uuid_text(extent_id.value)[7]);
    let base = mount_path + "/"@ + "committed"@;
    assert(base.last() == 'd');
    assert(path_join(mount_path, "committed"@) =~= base);
    assert(path_join(mount_path + "/"@, "committed"@) =~= base);
    let dir = base + "/"@ + digits;
    assert(dir.last() == digits.last());
    let other = mount_path + "/"@ + "staged"@;
    assert(other.last() == 'd');
    assert(path_join(mount_path, "staged"@) =~= other);
    assert(path_join(mount_path + "/"@, "staged"@) =~= other);
    assert(staged_path(mount_path, extent_id, version) =~= other + "/"@ + name + ".staging"@);
}

/// Reading hands out what the file holds or nothing: it succeeds exactly where there is a
/// file and its checksum is the recorded one, or none is recorded.
pub proof fn only_what_was_stored_is_read(data: Option<Seq<u8>>, recorded: Option<Seq<char>>)
    ensures
        read_outcome(data, recorded) is Missing <==> data is None,
        read_outcome(data, recorded) is Read <==> data is Some && (recorded is None || recorded->0
            == blake3_hex(data->0)),
        read_outcome(data, recorded) matches ReadOutcome::Read { bytes, checksum } ==> Some(bytes)
            == data && checksum == blake3_hex(bytes),
{
}

/// The staged files to be cleaned up are exactly the ordinary files that are at least as
/// old as the retention interval, in the order in which they were found; a file whose age
/// is not known stays.
pub proof fn orphans_are_the_old_files(files: Seq<StagedFile>, retention_secs: u64)
    ensures
        ({
            let old = files.filter(
                |f: StagedFile|
                    f.is_file && f.age_secs is Some && f.age_secs->0 >= retention_secs,
            );
            orphaned_paths(files, retention_secs) == old.map_values(|f: StagedFile| f.path@)
        }),
    decreases files.len(),
{
    reveal(Seq::filter);
    let is_old = |f: StagedFile|
        f.is_file && f.age_secs is Some && f.age_secs->0 >= retention_secs;
    let path = |f: StagedFile| f.path@;
    if files.len() > 0 {
        orphans_are_the_old_files(files.drop_last(), retention_secs);
        let before = files.drop_last().filter(is_old);
        if is_old(files.last()) {
            assert(before.push(files.last()).map_values(path) =~= before.map_values(path).push(
                files.last().path@,
            ));
        }
    }
    assert(orphaned_paths(files, retention_secs) =~= files.filter(is_old).map_values(path));
}

/// Report from startup recovery.
#[derive(Clone, Copy, Debug, PartialEq, Eq, Structural)]
pub struct RecoveryReport {
    pub committed_recovered: usize,
    pub staged_discarded: usize,
    pub errors: usize,
}

impl Default for RecoveryReport {
    fn default() -> (r: Self)
        ensures
            r.committed_recovered == 0,
            r.staged_discarded == 0,
            r.errors == 0,
    {
        RecoveryReport { committed_recovered: 0, staged_discarded: 0, errors: 0 }
    }
}

/// Whether a file name has the extension `meta`.
fn is_metadata_name(name: &str) -> (r: bool)
    ensures
        r == names_metadata(name@),
{
    let n = name.unicode_len();
    if n <= 5 {
        return false;
    }
    let tail = name.substring_char(n - 5, n);
    assert(tail@ =~= name@.skip(n - 5));
    same_text(tail, ".meta")
}

/// The entry of a committed file, from the metadata beside it.
pub fn recover_extent_from_file(path: &String, meta: &MetaFile) -> (r: Result<
    LocalExtentEntry,
    StorageError,
>)
    ensures
        match *meta {
            MetaFile::Holds(m) => r == Ok::<LocalExtentEntry, StorageError>(
                recovered_entry(*path, m),
            ),
            MetaFile::Missing => r matches Err(e) && e is ExtentNotFound && e.detail()
                == "metadata file missing for "@ + path@,
            MetaFile::Unreadable(reason) => r matches Err(e) && e is Io && e.detail() == reason@,
            MetaFile::Corrupt(reason) => r matches Err(e) && e is ExtentNotFound && e.detail()
                == "corrupt metadata at "@ + path@ + ".meta"@ + ": "@ + reason@,
        },
{
    match meta {
        MetaFile::Holds(m) => Ok(
            LocalExtentEntry {
                extent_id: m.extent_id,
                disk_id: m.disk_id,
                path: path.clone(),
                version: m.version,
                checksum: m.checksum.clone(),
                size: m.size,
                storage_class: m.storage_class,
            },
        ),
        MetaFile::Missing => Err(
            StorageError::ExtentNotFound(join2("metadata file missing for ", path.as_str())),
        ),
        MetaFile::Unreadable(reason) => Err(StorageError::Io(reason.clone())),
        MetaFile::Corrupt(reason) => Err(
            StorageError::ExtentNotFound(
                join5("corrupt metadata at ", path.as_str(), ".meta", ": ", reason.as_str()),
            ),
        ),
    }
}

/// Manages extent file lifecycle operations for a single disk.
#[derive(Clone, Debug)]
pub struct ExtentStore {
    pub mount_path: String,
    pub disk_id: DiskId,
}

impl ExtentStore {
    /// The store of a disk that is mounted at the given path.
    pub fn new(mount_path: String, disk_id: DiskId) -> (r: Self)
        ensures
            r.mount_path == mount_path,
            r.disk_id == disk_id,
    {
        ExtentStore { mount_path, disk_id }
    }

    /// The directories that staging and committing need.
    pub fn directories(&self) -> (r: (String, String))
        ensures
            r.0@ == path_join(self.mount_path@, "staged"@),
            r.1@ == path_join(self.mount_path@, "committed"@),
    {
        (
            join_path(self.mount_path.as_str(), "staged"),
            join_path(self.mount_path.as_str(), "committed"),
        )
    }

    /// How to stage an extent: where its data goes, and the checksum of the data.
    pub fn stage_extent(&self, extent_id: ExtentId, version: ExtentVersion, data: &[u8]) -> (r:
        StagePlan)
        ensures
            r.dir@ == path_join(self.mount_path@, "staged"@),
            r.path@ == staged_path(self.mount_path@, extent_id, version),
            r.checksum@ == blake3_hex(data@),
    {
        StagePlan {
            dir: join_path(self.mount_path.as_str(), "staged"),
            path: staged_extent_path(self.mount_path.as_str(), extent_id, version),
            checksum: compute_checksum(data),
        }
    }

    /// How to promote a staged extent to committed.
    ///
    /// Refused where there is no staged file, and where the extent is committed already.
    /// The metadata is written and synced before the rename that commits the extent, and
    /// the directory is synced after it.
    pub fn commit_extent(
        &self,
        extent_id: ExtentId,
        version: ExtentVersion,
        checksum: &str,
        size: u64,
        storage_class: StorageClass,
        committed_at: u64,
        staged_exists: bool,
        committed_exists: bool,
    ) -> (r: Result<CommitPlan, StorageError>)
        ensures
            match r {
                Err(e) => if !staged_exists {
                    e is StagingError && e.detail() == "staged file not found: "@ + staged_path(
                        self.mount_path@,
                        extent_id,
                        version,
                    )
                } else {
                    committed_exists && e is ImmutabilityViolation && e.detail()
                        == "committed extent already exists: "@ + committed_path(
                        self.mount_path@,
                        extent_id,
                        version,
                    )
                },
                Ok(plan) => {
                    &&& staged_exists
                    &&& !committed_exists
                    &&& plan.commits(*self, extent_id, version)
                    &&& plan.meta().committed_at == committed_at
                    &&& plan.meta().checksum@ == checksum@
                    &&& plan.meta().size == size
                    &&& plan.meta().storage_class == storage_class
                    &&& plan.entry.extent_id == extent_id
                    &&& plan.entry.disk_id == self.disk_id
                    &&& plan.entry.version == version
                    &&& plan.entry.checksum@ == checksum@
                    &&& plan.entry.size == size
                    &&& plan.entry.storage_class == storage_class
                },
            },
    {
        let mount = self.mount_path.as_str();
        let from = staged_extent_path(mount, extent_id, version);
        let to = committed_extent_path(mount, extent_id, version);
        if !staged_exists {
            return Err(
                StorageError::StagingError(join2("staged file not found: ", from.as_str())),
            );
        }
        if committed_exists {
            return Err(
                StorageError::ImmutabilityViolation(
                    join2("committed extent already exists: ", to.as_str()),
                ),
            );
        }
        let dir = self.dir_of(extent_id);
        let meta = ExtentMeta {
            extent_id,
            disk_id: self.disk_id,
            version,
            checksum: checksum.to_owned(),
            size,
            storage_class,
            committed_at,
        };
        let entry = LocalExtentEntry {
            extent_id,
            disk_id: self.disk_id,
            path: to.clone(),
            version,
            checksum: meta.checksum.clone(),
            size,
            storage_class,
        };
        let mut actions: Vec<CommitAction> = Vec::new();
        actions.push(CommitAction::CreateDir { path: dir.clone() });
        actions.push(
            CommitAction::WriteMeta { path: extent_meta_path(mount, extent_id, version), meta },
        );
        actions.push(CommitAction::Promote { from, to });
        actions.push(CommitAction::SyncDir { path: dir });
        Ok(CommitPlan { actions, entry })
    }

    /// The directory of a committed extent.
    fn dir_of(&self, extent_id: ExtentId) -> (r: String)
        ensures
            r@ == committed_dir(self.mount_path@, extent_id),
    {
        let id_text = extent_id.to_text();
        proof {
            lemma_uuid_text_chars(extent_id.value);
        }
        let prefix = id_text.as_str().substring_ascii(0, 8);
        assert(prefix@ =~= extent_id.text().take(8));
        join_path(join_path(self.mount_path.as_str(), "committed").as_str(), prefix)
    }

    /// What reading a committed extent gives: the data and its checksum.
    ///
    /// `data` is what the file holds, where there is one; `recorded` is the checksum in
    /// the metadata, where it could be read.
    pub fn read_extent(
        &self,
        extent_id: ExtentId,
        version: ExtentVersion,
        data: Option<Vec<u8>>,
        recorded: Option<String>,
    ) -> (r: Result<(Vec<u8>, String), StorageError>)
        ensures
            match read_outcome(
                match data {
                    Some(bytes) => Some(bytes@),
                    None => None,
                },
                match recorded {
                    Some(sum) => Some(sum@),
                    None => None,
                },
            ) {
                ReadOutcome::Missing => r matches Err(e) && e is ExtentNotFound && e.detail()
                    == "committed extent not found: "@ + committed_path(
                    self.mount_path@,
                    extent_id,
                    version,
                ),
                ReadOutcome::Mismatch { expected, actual } => r matches Err(e)
                    && e is ChecksumMismatch && e.detail() == "extent "@ + extent_id.text() + " v"@
                    + decimal(version as nat) + ": expected "@ + expected + ", got "@ + actual,
                ReadOutcome::Read { bytes, checksum } => r matches Ok(out) && out.0@ == bytes
                    && out.1@ == checksum,
            },
    {
        let bytes: Vec<u8> = match data {
            None => {
                return Err(
                    StorageError::ExtentNotFound(
                        join2(
                            "committed extent not found: ",
                            committed_extent_path(
                                self.mount_path.as_str(),
                                extent_id,
                                version,
                            ).as_str(),
                        ),
                    ),
                );
            },
            Some(bytes) => bytes,
        };
        let sum = compute_checksum(bytes.as_slice());
        match recorded {
            Some(expected) => {
                if !checksum_matches(sum.as_str(), expected.as_str()) {
                    let head = join5(
                        "extent ",
                        extent_id.to_text().as_str(),
                        " v",
                        decimal_text(version).as_str(),
                        ": expected ",
                    );
                    return Err(
                        StorageError::ChecksumMismatch(
                            join4(head.as_str(), expected.as_str(), ", got ", sum.as_str()),
                        ),
                    );
                }
            },
            None => {},
        }
        Ok((bytes, sum))
    }

    /// The staged files that are older than the retention interval.
    pub fn cleanup_orphaned_staged(&self, files: &Vec<StagedFile>, retention_secs: u64) -> (r: Vec<
        String,
    >)
        ensures
            r@.map_values(|p: String| p@) == orphaned_paths(files@, retention_secs),
    {
        let ghost view = |p: String| p@;
        let mut r: Vec<String> = Vec::new();
        let mut i: usize = 0;
        assert(r@.map_values(view) =~= Seq::empty());
        while i < files.len()
            invariant
                i <= files@.len(),
                view == (|p: String| p@),
                r@.map_values(view) == orphaned_paths(files@.take(i as int), retention_secs),
            decreases files@.len() - i,
        {
            let ghost had = r@;
            let old_enough = match files[i].age_secs {
                Some(age) => age >= retention_secs,
                None => false,
            };
            if files[i].is_file && old_enough {
                r.push(files[i].path.clone());
                assert(r@.map_values(view) =~= had.map_values(view).push(files@[i as int].path@));
            }
            i = i + 1;
            assert(files@.take(i as int).drop_last() =~= files@.take(i - 1));
        }
        assert(files@.take(files@.len() as int) =~= files@);
        r
    }

    /// Rebuilds the index from the committed files that were found.
    fn scan_committed(&self, files: &Vec<CommittedFile>, index: &mut ExtentIndex) -> (r: (
        usize,
        usize,
    ))
        ensures
            final(index).entries@ == scanned(old(index).entries@, files@).entries,
            r.0 == scanned(old(index).entries@, files@).recovered,
            r.1 == scanned(old(index).entries@, files@).errors,
            old(index).wf() ==> final(index).wf(),
    {
        let ghost start = index.entries@;
        let mut recovered: usize = 0;
        let mut errors: usize = 0;
        let mut i: usize = 0;
        while i < files.len()
            invariant
                i <= files@.len(),
                start == old(index).entries@,
                index.entries@ == scanned(start, files@.take(i as int)).entries,
                recovered == scanned(start, files@.take(i as int)).recovered,
                errors == scanned(start, files@.take(i as int)).errors,
                recovered + errors <= i,
                old(index).wf() ==> index.wf(),
            decreases files@.len() - i,
        {
            let file = &files[i];
            assert(files@.take(i + 1).drop_last() =~= files@.take(i as int));
            if !is_metadata_name(file.name.as_str()) {
                match recover_extent_from_file(&file.path, &file.meta) {
                    Ok(entry) => {
                        if index.insert(entry).is_ok() {
                            recovered = recovered + 1;
                        }
                    },
                    Err(_) => {
                        errors = errors + 1;
                    },
                }
            }
            i = i + 1;
        }
        assert(files@.take(files@.len() as int) =~= files@);
        (recovered, errors)
    }

    /// Recover state on startup: rebuild the index from the committed files that were
    /// found; `staged_discarded` staged files were discarded.
    pub fn recover(
        &self,
        files: &Vec<CommittedFile>,
        staged_discarded: usize,
        index: &mut ExtentIndex,
    ) -> (r: RecoveryReport)
        ensures
            final(index).entries@ == scanned(old(index).entries@, files@).entries,
            r.committed_recovered == scanned(old(index).entries@, files@).recovered,
            r.errors == scanned(old(index).entries@, files@).errors,
            r.staged_discarded == staged_discarded,
            old(index).wf() ==> final(index).wf(),
    {
        let (committed_recovered, errors) = self.scan_committed(files, index);
        RecoveryReport { committed_recovered, staged_discarded, errors }
    }

    /// Where the disk is mounted.
    pub fn mount_path(&self) -> (r: &str)
        ensures
            r@ == self.mount_path@,
    {
        self.mount_path.as_str()
    }

    /// The disk.
    pub fn disk_id(&self) -> (r: DiskId)
        ensures
            r == self.disk_id,
    {
        self.disk_id
    }
}

} // verus!
