//! Plain data carried between the pipeline stages.

use vstd::prelude::*;

verus! {

/// A summary paired with the name of the file it describes.
#[derive(Debug)]
pub struct FileSummary {
    pub filename: String,
    pub summary: String,
}

/// What the digest table records for one file path: the file's modification
/// time when it was last summarized, and the hex digest of its contents.
#[derive(Debug)]
pub struct FileDigest {
    pub mtime: Option<u64>,
    pub digest: String,
}

/// One file entry of a directory snapshot.
#[derive(Debug)]
pub struct Entry {
    pub path: String,
    pub entry_id: u64,
    pub size: u64,
    pub mtime: Option<u64>,
    pub is_file: bool,
}

/// A directory snapshot: the file entries, with unique paths and ids.
#[derive(Debug)]
pub struct Snapshot {
    pub entries: Vec<Entry>,
}

/// The snapshot's entry carrying this id, if any.
pub open spec fn entry_of_id(s: Seq<Entry>, id: u64) -> Option<Entry>
    decreases s.len(),
{
    if s.len() == 0 {
        None
    } else if s[0].entry_id == id {
        Some(s[0])
    } else {
        entry_of_id(s.drop_first(), id)
    }
}

/// A sequence without the id has no entry for it.
pub proof fn lemma_entry_of_id_absent(s: Seq<Entry>, id: u64)
    requires
        forall|i: int| 0 <= i < s.len() ==> s[i].entry_id != id,
    ensures
        entry_of_id(s, id) is None,
    decreases s.len(),
{
    if s.len() > 0 {
        assert(forall|i: int|
            0 <= i < s.drop_first().len() ==> s.drop_first()[i].entry_id != id);
        lemma_entry_of_id_absent(s.drop_first(), id);
    }
}

/// With unique ids, an entry is what its id resolves to.
pub proof fn lemma_entry_of_id_at(s: Seq<Entry>, id: u64, i: int)
    requires
        forall|x: int, y: int| 0 <= x < y < s.len() ==> s[x].entry_id != s[y].entry_id,
        0 <= i < s.len(),
        s[i].entry_id == id,
    ensures
        entry_of_id(s, id) == Some(s[i]),
    decreases s.len(),
{
    if i > 0 {
        assert(s[0].entry_id != id);
        assert(forall|x: int, y: int|
            0 <= x < y < s.drop_first().len() ==> s.drop_first()[x].entry_id == s[x + 1].entry_id
                && s.drop_first()[y].entry_id == s[y + 1].entry_id);
        lemma_entry_of_id_at(s.drop_first(), id, i - 1);
    }
}

/// What an id resolves to lies in the sequence and carries that id.
pub proof fn lemma_entry_of_id_member(s: Seq<Entry>, id: u64)
    requires
        entry_of_id(s, id) is Some,
    ensures
        entry_of_id(s, id).unwrap().entry_id == id,
        exists|i: int| 0 <= i < s.len() && s[i] == entry_of_id(s, id).unwrap(),
    decreases s.len(),
{
    if s.len() > 0 && s[0].entry_id != id {
        lemma_entry_of_id_member(s.drop_first(), id);
        let i = choose|i: int|
            0 <= i < s.drop_first().len() && s.drop_first()[i] == entry_of_id(s, id).unwrap();
        assert(s[i + 1] == entry_of_id(s, id).unwrap());
    }
}

impl Snapshot {
    /// Paths are unique, hold no null byte (so that key encoding stays
    /// injective), and ids are unique.
    pub open spec fn wf(self) -> bool {
        &&& forall|i: int, j: int|
            0 <= i < j < self.entries@.len() ==> self.entries@[i].path@ != self.entries@[j].path@
        &&& forall|i: int, j: int|
            0 <= i < j < self.entries@.len()
                ==> self.entries@[i].entry_id != self.entries@[j].entry_id
        &&& forall|i: int|
            0 <= i < self.entries@.len() ==> !self.entries@[i].path@.contains('\0')
    }

    /// An indexed lookup: the entry carrying this id, if any.
    pub fn entry_for_id(&self, id: u64) -> (r: Option<&Entry>)
        requires
            self.wf(),
        ensures
            match r {
                Some(e) => entry_of_id(self.entries@, id) == Some(*e),
                None => entry_of_id(self.entries@, id) is None,
            },
    {
        let n = self.entries.len();
        let mut i: usize = 0;
        while i < n
            invariant
                self.wf(),
                n == self.entries@.len(),
                i <= n,
                forall|j: int| 0 <= j < i ==> self.entries@[j].entry_id != id,
            decreases n - i,
        {
            if self.entries[i].entry_id == id {
                proof {
                    lemma_entry_of_id_at(self.entries@, id, i as int);
                }
                return Some(&self.entries[i]);
            }
            i = i + 1;
        }
        proof {
            lemma_entry_of_id_absent(self.entries@, id);
        }
        None
    }
}

/// How a path changed on disk since the last observation.
#[derive(Clone, Copy, Debug, PartialEq, Eq, Structural)]
pub enum PathChange {
    Loaded,
    Added,
    Updated,
    AddedOrUpdated,
    Removed,
}

/// One element of a delta scan's change set.
#[derive(Debug)]
pub struct UpdatedEntry {
    pub path: String,
    pub entry_id: u64,
    pub change: PathChange,
}

/// A file whose contents were read and hashed but not yet summarized.
#[derive(Debug)]
pub struct UnsummarizedFile {
    pub path: String,
    pub mtime: Option<u64>,
    pub digest: String,
    pub contents: String,
}

impl UnsummarizedFile {
    /// A structurally equal copy.
    pub fn duplicate(&self) -> (r: UnsummarizedFile)
        ensures
            r == *self,
    {
        UnsummarizedFile {
            path: self.path.clone(),
            mtime: self.mtime,
            digest: self.digest.clone(),
            contents: self.contents.clone(),
        }
    }
}

/// A file together with the summary obtained for its contents.
#[derive(Debug)]
pub struct SummarizedFile {
    pub path: String,
    pub mtime: Option<u64>,
    pub digest: String,
    pub summary: String,
}

/// What one call of the summarization provider came back with.
#[derive(Debug)]
pub enum ProviderOutcome {
    /// The provider answered with this text.
    Success(String),
    /// The call failed (network, quota, context length, ...).
    Failure,
}

/// A fatal, run-aborting error.
#[derive(Clone, Copy, Debug, PartialEq, Eq, Structural)]
pub enum SummaryError {
    /// The configured summarization model is not among the available models.
    NoModel,
}

/// Structural equality of two optional modification times.
pub fn mtime_eq(a: &Option<u64>, b: &Option<u64>) -> (r: bool)
    ensures
        r == (*a == *b),
{
    match (a, b) {
        (None, None) => true,
        (Some(x), Some(y)) => *x == *y,
        _ => false,
    }
}

} // verus!
