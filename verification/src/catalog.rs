//! The catalog of files and directories discovered under a source root.
//!
//! The walk itself performs filesystem reads and therefore lives with the
//! caller; it hands the plain values it finds (paths, sizes, modification
//! times) to a `PathCatalog`, which records them in discovery order.
use vstd::prelude::*;

verus! {

/// One regular file discovered during the walk, immutable thereafter.
#[derive(Clone)]
pub struct SourceFile {
    /// Absolute local path of the file.
    pub file_path: String,
    /// Size of the file in bytes at the time of the walk.
    pub size: u64,
    /// Modification time as seconds since the epoch, where it was obtainable.
    pub modified: Option<u64>,
}

/// A fault concerning a single file or path.
#[derive(Debug, Clone, PartialEq, Eq)]
pub enum FileError {
    CannotCreate(String),
    FileNotCreate(String),
    /// A path handed to the mapper does not lie under the source root.
    /// This indicates a catalog/mapper mismatch and is fatal.
    PathNotUnderRoot(String),
}

/// The complete enumeration of files and directories discovered under a
/// source root, in discovery order.
pub struct PathCatalog {
    /// Every regular file found, in the order the walk met them.
    pub files: Vec<SourceFile>,
    /// The remote path of every subdirectory found, recorded pre-order:
    /// a directory stands before everything the walk found inside it.
    pub folders: Vec<String>,
}

impl PathCatalog {
    /// An empty catalog, before the walk starts.
    pub fn new() -> (r: PathCatalog)
        ensures
            r.files@ == Seq::<SourceFile>::empty(),
            r.folders@ == Seq::<String>::empty(),
    {
        PathCatalog { files: Vec::new(), folders: Vec::new() }
    }

    /// Records one regular file. The walk calls this once per file whose
    /// metadata it could read; unreadable files are skipped by the caller
    /// and never appear here.
    pub fn record_file(&mut self, file_path: String, size: u64, modified: Option<u64>)
        ensures
            final(self).files@ == old(self).files@.push(
                (SourceFile { file_path, size, modified }),
            ),
            final(self).folders@ == old(self).folders@,
    {
        self.files.push(SourceFile { file_path, size, modified });
    }

    /// Records the remote path of one subdirectory, before the walk
    /// descends into it.
    pub fn record_folder(&mut self, remote_path: String)
        ensures
            final(self).folders@ == old(self).folders@.push(remote_path),
            final(self).files@ == old(self).files@,
    {
        self.folders.push(remote_path);
    }
}

/// The mathematical sum of the sizes of a sequence of files.
pub open spec fn sum_sizes(files: Seq<SourceFile>) -> int
    decreases files.len(),
{
    if files.len() == 0 {
        0
    } else {
        sum_sizes(files.drop_last()) + files.last().size
    }
}

proof fn lemma_sum_sizes_nonneg(files: Seq<SourceFile>)
    ensures
        sum_sizes(files) >= 0,
    decreases files.len(),
{
    if files.len() > 0 {
        lemma_sum_sizes_nonneg(files.drop_last());
    }
}

/// The number of bytes the whole catalog stands for: the sum of all file
/// sizes, saturating at the largest representable value.
pub fn total_size(files: &Vec<SourceFile>) -> (r: u64)
    ensures
        r as int == if sum_sizes(files@) <= u64::MAX as int {
            sum_sizes(files@)
        } else {
            u64::MAX as int
        },
{
    let mut acc: u64 = 0;
    let mut i: usize = 0;
    proof {
        assert(files@.take(0) =~= Seq::<SourceFile>::empty());
    }
    while i < files.len()
        invariant
            0 <= i <= files@.len(),
            acc as int == if sum_sizes(files@.take(i as int)) <= u64::MAX as int {
                sum_sizes(files@.take(i as int))
            } else {
                u64::MAX as int
            },
        decreases files@.len() - i,
    {
        let sz = files[i].size;
        proof {
            let pre = files@.take(i as int);
            let post = files@.take(i + 1);
            assert(post.drop_last() =~= pre);
            assert(post.last() == files@[i as int]);
            lemma_sum_sizes_nonneg(pre);
        }
        acc = acc.saturating_add(sz);
        i += 1;
    }
    proof {
        assert(files@.take(files@.len() as int) =~= files@);
    }
    acc
}

} // verus!
