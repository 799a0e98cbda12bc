//! The sequential allocator: a monotonic counter, rendered through the shard
//! encoder, hands out one fresh slot path per call, skipping slots whose
//! paths already exist on disk.

use crate::os;
use crate::shard::{slot_path, slot_path_of, COUNTER_LIMIT};
use vstd::prelude::*;
use vstd::string::{StrSliceExecFns, StringExecFns};

verus! {

/// The error surfaced by tree operations.
#[derive(Debug)]
pub enum IoError {
    /// An operating-system error from temporary-directory setup.
    Os(std::io::Error),
    /// Every slot that the 12-digit encoding supports was taken.
    Exhausted,
}

/// The root directory of a tree: either an owned temporary directory,
/// deleted when the tree drops, or a caller-managed persistent path.
enum Root {
    Temporary { dir: tempdir::TempDir, path: String },
    Persistent { path: String },
}

/// Hands out paths for an unbounded number of files below one root
/// directory, such that no single directory ever receives more than 1,000
/// entries.
pub struct FileTree {
    root: Root,
    counter: u64,
}

/// The prefix of `s` before its last `'/'`, or the empty sequence when `s`
/// holds no `'/'`.
spec fn dir_prefix(s: Seq<char>) -> Seq<char>
    decreases s.len(),
{
    if s.len() == 0 {
        s
    } else if s.last() == '/' {
        s.drop_last()
    } else {
        dir_prefix(s.drop_last())
    }
}

/// The parent directory of a path string.
fn parent_dir(s: &String) -> (r: String)
    ensures
        r@ == dir_prefix(s@),
{
    let st = s.as_str();
    let n = st.unicode_len();
    let mut i: usize = n;
    proof {
        assert(s@.subrange(0, n as int) =~= s@);
    }
    while i > 0
        invariant
            i <= n,
            n == s@.len(),
            st@ == s@,
            dir_prefix(s@) == dir_prefix(s@.subrange(0, i as int)),
        decreases i,
    {
        let c = st.get_char(i - 1);
        proof {
            assert(s@.subrange(0, i as int).last() == s@[i - 1]);
            assert(s@.subrange(0, i as int).drop_last() =~= s@.subrange(0, i as int - 1));
        }
        if c == '/' {
            let r = st.substring_char(0, i - 1);
            return String::from_str(r);
        }
        i = i - 1;
    }
    proof {
        assert(s@.subrange(0, 0) =~= Seq::<char>::empty());
        assert(dir_prefix(Seq::<char>::empty()) == Seq::<char>::empty());
    }
    String::new()
}

/// A freshly chosen persistent root: some base directory, a separator, and
/// a 36-character leaf holding no separator (a hyphenated UUID), so that
/// independent persistent instances receive distinct roots.
pub open spec fn fresh_unique_root(p: Seq<char>) -> bool {
    exists|base: Seq<char>, leaf: Seq<char>|
        {
            &&& p == os::joined_path(base, leaf)
            &&& leaf.len() == 36
            &&& forall|j: int| 0 <= j < leaf.len() ==> leaf[j] != '/'
        }
}

/// The fixed name tag of the directories this library creates.
proof fn lemma_prefix_tag()
    ensures
        "file_tree"@.len() == 9,
        forall|j: int| 0 <= j < "file_tree"@.len() ==> "file_tree"@[j] != '/',
{
    reveal_strlit("file_tree");
}

/// Locates the operating system's temporary directory: a scratch directory
/// is created inside it, its path recorded, and the scratch directory
/// removed again.
fn os_temp_base() -> (r: Result<String, IoError>)
    ensures
        r matches Err(e) ==> e is Os,
{
    proof {
        lemma_prefix_tag();
    }
    match os::tempdir_new("file_tree") {
        Ok(dp) => {
            let (dir, p) = dp;
            let base = parent_dir(&p);
            // removing the scratch directory is best-effort: the base path
            // is good either way
            match os::tempdir_close(dir) {
                Ok(_) => Ok(base),
                Err(_) => Ok(base),
            }
        },
        Err(e) => Err(IoError::Os(e)),
    }
}

impl FileTree {
    /// The path of the root directory, below which every slot lives.
    pub closed spec fn root_path(&self) -> Seq<char> {
        match self.root {
            Root::Temporary { path: ref p, .. } => p@,
            Root::Persistent { path: ref p } => p@,
        }
    }

    /// The counter: the next slot that allocation will consider.
    pub closed spec fn counter(&self) -> int {
        self.counter as int
    }

    /// Whether the root directory outlives this value.
    pub closed spec fn is_persistent(&self) -> bool {
        self.root is Persistent
    }

    /// The counter never leaves the range the encoding supports.
    pub closed spec fn wf(&self) -> bool {
        self.counter <= COUNTER_LIMIT
    }

    /// Creates a tree rooted under `path`. With `persistent` false the root
    /// is a fresh temporary directory inside `path`, its name carrying the
    /// `file_tree` tag, deleted when the tree drops; with `persistent` true
    /// the root is `path` itself and is never deleted.
    pub fn new_in(path: String, persistent: bool) -> (r: Result<FileTree, IoError>)
        ensures
            match r {
                Ok(t) => {
                    &&& t.wf()
                    &&& t.counter() == 0
                    &&& t.is_persistent() == persistent
                    &&& (persistent ==> t.root_path() == path@)
                    &&& (!persistent ==> {
                        &&& os::tempdir_path_shape("file_tree"@, t.root_path())
                        &&& (os::plain_abs_dir(path@) ==> os::tempdir_path_under(
                            path@,
                            "file_tree"@,
                            t.root_path(),
                        ))
                    })
                },
                Err(e) => !persistent && e is Os,
            },
    {
        if persistent {
            Ok(FileTree { root: Root::Persistent { path }, counter: 0 })
        } else {
            proof {
                lemma_prefix_tag();
            }
            match os::tempdir_new_in(&path, "file_tree") {
                Ok(dp) => {
                    let (dir, p) = dp;
                    Ok(FileTree { root: Root::Temporary { dir, path: p }, counter: 0 })
                },
                Err(e) => Err(IoError::Os(e)),
            }
        }
    }

    /// Creates a tree. With `persistent` false the root is a fresh
    /// temporary directory under the system temporary directory, its name
    /// carrying the `file_tree` tag, deleted when the tree drops; with
    /// `persistent` true it is a fresh uniquely named path (a hyphenated
    /// UUID leaf) under the system temporary directory, never deleted by
    /// this library.
    pub fn new(persistent: bool) -> (r: Result<FileTree, IoError>)
        ensures
            match r {
                Ok(t) => {
                    &&& t.wf()
                    &&& t.counter() == 0
                    &&& t.is_persistent() == persistent
                    &&& (persistent ==> fresh_unique_root(t.root_path()))
                    &&& (!persistent ==> os::tempdir_path_shape("file_tree"@, t.root_path()))
                },
                Err(e) => e is Os,
            },
    {
        if persistent {
            match os_temp_base() {
                Ok(base) => {
                    let mut p = base;
                    let ghost b: Seq<char> = p@;
                    p.append("/");
                    let u = os::uuid_string();
                    p.append(u.as_str());
                    proof {
                        reveal_strlit("/");
                        assert(p@ =~= os::joined_path(b, u@));
                        assert(fresh_unique_root(p@));
                    }
                    Ok(FileTree { root: Root::Persistent { path: p }, counter: 0 })
                },
                Err(e) => Err(e),
            }
        } else {
            proof {
                lemma_prefix_tag();
            }
            match os::tempdir_new("file_tree") {
                Ok(dp) => {
                    let (dir, p) = dp;
                    Ok(FileTree { root: Root::Temporary { dir, path: p }, counter: 0 })
                },
                Err(e) => Err(IoError::Os(e)),
            }
        }
    }

    /// Wraps an existing directory, typically the root of a persistent tree
    /// built by a prior instance, as a persistent root with the counter
    /// reset to zero. Allocation skips the slots whose files still exist.
    pub fn from_existing(path: String) -> (t: FileTree)
        ensures
            t.wf(),
            t.counter() == 0,
            t.is_persistent(),
            t.root_path() == path@,
    {
        FileTree { root: Root::Persistent { path }, counter: 0 }
    }

    /// Returns the path of an unused slot: the first counter value, from the
    /// current one, whose leaf path does not already exist on disk. The
    /// counter moves past every slot considered, so no slot is ever examined
    /// twice. Neither the file nor its shard directories are created here:
    /// verified code stays clear of `std::fs`, so callers (or the crate's
    /// filesystem companions) create the parent directories before creating
    /// the file.
    pub fn get_new_file(&mut self) -> (r: Result<String, IoError>)
        requires
            old(self).wf(),
        ensures
            final(self).wf(),
            final(self).root_path() == old(self).root_path(),
            final(self).is_persistent() == old(self).is_persistent(),
            final(self).counter() >= old(self).counter(),
            0 <= old(self).counter(),
            final(self).counter() <= COUNTER_LIMIT,
            match r {
                Ok(p) => final(self).counter() > old(self).counter() && p@ == slot_path(
                    final(self).root_path(),
                    final(self).counter() - 1,
                ),
                Err(e) => e is Exhausted && final(self).counter() == COUNTER_LIMIT,
            },
    {
        let root = self.get_root();
        while self.counter < COUNTER_LIMIT
            invariant
                self.wf(),
                self.root_path() == old(self).root_path(),
                self.is_persistent() == old(self).is_persistent(),
                self.counter() >= old(self).counter(),
                root@ == self.root_path(),
            decreases COUNTER_LIMIT - self.counter,
        {
            let c = self.counter;
            let p = slot_path_of(&root, c);
            self.counter = c + 1;
            if !os::path_exists(&p) {
                return Ok(p);
            }
        }
        Err(IoError::Exhausted)
    }

    /// Returns the root directory's path.
    pub fn get_root(&self) -> (r: String)
        ensures
            r@ == self.root_path(),
    {
        match &self.root {
            Root::Temporary { path, .. } => path.clone(),
            Root::Persistent { path } => path.clone(),
        }
    }
}

} // verus!
