//! The key-associative allocator: maps arbitrary string keys to stable
//! slots, reusing the recorded slot for a previously seen key and delegating
//! to the sequential allocator for a new one.

use crate::file_tree::{fresh_unique_root, FileTree, IoError};
use crate::os;
use crate::shard::{lemma_successive_slots_distinct, slot_path, COUNTER_LIMIT};
use vstd::prelude::*;

verus! {

/// The association that a list of `(key, path)` entries records; a later
/// entry for a key overrides an earlier one.
pub open spec fn entries_map(s: Seq<(String, String)>) -> Map<Seq<char>, Seq<char>>
    decreases s.len(),
{
    if s.len() == 0 {
        Map::empty()
    } else {
        entries_map(s.drop_last()).insert(s.last().0@, s.last().1@)
    }
}

/// Whether `path` is the path of a slot below `n` under `root`.
pub open spec fn allocated_below(root: Seq<char>, path: Seq<char>, n: int) -> bool {
    exists|c: int| 0 <= c < n && path == slot_path(root, c)
}

/// A key occurs in `entries_map(s)` exactly when some entry holds it.
proof fn lemma_entries_map_contains(s: Seq<(String, String)>, k: Seq<char>)
    ensures
        entries_map(s).contains_key(k) <==> exists|i: int| 0 <= i < s.len() && s[i].0@ == k,
    decreases s.len(),
{
    if s.len() > 0 {
        lemma_entries_map_contains(s.drop_last(), k);
        if s.last().0@ == k {
            assert(s[s.len() - 1].0@ == k);
        } else {
            if entries_map(s).contains_key(k) {
                let i = choose|i: int| 0 <= i < s.drop_last().len() && s.drop_last()[i].0@ == k;
                assert(s[i].0@ == k);
            }
            if exists|i: int| 0 <= i < s.len() && s[i].0@ == k {
                let i = choose|i: int| 0 <= i < s.len() && s[i].0@ == k;
                assert(i < s.len() - 1);
                assert(s.drop_last()[i].0@ == k);
            }
        }
    }
}

/// With no key repeated, each entry records its own value in the map.
proof fn lemma_entries_map_value(s: Seq<(String, String)>, i: int)
    requires
        forall|i1: int, i2: int| 0 <= i1 < i2 < s.len() ==> s[i1].0@ != s[i2].0@,
        0 <= i < s.len(),
    ensures
        entries_map(s).contains_key(s[i].0@),
        entries_map(s)[s[i].0@] == s[i].1@,
    decreases s.len(),
{
    if i == s.len() - 1 {
        assert(s.last() == s[i]);
    } else {
        assert(s.last().0@ != s[i].0@);
        assert(s.drop_last()[i] == s[i]);
        lemma_entries_map_value(s.drop_last(), i);
    }
}

/// Appending an entry inserts its association.
proof fn lemma_entries_map_push(s: Seq<(String, String)>, e: (String, String))
    ensures
        entries_map(s.push(e)) == entries_map(s).insert(e.0@, e.1@),
{
    assert(s.push(e).drop_last() =~= s);
    assert(s.push(e).last() == e);
}

/// A slot below `n1` is also a slot below any larger bound.
proof fn lemma_allocated_below_monotone(root: Seq<char>, path: Seq<char>, n1: int, n2: int)
    requires
        allocated_below(root, path, n1),
        n1 <= n2,
    ensures
        allocated_below(root, path, n2),
{
    let c = choose|c: int| 0 <= c < n1 && path == slot_path(root, c);
    assert(0 <= c < n2 && path == slot_path(root, c));
}

/// Maps arbitrary string keys to stable slot paths below one root
/// directory. The key map only grows; a key once seen always resolves to
/// the same path.
pub struct KeyedFileTree {
    tree: FileTree,
    entries: Vec<(String, String)>,
}

impl KeyedFileTree {
    /// The key-to-path association as a mathematical map.
    pub closed spec fn map_view(&self) -> Map<Seq<char>, Seq<char>> {
        entries_map(self.entries@)
    }

    /// The recorded entries, in insertion order.
    pub closed spec fn entries_view(&self) -> Seq<(String, String)> {
        self.entries@
    }

    /// The path of the root directory.
    pub closed spec fn root_path(&self) -> Seq<char> {
        self.tree.root_path()
    }

    /// The internal sequential allocator's counter.
    pub closed spec fn counter(&self) -> int {
        self.tree.counter()
    }

    /// Whether the root directory outlives this value.
    pub closed spec fn is_persistent(&self) -> bool {
        self.tree.is_persistent()
    }

    /// Well-formedness: the allocator is well-formed and no key is recorded
    /// twice.
    pub closed spec fn inv(&self) -> bool {
        &&& self.tree.wf()
        &&& forall|i1: int, i2: int|
            0 <= i1 < i2 < self.entries@.len() ==> self.entries@[i1].0@ != self.entries@[i2].0@
    }

    /// Every recorded path came from this instance's own allocator, and no
    /// path is recorded twice. This holds of a tree that started empty; a
    /// tree reconstructed from an externally supplied map inherits whatever
    /// that map contains instead.
    pub closed spec fn self_allocated(&self) -> bool {
        &&& forall|i: int|
            0 <= i < self.entries@.len() ==> allocated_below(
                self.tree.root_path(),
                #[trigger] self.entries@[i].1@,
                self.tree.counter(),
            )
        &&& forall|i1: int, i2: int|
            0 <= i1 < i2 < self.entries@.len() ==> self.entries@[i1].1@ != self.entries@[i2].1@
    }

    /// As [`FileTree::new`], with an empty key map.
    pub fn new(persistent: bool) -> (r: Result<KeyedFileTree, IoError>)
        ensures
            match r {
                Ok(t) => {
                    &&& t.inv()
                    &&& t.self_allocated()
                    &&& t.counter() == 0
                    &&& t.map_view() == Map::<Seq<char>, Seq<char>>::empty()
                    &&& t.is_persistent() == persistent
                    &&& (persistent ==> fresh_unique_root(t.root_path()))
                    &&& (!persistent ==> os::tempdir_path_shape("file_tree"@, t.root_path()))
                },
                Err(e) => e is Os,
            },
    {
        match FileTree::new(persistent) {
            Ok(tree) => Ok(KeyedFileTree { tree, entries: Vec::new() }),
            Err(e) => Err(e),
        }
    }

    /// As [`FileTree::new_in`], with an empty key map.
    pub fn new_in(path: String, persistent: bool) -> (r: Result<KeyedFileTree, IoError>)
        ensures
            match r {
                Ok(t) => {
                    &&& t.inv()
                    &&& t.self_allocated()
                    &&& t.counter() == 0
                    &&& t.map_view() == Map::<Seq<char>, Seq<char>>::empty()
                    &&& t.is_persistent() == persistent
                    &&& (persistent ==> t.root_path() == path@)
                    &&& (!persistent ==> {
                        &&& os::tempdir_path_shape("file_tree"@, t.root_path())
                        &&& (os::plain_abs_dir(path@) ==> os::tempdir_path_under(
                            path@,
                            "file_tree"@,
                            t.root_path(),
                        ))
                    })
                },
                Err(e) => !persistent && e is Os,
            },
    {
        match FileTree::new_in(path, persistent) {
            Ok(tree) => Ok(KeyedFileTree { tree, entries: Vec::new() }),
            Err(e) => Err(e),
        }
    }

    /// Reconstructs a tree from a persistent root and the key map that a
    /// prior instance's [`Self::get_existing_files`] returned. The entries
    /// must hold no key twice; the referenced files are not validated.
    pub fn from_existing(path: String, map: Vec<(String, String)>) -> (t: KeyedFileTree)
        requires
            forall|i1: int, i2: int| 0 <= i1 < i2 < map@.len() ==> map@[i1].0@ != map@[i2].0@,
        ensures
            t.inv(),
            t.counter() == 0,
            t.is_persistent(),
            t.root_path() == path@,
            t.map_view() == entries_map(map@),
    {
        KeyedFileTree { tree: FileTree::from_existing(path), entries: map }
    }

    /// Returns the path recorded for `key`, allocating a fresh slot and
    /// recording it first when the key was never seen. A known key is
    /// answered from the map alone: the recorded path comes back unchanged
    /// and nothing else moves.
    #[verifier::loop_isolation(false)]
    pub fn get(&mut self, key: String) -> (r: Result<String, IoError>)
        requires
            old(self).inv(),
        ensures
            final(self).inv(),
            final(self).root_path() == old(self).root_path(),
            final(self).is_persistent() == old(self).is_persistent(),
            final(self).counter() >= old(self).counter(),
            old(self).self_allocated() ==> final(self).self_allocated(),
            match r {
                Ok(p) => {
                    &&& final(self).map_view().contains_key(key@)
                    &&& final(self).map_view()[key@] == p@
                    &&& (old(self).map_view().contains_key(key@) ==> {
                        &&& p@ == old(self).map_view()[key@]
                        &&& final(self).map_view() == old(self).map_view()
                        &&& final(self).counter() == old(self).counter()
                    })
                    &&& (!old(self).map_view().contains_key(key@) ==> {
                        &&& final(self).map_view() == old(self).map_view().insert(key@, p@)
                        &&& allocated_below(old(self).root_path(), p@, final(self).counter())
                        &&& (old(self).self_allocated() ==> forall|k: Seq<char>|
                            old(self).map_view().contains_key(k) ==> old(self).map_view()[k] != p@)
                    })
                },
                Err(e) => {
                    &&& e is Exhausted
                    &&& !old(self).map_view().contains_key(key@)
                    &&& final(self).map_view() == old(self).map_view()
                    &&& final(self).counter() == COUNTER_LIMIT
                },
            },
    {
        let n = self.entries.len();
        let mut i: usize = 0;
        while i < n
            invariant
                n == self.entries@.len(),
                i <= n,
                forall|j: int| 0 <= j < i ==> self.entries@[j].0@ != key@,
            decreases n - i,
        {
            let entry = &self.entries[i];
            if entry.0 == key {
                proof {
                    lemma_entries_map_value(self.entries@, i as int);
                }
                return Ok(entry.1.clone());
            }
            i = i + 1;
        }
        proof {
            lemma_entries_map_contains(self.entries@, key@);
        }
        let ghost pre = *self;
        match self.tree.get_new_file() {
            Ok(p) => {
                let ghost gkey: Seq<char> = key@;
                let path_copy = p.clone();
                self.entries.push((key, p));
                proof {
                    let s = pre.entries@;
                    let e = self.entries@.last();
                    assert(e.0@ == gkey);
                    assert(e.1@ == path_copy@);
                    assert(self.entries@ =~= s.push(e));
                    lemma_entries_map_push(s, e);
                    let cnew = self.tree.counter() - 1;
                    assert(path_copy@ == slot_path(pre.root_path(), cnew));
                    assert(0 <= cnew < self.tree.counter());
                    assert(allocated_below(pre.root_path(), path_copy@, self.tree.counter()));
                    if pre.self_allocated() {
                        assert forall|i1: int| 0 <= i1 < s.len() implies s[i1].1@
                            != path_copy@ by {
                            assert(allocated_below(pre.root_path(), s[i1].1@, pre.counter()));
                            let c1 = choose|c1: int|
                                0 <= c1 < pre.counter() && s[i1].1@ == slot_path(
                                    pre.root_path(),
                                    c1,
                                );
                            lemma_successive_slots_distinct(
                                pre.root_path(),
                                c1,
                                pre.counter(),
                                cnew,
                            );
                        };
                        assert forall|i1: int|
                            0 <= i1 < self.entries@.len() implies allocated_below(
                            self.tree.root_path(),
                            #[trigger] self.entries@[i1].1@,
                            self.tree.counter(),
                        ) by {
                            if i1 < s.len() {
                                assert(self.entries@[i1] == s[i1]);
                                lemma_allocated_below_monotone(
                                    pre.root_path(),
                                    s[i1].1@,
                                    pre.counter(),
                                    self.tree.counter(),
                                );
                            }
                        };
                        assert forall|k: Seq<char>|
                            pre.map_view().contains_key(k) implies pre.map_view()[k]
                            != path_copy@ by {
                            lemma_entries_map_contains(s, k);
                            let i1 = choose|i1: int| 0 <= i1 < s.len() && s[i1].0@ == k;
                            lemma_entries_map_value(s, i1);
                        };
                    }
                }
                Ok(path_copy)
            },
            Err(e) => {
                proof {
                    if pre.self_allocated() {
                        assert forall|i1: int|
                            0 <= i1 < self.entries@.len() implies allocated_below(
                            self.tree.root_path(),
                            #[trigger] self.entries@[i1].1@,
                            self.tree.counter(),
                        ) by {
                            lemma_allocated_below_monotone(
                                pre.root_path(),
                                self.entries@[i1].1@,
                                pre.counter(),
                                self.tree.counter(),
                            );
                        };
                    }
                }
                Err(e)
            },
        }
    }

    /// Returns a copy of the key map, for persistence by the caller and
    /// later reconstruction through [`Self::from_existing`].
    #[verifier::loop_isolation(false)]
    pub fn get_existing_files(&self) -> (r: Vec<(String, String)>)
        requires
            self.inv(),
        ensures
            r@ == self.entries_view(),
            entries_map(r@) == self.map_view(),
            forall|i1: int, i2: int| 0 <= i1 < i2 < r@.len() ==> r@[i1].0@ != r@[i2].0@,
    {
        let n = self.entries.len();
        let mut r: Vec<(String, String)> = Vec::new();
        let mut i: usize = 0;
        while i < n
            invariant
                n == self.entries@.len(),
                i <= n,
                r@.len() == i,
                forall|j: int| 0 <= j < i ==> r@[j] == self.entries@[j],
            decreases n - i,
        {
            let k = self.entries[i].0.clone();
            let v = self.entries[i].1.clone();
            r.push((k, v));
            i = i + 1;
        }
        proof {
            assert(r@ =~= self.entries@);
        }
        r
    }

    /// Returns the root directory's path.
    pub fn get_root(&self) -> (r: String)
        ensures
            r@ == self.root_path(),
    {
        self.tree.get_root()
    }
}

/// Law (recovery round-trip): a tree reconstructed from a saved key map
/// restores every saved association: each saved key resolves to its saved
/// path, and [`KeyedFileTree::get`] answers a known key from the map alone.
pub proof fn lemma_recovery_round_trip(t: &KeyedFileTree, saved: Seq<(String, String)>, i: int)
    requires
        forall|i1: int, i2: int| 0 <= i1 < i2 < saved.len() ==> saved[i1].0@ != saved[i2].0@,
        t.map_view() == entries_map(saved),
        0 <= i < saved.len(),
    ensures
        t.map_view().contains_key(saved[i].0@),
        t.map_view()[saved[i].0@] == saved[i].1@,
{
    lemma_entries_map_value(saved, i);
}

/// Law (key distinctness): in a tree whose every recorded path came from
/// its own allocator, distinct keys resolve to distinct paths.
pub proof fn lemma_distinct_keys_distinct_paths(t: &KeyedFileTree, k1: Seq<char>, k2: Seq<char>)
    requires
        t.inv(),
        t.self_allocated(),
        k1 != k2,
        t.map_view().contains_key(k1),
        t.map_view().contains_key(k2),
    ensures
        t.map_view()[k1] != t.map_view()[k2],
{
    let s = t.entries_view();
    lemma_entries_map_contains(s, k1);
    lemma_entries_map_contains(s, k2);
    let i1 = choose|i: int| 0 <= i < s.len() && s[i].0@ == k1;
    let i2 = choose|i: int| 0 <= i < s.len() && s[i].0@ == k2;
    lemma_entries_map_value(s, i1);
    lemma_entries_map_value(s, i2);
    assert(i1 != i2);
}

} // verus!
