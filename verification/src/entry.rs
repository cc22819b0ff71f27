//! The entry data model and the index: a mapping from relative path
//! to entry, kept as a vector sorted strictly by path so that every
//! iteration and every persisted snapshot is deterministic.

use crate::strutil::{lex_lt, lemma_lex_trichotomy, lemma_lex_transitive, str_eq, str_lt};
use vstd::prelude::*;

verus! {

/// One regular file at a point in time.
#[derive(Debug, PartialEq, Eq)]
pub struct Entry {
    /// Path relative to the indexed root, slash-separated.
    pub rel_path: String,
    /// Byte length at hash time.
    pub size: u64,
    /// Seconds since the Unix epoch (creation time, else modification
    /// time, else zero).
    pub tstamp: u64,
    /// Lowercase hexadecimal content digest.
    pub hash_hex: String,
}

/// The mathematical content of an `Entry`.
#[verifier::ext_equal]
pub ghost struct EntryModel {
    pub rel_path: Seq<char>,
    pub size: u64,
    pub tstamp: u64,
    pub hash_hex: Seq<char>,
}

impl View for Entry {
    type V = EntryModel;

    open spec fn view(&self) -> EntryModel {
        EntryModel {
            rel_path: self.rel_path@,
            size: self.size,
            tstamp: self.tstamp,
            hash_hex: self.hash_hex@,
        }
    }
}

impl Entry {
    pub fn new(rel_path: String, size: u64, tstamp: u64, hash_hex: String) -> (r: Entry)
        ensures
            r@ == (EntryModel { rel_path: rel_path@, size, tstamp, hash_hex: hash_hex@ }),
    {
        Entry { rel_path, size, tstamp, hash_hex }
    }

    /// A copy with the same content.
    pub fn duplicate(&self) -> (r: Entry)
        ensures
            r@ == self@,
    {
        Entry {
            rel_path: self.rel_path.clone(),
            size: self.size,
            tstamp: self.tstamp,
            hash_hex: self.hash_hex.clone(),
        }
    }
}

/// Entries in strictly increasing path order: sorted and duplicate-free.
pub open spec fn entries_sorted(s: Seq<EntryModel>) -> bool {
    forall|i: int, j: int|
        0 <= i < j < s.len() ==> lex_lt(#[trigger] s[i].rel_path, #[trigger] s[j].rel_path)
}

/// The mapping an entry sequence denotes, later entries winning.
pub open spec fn entries_map(s: Seq<EntryModel>) -> Map<Seq<char>, EntryModel>
    decreases s.len(),
{
    if s.len() == 0 {
        Map::empty()
    } else {
        entries_map(s.drop_last()).insert(s.last().rel_path, s.last())
    }
}

/// A key is in the mapping exactly when some entry carries it.
pub proof fn lemma_entries_map_dom(s: Seq<EntryModel>, k: Seq<char>)
    ensures
        entries_map(s).dom().contains(k) <==> exists|i: int|
            0 <= i < s.len() && #[trigger] s[i].rel_path == k,
    decreases s.len(),
{
    if s.len() > 0 {
        lemma_entries_map_dom(s.drop_last(), k);
        if s.last().rel_path == k {
            assert(s[s.len() - 1].rel_path == k);
        } else if entries_map(s.drop_last()).dom().contains(k) {
            let i = choose|i: int| 0 <= i < s.len() - 1 && #[trigger] s.drop_last()[i].rel_path
                == k;
            assert(s[i].rel_path == k);
        } else {
            if exists|i: int| 0 <= i < s.len() && #[trigger] s[i].rel_path == k {
                let i = choose|i: int| 0 <= i < s.len() && #[trigger] s[i].rel_path == k;
                assert(i < s.len() - 1);
                assert(s.drop_last()[i].rel_path == k);
            }
        }
    }
}

/// No two entries carry the same path.
pub open spec fn paths_unique(s: Seq<EntryModel>) -> bool {
    forall|i: int, j: int|
        0 <= i < j < s.len() ==> (#[trigger] s[i]).rel_path != (#[trigger] s[j]).rel_path
}

pub proof fn lemma_sorted_paths_unique(s: Seq<EntryModel>)
    requires
        entries_sorted(s),
    ensures
        paths_unique(s),
{
    assert forall|i: int, j: int| 0 <= i < j < s.len() implies (#[trigger] s[i]).rel_path != (
    #[trigger] s[j]).rel_path by {
        lemma_lex_trichotomy(s[i].rel_path, s[j].rel_path);
    }
}

/// With duplicate-free paths, the mapping sends each path to its entry.
pub proof fn lemma_entries_map_at_unique(s: Seq<EntryModel>, i: int)
    requires
        paths_unique(s),
        0 <= i < s.len(),
    ensures
        entries_map(s).dom().contains(s[i].rel_path),
        entries_map(s)[s[i].rel_path] == s[i],
    decreases s.len(),
{
    if i == s.len() - 1 {
    } else {
        assert(forall|k: int| 0 <= k < s.len() - 1 ==> #[trigger] s.drop_last()[k] == s[k]);
        lemma_entries_map_at_unique(s.drop_last(), i);
        assert(s[i].rel_path != s[s.len() - 1].rel_path);
    }
}

/// With duplicate-free keys, the mapping sends each key to its entry.
pub proof fn lemma_entries_map_at(s: Seq<EntryModel>, i: int)
    requires
        entries_sorted(s),
        0 <= i < s.len(),
    ensures
        entries_map(s).dom().contains(s[i].rel_path),
        entries_map(s)[s[i].rel_path] == s[i],
{
    lemma_sorted_paths_unique(s);
    lemma_entries_map_at_unique(s, i);
}

/// The mapping does not depend on the order the entries arrived in:
/// two duplicate-free entry sequences holding the same entries — in
/// whatever order the hashing workers delivered them — denote the
/// same mapping.
pub proof fn lemma_entries_map_order_free(s1: Seq<EntryModel>, s2: Seq<EntryModel>)
    requires
        paths_unique(s1),
        paths_unique(s2),
        forall|e: EntryModel| s1.contains(e) <==> s2.contains(e),
    ensures
        entries_map(s1) == entries_map(s2),
{
    let m1 = entries_map(s1);
    let m2 = entries_map(s2);
    assert forall|k: Seq<char>| #[trigger] m1.dom().contains(k) implies m2.dom().contains(k)
        && m2[k] == m1[k] by {
        lemma_entries_map_dom(s1, k);
        let i = choose|i: int| 0 <= i < s1.len() && (#[trigger] s1[i]).rel_path == k;
        lemma_entries_map_at_unique(s1, i);
        assert(s1.contains(s1[i]));
        let j = choose|j: int| 0 <= j < s2.len() && s2[j] == s1[i];
        lemma_entries_map_at_unique(s2, j);
    }
    assert forall|k: Seq<char>| #[trigger] m2.dom().contains(k) implies m1.dom().contains(
        k,
    ) by {
        lemma_entries_map_dom(s2, k);
        let j = choose|j: int| 0 <= j < s2.len() && (#[trigger] s2[j]).rel_path == k;
        assert(s2.contains(s2[j]));
        let i = choose|i: int| 0 <= i < s1.len() && s1[i] == s2[j];
        lemma_entries_map_at_unique(s1, i);
    }
    assert(m1.dom() =~= m2.dom());
    assert(m1 =~= m2);
}

/// A full snapshot of a tree: relative path to entry, in sorted order.
pub struct Index {
    entries: Vec<Entry>,
}

impl Index {
    /// The entries, in storage order.
    pub closed spec fn entries_view(self) -> Seq<EntryModel> {
        self.entries@.map_values(|e: Entry| e@)
    }

    /// Well-formed: strictly sorted by path, hence duplicate-free.
    pub open spec fn wf(self) -> bool {
        entries_sorted(self.entries_view())
    }

    /// The mapping this index denotes.
    pub open spec fn as_map(self) -> Map<Seq<char>, EntryModel> {
        entries_map(self.entries_view())
    }

    pub open spec fn contains_path(self, p: Seq<char>) -> bool {
        self.as_map().dom().contains(p)
    }

    pub fn new() -> (r: Index)
        ensures
            r.wf(),
            r.as_map() == Map::<Seq<char>, EntryModel>::empty(),
            r.entries_view() == Seq::<EntryModel>::empty(),
    {
        let r = Index { entries: Vec::new() };
        proof {
            assert(r.entries_view() =~= Seq::<EntryModel>::empty());
        }
        r
    }

    pub fn len(&self) -> (r: usize)
        ensures
            r == self.entries_view().len(),
    {
        self.entries.len()
    }

    pub fn at(&self, i: usize) -> (r: &Entry)
        requires
            i < self.entries_view().len(),
        ensures
            r@ == self.entries_view()[i as int],
    {
        &self.entries[i]
    }

    /// Position of `path` among the entries, if present.
    pub fn find(&self, path: &str) -> (r: Option<usize>)
        ensures
            match r {
                Some(i) => i < self.entries_view().len() && self.entries_view()[
                    i as int
                ].rel_path == path@,
                None => !self.contains_path(path@),
            },
    {
        let n = self.entries.len();
        let mut i: usize = 0;
        while i < n
            invariant
                i <= n == self.entries_view().len(),
                forall|j: int| 0 <= j < i ==> self.entries_view()[j].rel_path != path@,
            decreases n - i,
        {
            if str_eq(self.entries[i].rel_path.as_str(), path) {
                assert(self.entries_view()[i as int].rel_path == path@);
                return Some(i);
            }
            i = i + 1;
        }
        proof {
            lemma_entries_map_dom(self.entries_view(), path@);
        }
        None
    }

    /// Looks a path up, as the mapping does.
    pub fn get(&self, path: &str) -> (r: Option<&Entry>)
        requires
            self.wf(),
        ensures
            match r {
                Some(e) => self.contains_path(path@) && e@ == self.as_map()[path@],
                None => !self.contains_path(path@),
            },
    {
        match self.find(path) {
            Some(i) => {
                proof {
                    lemma_entries_map_at(self.entries_view(), i as int);
                }
                Some(&self.entries[i])
            },
            None => None,
        }
    }

    /// First position whose path is not below `path`.
    fn lower_bound(&self, path: &str) -> (idx: usize)
        ensures
            idx <= self.entries_view().len(),
            forall|j: int| 0 <= j < idx ==> lex_lt(
                #[trigger] self.entries_view()[j].rel_path,
                path@,
            ),
            idx < self.entries_view().len() ==> !lex_lt(
                self.entries_view()[idx as int].rel_path,
                path@,
            ),
    {
        let n = self.entries.len();
        let mut idx: usize = 0;
        loop
            invariant
                idx <= n == self.entries_view().len(),
                forall|j: int| 0 <= j < idx ==> lex_lt(
                    #[trigger] self.entries_view()[j].rel_path,
                    path@,
                ),
            decreases n - idx,
        {
            if idx == n {
                return idx;
            }
            if !str_lt(self.entries[idx].rel_path.as_str(), path) {
                return idx;
            }
            idx = idx + 1;
        }
    }

    /// Inserts an entry, replacing any entry with the same path.
    pub fn insert(&mut self, e: Entry)
        requires
            old(self).wf(),
        ensures
            final(self).wf(),
            final(self).as_map() == old(self).as_map().insert(e@.rel_path, e@),
    {
        let ghost s0 = old(self).entries_view();
        let n = self.entries.len();
        let idx = self.lower_bound(e.rel_path.as_str());
        if idx < n && str_eq(self.entries[idx].rel_path.as_str(), e.rel_path.as_str()) {
            proof {
                lemma_update_entries_map(s0, idx as int, e@);
            }
            self.entries.remove(idx);
            self.entries.insert(idx, e);
            proof {
                assert(self.entries_view() =~= s0.update(idx as int, e@));
                lemma_update_sorted(s0, idx as int, e@);
            }
        } else {
            proof {
                assert forall|j: int| idx <= j < s0.len() implies lex_lt(
                    e@.rel_path,
                    s0[j].rel_path,
                ) by {
                    lemma_lex_trichotomy(s0[idx as int].rel_path, e@.rel_path);
                    if j > idx {
                        assert(lex_lt(s0[idx as int].rel_path, s0[j].rel_path));
                        lemma_lex_transitive(
                            e@.rel_path,
                            s0[idx as int].rel_path,
                            s0[j].rel_path,
                        );
                    }
                }
                lemma_insert_entries_map(s0, idx as int, e@);
            }
            self.entries.insert(idx, e);
            proof {
                assert(self.entries_view() =~= s0.insert(idx as int, e@));
                lemma_insert_sorted(s0, idx as int, e@);
            }
        }
    }
}

/// Replacing the entry at a position whose key it keeps only rewrites
/// that key's image.
proof fn lemma_update_entries_map(s: Seq<EntryModel>, idx: int, e: EntryModel)
    requires
        entries_sorted(s),
        0 <= idx < s.len(),
        s[idx].rel_path == e.rel_path,
    ensures
        entries_map(s.update(idx, e)) == entries_map(s).insert(e.rel_path, e),
    decreases s.len(),
{
    let s2 = s.update(idx, e);
    if idx == s.len() - 1 {
        assert(s2.drop_last() =~= s.drop_last());
        assert(s2.last() == e);
        assert(entries_map(s2) =~= entries_map(s).insert(e.rel_path, e));
    } else {
        assert(s2.drop_last() =~= s.drop_last().update(idx, e));
        assert(s.drop_last()[idx] == s[idx]);
        assert(entries_sorted(s.drop_last())) by {
            assert(forall|i: int|
                0 <= i < s.len() - 1 ==> #[trigger] s.drop_last()[i] == s[i]);
        }
        lemma_update_entries_map(s.drop_last(), idx, e);
        assert(s2.last() == s.last());
        assert(lex_lt(s[idx].rel_path, s.last().rel_path));
        lemma_lex_trichotomy(e.rel_path, s.last().rel_path);
        assert(entries_map(s2) =~= entries_map(s).insert(e.rel_path, e));
    }
}

proof fn lemma_update_sorted(s: Seq<EntryModel>, idx: int, e: EntryModel)
    requires
        entries_sorted(s),
        0 <= idx < s.len(),
        s[idx].rel_path == e.rel_path,
    ensures
        entries_sorted(s.update(idx, e)),
{
    let s2 = s.update(idx, e);
    assert forall|i: int, j: int| 0 <= i < j < s2.len() implies lex_lt(
        #[trigger] s2[i].rel_path,
        #[trigger] s2[j].rel_path,
    ) by {
        assert(s2[i].rel_path == s[i].rel_path);
        assert(s2[j].rel_path == s[j].rel_path);
    }
}

/// Splicing an entry in where every earlier key is smaller and every
/// later key larger adds exactly one key to the mapping.
proof fn lemma_insert_entries_map(s: Seq<EntryModel>, idx: int, e: EntryModel)
    requires
        0 <= idx <= s.len(),
        forall|j: int| idx <= j < s.len() ==> lex_lt(e.rel_path, #[trigger] s[j].rel_path),
    ensures
        entries_map(s.insert(idx, e)) == entries_map(s).insert(e.rel_path, e),
    decreases s.len(),
{
    let s2 = s.insert(idx, e);
    if idx == s.len() {
        assert(s2.drop_last() =~= s);
        assert(s2.last() == e);
    } else {
        assert(s2.last() == s.last());
        assert(s2.drop_last() =~= s.drop_last().insert(idx, e));
        assert(forall|j: int|
            0 <= j < s.len() - 1 ==> #[trigger] s.drop_last()[j] == s[j]);
        lemma_insert_entries_map(s.drop_last(), idx, e);
        lemma_lex_trichotomy(e.rel_path, s.last().rel_path);
        assert(lex_lt(e.rel_path, s[s.len() - 1].rel_path));
        assert(entries_map(s2) =~= entries_map(s).insert(e.rel_path, e));
    }
}

proof fn lemma_insert_sorted(s: Seq<EntryModel>, idx: int, e: EntryModel)
    requires
        entries_sorted(s),
        0 <= idx <= s.len(),
        forall|j: int| 0 <= j < idx ==> lex_lt(#[trigger] s[j].rel_path, e.rel_path),
        forall|j: int| idx <= j < s.len() ==> lex_lt(e.rel_path, #[trigger] s[j].rel_path),
    ensures
        entries_sorted(s.insert(idx, e)),
{
    let s2 = s.insert(idx, e);
    assert forall|i: int, j: int| 0 <= i < j < s2.len() implies lex_lt(
        #[trigger] s2[i].rel_path,
        #[trigger] s2[j].rel_path,
    ) by {
        if i < idx {
            assert(s2[i] == s[i]);
        }
        if i > idx {
            assert(s2[i] == s[i - 1]);
        }
        if j < idx {
            assert(s2[j] == s[j]);
        }
        if j > idx {
            assert(s2[j] == s[j - 1]);
        }
        if i < idx && j > idx {
            lemma_lex_transitive(s[i].rel_path, e.rel_path, s[j - 1].rel_path);
        }
    }
}

} // verus!
