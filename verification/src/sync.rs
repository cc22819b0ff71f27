//! The sync engine's decisions: the overlap safety check on the
//! resolved source and target roots — run before any mutation — and
//! the file-level plan a diff turns into. Roots are handled as their
//! component lists, so "contains" is exactly "is a prefix of".

use crate::diff::{Change, ChangeModel};
use crate::strutil::str_eq;
use vstd::prelude::*;

verus! {

/// One root's components start the other's list.
pub open spec fn is_prefix_of(a: Seq<Seq<char>>, b: Seq<Seq<char>>) -> bool {
    a.len() <= b.len() && forall|i: int| 0 <= i < a.len() ==> a[i] == b[i]
}

/// The configurations the sync engine must refuse: the same root, or
/// one root inside the other.
pub open spec fn roots_conflict(src: Seq<Seq<char>>, tgt: Seq<Seq<char>>) -> bool {
    is_prefix_of(src, tgt) || is_prefix_of(tgt, src)
}

/// How the two resolved roots relate.
#[derive(PartialEq, Eq, Structural, Debug)]
pub enum RootRelation {
    /// Neither root reaches the other: syncing is safe.
    Disjoint,
    /// Target and source are the same directory.
    Same,
    /// One root lies inside the other.
    Nested,
}

pub open spec fn root_relation_spec(src: Seq<Seq<char>>, tgt: Seq<Seq<char>>) -> RootRelation {
    if src == tgt {
        RootRelation::Same
    } else if roots_conflict(src, tgt) {
        RootRelation::Nested
    } else {
        RootRelation::Disjoint
    }
}

fn components_prefix(a: &Vec<String>, b: &Vec<String>) -> (r: bool)
    ensures
        r == is_prefix_of(a.deep_view(), b.deep_view()),
{
    let n = a.len();
    if n > b.len() {
        proof {
            assert(a.deep_view().len() == a@.len());
            assert(b.deep_view().len() == b@.len());
        }
        return false;
    }
    let mut i: usize = 0;
    while i < n
        invariant
            i <= n == a@.len(),
            n <= b@.len(),
            a.deep_view().len() == n,
            b.deep_view().len() == b@.len(),
            forall|k: int| 0 <= k < i ==> a.deep_view()[k] == b.deep_view()[k],
        decreases n - i,
    {
        proof {
            assert(a.deep_view()[i as int] == a@[i as int]@);
            assert(b.deep_view()[i as int] == b@[i as int]@);
        }
        if !str_eq(a[i].as_str(), b[i].as_str()) {
            return false;
        }
        i = i + 1;
    }
    true
}

/// Classifies the resolved roots, each as its component list: the
/// same directory, one inside the other, or safely disjoint. Only a
/// disjoint pair may be synced.
pub fn check_roots(src: &Vec<String>, tgt: &Vec<String>) -> (r: RootRelation)
    ensures
        r == root_relation_spec(src.deep_view(), tgt.deep_view()),
{
    let st = components_prefix(src, tgt);
    let ts = components_prefix(tgt, src);
    if st && ts {
        proof {
            assert(src.deep_view() =~= tgt.deep_view());
        }
        RootRelation::Same
    } else if st || ts {
        RootRelation::Nested
    } else {
        RootRelation::Disjoint
    }
}

/// The safety law the check enforces: a sync is allowed exactly when
/// the roots are not equal and neither contains the other; an equal
/// or nested pair is never classified as disjoint.
pub proof fn lemma_sync_safety(src: Seq<Seq<char>>, tgt: Seq<Seq<char>>)
    ensures
        root_relation_spec(src, tgt) == RootRelation::Disjoint <==> !roots_conflict(src, tgt),
        src == tgt ==> root_relation_spec(src, tgt) == RootRelation::Same,
{
    if src == tgt {
        assert(is_prefix_of(src, tgt));
    }
    if root_relation_spec(src, tgt) == RootRelation::Disjoint {
    }
}

/// The filesystem effect one change asks of the target tree.
#[derive(Debug, PartialEq, Eq)]
pub enum SyncAction {
    /// Copy this path from source to target: content, permission
    /// bits, and timestamps, creating parent directories as needed.
    CopyFile(String),
    /// Remove this path in the target, if it exists there as a
    /// regular file.
    RemoveFile(String),
}

pub ghost enum SyncActionModel {
    CopyFile(Seq<char>),
    RemoveFile(Seq<char>),
}

impl View for SyncAction {
    type V = SyncActionModel;

    open spec fn view(&self) -> SyncActionModel {
        match self {
            SyncAction::CopyFile(p) => SyncActionModel::CopyFile(p@),
            SyncAction::RemoveFile(p) => SyncActionModel::RemoveFile(p@),
        }
    }
}

/// The effect each change variant asks for: added and updated paths
/// are copied, deleted paths are removed.
pub open spec fn action_for(c: ChangeModel) -> SyncActionModel {
    match c {
        ChangeModel::Added(p) => SyncActionModel::CopyFile(p),
        ChangeModel::Updated(p) => SyncActionModel::CopyFile(p),
        ChangeModel::Deleted(p) => SyncActionModel::RemoveFile(p),
    }
}

/// Turns a diff into its mirror plan, change for change, in diff
/// order.
pub fn plan_sync(changes: &Vec<Change>) -> (r: Vec<SyncAction>)
    ensures
        r@.len() == changes@.len(),
        forall|i: int| 0 <= i < r@.len() ==> (#[trigger] r@[i])@ == action_for(changes@[i]@),
{
    let n = changes.len();
    let mut r: Vec<SyncAction> = Vec::new();
    let mut i: usize = 0;
    while i < n
        invariant
            i <= n == changes@.len(),
            r@.len() == i,
            forall|k: int| 0 <= k < i ==> (#[trigger] r@[k])@ == action_for(changes@[k]@),
        decreases n - i,
    {
        let a = match &changes[i] {
            Change::Added(p) => SyncAction::CopyFile(p.clone()),
            Change::Updated(p) => SyncAction::CopyFile(p.clone()),
            Change::Deleted(p) => SyncAction::RemoveFile(p.clone()),
        };
        r.push(a);
        i = i + 1;
    }
    r
}

/// Whether a `RemoveFile` action touches the target at all: only an
/// existing regular file is removed; anything else at that path is
/// left untouched.
pub fn should_remove(present: bool, is_regular: bool) -> (r: bool)
    ensures
        r == (present && is_regular),
{
    present && is_regular
}

} // verus!
