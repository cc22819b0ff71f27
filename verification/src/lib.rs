//! Verified engine for content-hash directory indexing: an index of
//! file entries, a line-oriented snapshot format, a three-way diff
//! (added / updated / deleted), and the safety rules of mirroring a
//! diff into a target tree.

pub mod diff;
pub mod digits;
pub mod entry;
pub mod exclude;
pub mod hashing;
pub mod snapshot;
pub mod strutil;
pub mod sync;

use vstd::prelude::*;

verus! {

/// The determinism law of a rerun: hash an unchanged tree again —
/// every digest is a function of the file bytes alone, so each path
/// gets the same entry — and diff it against the snapshot the
/// previous run persisted: nothing is reported. The old index is
/// whatever the saved lines load back to; by the round-trip law that
/// is the same mapping, and a diff of equal mappings is empty.
pub proof fn lemma_rerun_reports_nothing(
    entries: Seq<entry::EntryModel>,
    cs: Seq<diff::ChangeModel>,
)
    requires
        entry::entries_sorted(entries),
        forall|i: int| 0 <= i < entries.len() ==> snapshot::persistable(#[trigger] entries[i]),
        diff::diff_correct(
            snapshot::snapshot_map(snapshot::render_snapshot_spec(entries)),
            entry::entries_map(entries),
            cs,
        ),
    ensures
        cs == Seq::<diff::ChangeModel>::empty(),
{
    entry::lemma_sorted_paths_unique(entries);
    snapshot::lemma_snapshot_round_trip(entries);
    diff::lemma_diff_self_is_empty(entry::entries_map(entries), cs);
}

} // verus!
