//! The diff engine: compares an old index to a new index and produces
//! the ordered change list — one `Added` per path only the new index
//! holds, one `Deleted` per path only the old index holds, one
//! `Updated` per shared path whose content hash differs, and nothing
//! else, sorted by variant rank (added, updated, deleted) and then by
//! path.

use crate::entry::{lemma_entries_map_at, lemma_entries_map_dom, EntryModel, Index};
use crate::strutil::{lemma_lex_transitive, lemma_lex_trichotomy, lex_lt, str_eq, str_lt};
use vstd::prelude::*;

verus! {

/// One classified change between two indices.
#[derive(Debug, PartialEq, Eq)]
pub enum Change {
    Added(String),
    Updated(String),
    Deleted(String),
}

/// The mathematical content of a `Change`.
pub ghost enum ChangeModel {
    Added(Seq<char>),
    Updated(Seq<char>),
    Deleted(Seq<char>),
}

impl View for Change {
    type V = ChangeModel;

    open spec fn view(&self) -> ChangeModel {
        match self {
            Change::Added(p) => ChangeModel::Added(p@),
            Change::Updated(p) => ChangeModel::Updated(p@),
            Change::Deleted(p) => ChangeModel::Deleted(p@),
        }
    }
}

/// The variant rank the ordering sorts by first.
pub open spec fn change_rank(c: ChangeModel) -> int {
    match c {
        ChangeModel::Added(_) => 0,
        ChangeModel::Updated(_) => 1,
        ChangeModel::Deleted(_) => 2,
    }
}

pub open spec fn change_path(c: ChangeModel) -> Seq<char> {
    match c {
        ChangeModel::Added(p) => p,
        ChangeModel::Updated(p) => p,
        ChangeModel::Deleted(p) => p,
    }
}

/// The diff order: variant rank first, then path.
pub open spec fn change_lt(a: ChangeModel, b: ChangeModel) -> bool {
    change_rank(a) < change_rank(b) || (change_rank(a) == change_rank(b) && lex_lt(
        change_path(a),
        change_path(b),
    ))
}

pub open spec fn changes_sorted(s: Seq<ChangeModel>) -> bool {
    forall|x: int, y: int| 0 <= x < y < s.len() ==> change_lt(#[trigger] s[x], #[trigger] s[y])
}

/// Present only in the new index.
pub open spec fn is_added(
    om: Map<Seq<char>, EntryModel>,
    nm: Map<Seq<char>, EntryModel>,
    p: Seq<char>,
) -> bool {
    nm.dom().contains(p) && !om.dom().contains(p)
}

/// Present in both, with different content hashes.
pub open spec fn is_updated(
    om: Map<Seq<char>, EntryModel>,
    nm: Map<Seq<char>, EntryModel>,
    p: Seq<char>,
) -> bool {
    nm.dom().contains(p) && om.dom().contains(p) && om[p].hash_hex != nm[p].hash_hex
}

/// Present only in the old index.
pub open spec fn is_deleted(
    om: Map<Seq<char>, EntryModel>,
    nm: Map<Seq<char>, EntryModel>,
    p: Seq<char>,
) -> bool {
    om.dom().contains(p) && !nm.dom().contains(p)
}

/// What the diff of two indices must look like: in order, without
/// repetition, every element a genuine change, and every genuine
/// change an element.
pub open spec fn diff_correct(
    om: Map<Seq<char>, EntryModel>,
    nm: Map<Seq<char>, EntryModel>,
    cs: Seq<ChangeModel>,
) -> bool {
    &&& changes_sorted(cs)
    &&& forall|x: int, y: int| 0 <= x < y < cs.len() ==> #[trigger] cs[x] != #[trigger] cs[y]
    &&& forall|x: int|
        0 <= x < cs.len() ==> match #[trigger] cs[x] {
            ChangeModel::Added(p) => is_added(om, nm, p),
            ChangeModel::Updated(p) => is_updated(om, nm, p),
            ChangeModel::Deleted(p) => is_deleted(om, nm, p),
        }
    &&& forall|p: Seq<char>| #[trigger] is_added(om, nm, p) ==> cs.contains(ChangeModel::Added(p))
    &&& forall|p: Seq<char>| #[trigger] is_updated(om, nm, p) ==> cs.contains(
        ChangeModel::Updated(p),
    )
    &&& forall|p: Seq<char>| #[trigger] is_deleted(om, nm, p) ==> cs.contains(
        ChangeModel::Deleted(p),
    )
}

/// Compares two indices.
#[verifier::rlimit(60)]
pub fn diff(old: &Index, new: &Index) -> (r: Vec<Change>)
    requires
        old.wf(),
        new.wf(),
    ensures
        diff_correct(old.as_map(), new.as_map(), r@.map_values(|c: Change| c@)),
{
    let ghost om = old.as_map();
    let ghost nm = new.as_map();
    let ghost ov = old.entries_view();
    let ghost nv = new.entries_view();

    let n = new.len();
    let m = old.len();
    let mut added: Vec<String> = Vec::new();
    let mut updated: Vec<String> = Vec::new();
    let mut deleted: Vec<String> = Vec::new();
    let mut i: usize = 0;
    let mut j: usize = 0;

    while i < n || j < m
        invariant
            old.wf(),
            new.wf(),
            om == old.as_map(),
            nm == new.as_map(),
            ov == old.entries_view(),
            nv == new.entries_view(),
            n == nv.len(),
            m == ov.len(),
            i <= n,
            j <= m,
            // every processed key on one side lies below every
            // unprocessed key on the other
            forall|k: int, l: int| 0 <= k < i && j <= l < m ==> lex_lt(
                (#[trigger] nv[k]).rel_path,
                (#[trigger] ov[l]).rel_path,
            ),
            forall|k: int, l: int| 0 <= k < j && i <= l < n ==> lex_lt(
                (#[trigger] ov[k]).rel_path,
                (#[trigger] nv[l]).rel_path,
            ),
            // each bucket is strictly sorted
            forall|x: int, y: int| 0 <= x < y < added@.len() ==> lex_lt(
                (#[trigger] added@[x])@,
                (#[trigger] added@[y])@,
            ),
            forall|x: int, y: int| 0 <= x < y < updated@.len() ==> lex_lt(
                (#[trigger] updated@[x])@,
                (#[trigger] updated@[y])@,
            ),
            forall|x: int, y: int| 0 <= x < y < deleted@.len() ==> lex_lt(
                (#[trigger] deleted@[x])@,
                (#[trigger] deleted@[y])@,
            ),
            // each bucket lies below what its side has not processed
            forall|x: int, l: int| 0 <= x < added@.len() && i <= l < n ==> lex_lt(
                (#[trigger] added@[x])@,
                (#[trigger] nv[l]).rel_path,
            ),
            forall|x: int, l: int| 0 <= x < updated@.len() && i <= l < n ==> lex_lt(
                (#[trigger] updated@[x])@,
                (#[trigger] nv[l]).rel_path,
            ),
            forall|x: int, l: int| 0 <= x < deleted@.len() && j <= l < m ==> lex_lt(
                (#[trigger] deleted@[x])@,
                (#[trigger] ov[l]).rel_path,
            ),
            // everything in a bucket is a genuine change of its kind
            forall|x: int| 0 <= x < added@.len() ==> is_added(om, nm, (#[trigger] added@[x])@),
            forall|x: int| 0 <= x < updated@.len() ==> is_updated(
                om,
                nm,
                (#[trigger] updated@[x])@,
            ),
            forall|x: int| 0 <= x < deleted@.len() ==> is_deleted(
                om,
                nm,
                (#[trigger] deleted@[x])@,
            ),
            // every processed genuine change is in its bucket
            forall|k: int| 0 <= k < i && is_added(om, nm, (#[trigger] nv[k]).rel_path)
                ==> exists|q: int| 0 <= q < added@.len() && (#[trigger] added@[q])@ == nv[
                k
            ].rel_path,
            forall|k: int| 0 <= k < i && is_updated(om, nm, (#[trigger] nv[k]).rel_path)
                ==> exists|q: int| 0 <= q < updated@.len() && (#[trigger] updated@[q])@ == nv[
                k
            ].rel_path,
            forall|k: int| 0 <= k < j && is_deleted(om, nm, (#[trigger] ov[k]).rel_path)
                ==> exists|q: int| 0 <= q < deleted@.len() && (#[trigger] deleted@[q])@ == ov[
                k
            ].rel_path,
        decreases (n - i) + (m - j),
    {
        if i < n && (j == m || str_lt(new.at(i).rel_path.as_str(), old.at(j).rel_path.as_str())) {
            // a key the old index does not reach: added
            let pn = new.at(i).rel_path.clone();
            proof {
                lemma_entries_map_at(nv, i as int);
                assert forall|k: int| 0 <= k < m implies ov[k].rel_path != pn@ by {
                    if k < j {
                        assert(lex_lt(ov[k].rel_path, nv[i as int].rel_path));
                        lemma_lex_trichotomy(ov[k].rel_path, nv[i as int].rel_path);
                    } else {
                        if k > j {
                            assert(lex_lt(ov[j as int].rel_path, ov[k].rel_path));
                            lemma_lex_transitive(
                                nv[i as int].rel_path,
                                ov[j as int].rel_path,
                                ov[k].rel_path,
                            );
                        }
                        lemma_lex_trichotomy(nv[i as int].rel_path, ov[k].rel_path);
                    }
                }
                lemma_entries_map_dom(ov, pn@);
                assert(is_added(om, nm, pn@));
            }
            proof {
                assert forall|l: int| j <= l < m implies lex_lt(
                    nv[i as int].rel_path,
                    (#[trigger] ov[l]).rel_path,
                ) by {
                    if l > j {
                        assert(lex_lt(ov[j as int].rel_path, ov[l].rel_path));
                        lemma_lex_transitive(
                            nv[i as int].rel_path,
                            ov[j as int].rel_path,
                            ov[l].rel_path,
                        );
                    }
                }
            }
            let ghost prev_a = added@;
            added.push(pn);
            i = i + 1;
            proof {
                assert forall|k: int| 0 <= k < i && is_added(
                    om,
                    nm,
                    (#[trigger] nv[k]).rel_path,
                ) implies exists|q: int| 0 <= q < added@.len() && (#[trigger] added@[q])@ == nv[
                    k
                ].rel_path by {
                    if k == i - 1 {
                        assert((added@[added@.len() - 1])@ == nv[k].rel_path);
                    } else {
                        let q = choose|q: int| 0 <= q < prev_a.len() && (#[trigger] prev_a[q])@
                            == nv[k].rel_path;
                        assert((added@[q])@ == nv[k].rel_path);
                    }
                }
            }
        } else if j < m && (i == n || str_lt(
            old.at(j).rel_path.as_str(),
            new.at(i).rel_path.as_str(),
        )) {
            // a key the new index no longer reaches: deleted
            let po = old.at(j).rel_path.clone();
            proof {
                lemma_entries_map_at(ov, j as int);
                assert forall|k: int| 0 <= k < n implies nv[k].rel_path != po@ by {
                    if k < i {
                        assert(lex_lt(nv[k].rel_path, ov[j as int].rel_path));
                        lemma_lex_trichotomy(nv[k].rel_path, ov[j as int].rel_path);
                    } else {
                        if k > i {
                            assert(lex_lt(nv[i as int].rel_path, nv[k].rel_path));
                            lemma_lex_transitive(
                                ov[j as int].rel_path,
                                nv[i as int].rel_path,
                                nv[k].rel_path,
                            );
                        }
                        lemma_lex_trichotomy(ov[j as int].rel_path, nv[k].rel_path);
                    }
                }
                lemma_entries_map_dom(nv, po@);
                assert(is_deleted(om, nm, po@));
            }
            proof {
                assert forall|l: int| i <= l < n implies lex_lt(
                    ov[j as int].rel_path,
                    (#[trigger] nv[l]).rel_path,
                ) by {
                    if l > i {
                        assert(lex_lt(nv[i as int].rel_path, nv[l].rel_path));
                        lemma_lex_transitive(
                            ov[j as int].rel_path,
                            nv[i as int].rel_path,
                            nv[l].rel_path,
                        );
                    }
                }
            }
            let ghost prev_d = deleted@;
            deleted.push(po);
            j = j + 1;
            proof {
                assert forall|k: int| 0 <= k < j && is_deleted(
                    om,
                    nm,
                    (#[trigger] ov[k]).rel_path,
                ) implies exists|q: int| 0 <= q < deleted@.len() && (#[trigger] deleted@[q])@
                    == ov[k].rel_path by {
                    if k == j - 1 {
                        assert((deleted@[deleted@.len() - 1])@ == ov[k].rel_path);
                    } else {
                        let q = choose|q: int| 0 <= q < prev_d.len() && (#[trigger] prev_d[q])@
                            == ov[k].rel_path;
                        assert((deleted@[q])@ == ov[k].rel_path);
                    }
                }
            }
        } else {
            // the same key on both sides: compare the content hashes
            proof {
                lemma_lex_trichotomy(nv[i as int].rel_path, ov[j as int].rel_path);
                assert(nv[i as int].rel_path == ov[j as int].rel_path);
                lemma_entries_map_at(nv, i as int);
                lemma_entries_map_at(ov, j as int);
            }
            let ghost prev_u = updated@;
            if !str_eq(new.at(i).hash_hex.as_str(), old.at(j).hash_hex.as_str()) {
                let pn = new.at(i).rel_path.clone();
                assert(is_updated(om, nm, pn@));
                updated.push(pn);
            } else {
                assert(!is_updated(om, nm, nv[i as int].rel_path));
            }
            proof {
                assert(!is_added(om, nm, nv[i as int].rel_path));
                assert(!is_deleted(om, nm, ov[j as int].rel_path));
            }
            i = i + 1;
            j = j + 1;
            proof {
                assert forall|k: int| 0 <= k < i && is_updated(
                    om,
                    nm,
                    (#[trigger] nv[k]).rel_path,
                ) implies exists|q: int| 0 <= q < updated@.len() && (#[trigger] updated@[q])@
                    == nv[k].rel_path by {
                    if k == i - 1 {
                        assert((updated@[updated@.len() - 1])@ == nv[k].rel_path);
                    } else {
                        let q = choose|q: int| 0 <= q < prev_u.len() && (#[trigger] prev_u[q])@
                            == nv[k].rel_path;
                        assert((updated@[q])@ == nv[k].rel_path);
                    }
                }
            }
        }
    }

    let mut r: Vec<Change> = Vec::new();
    let na = added.len();
    let nu = updated.len();
    let nd = deleted.len();
    let mut q: usize = 0;
    while q < na
        invariant
            q <= na == added@.len(),
            r@.len() == q,
            forall|x: int| 0 <= x < q ==> (#[trigger] r@[x])@ == ChangeModel::Added(
                added@[x]@,
            ),
        decreases na - q,
    {
        r.push(Change::Added(added[q].clone()));
        q = q + 1;
    }
    let mut q: usize = 0;
    while q < nu
        invariant
            q <= nu == updated@.len(),
            na == added@.len(),
            r@.len() == na + q,
            forall|x: int| 0 <= x < na ==> (#[trigger] r@[x])@ == ChangeModel::Added(
                added@[x]@,
            ),
            forall|x: int| na <= x < na + q ==> (#[trigger] r@[x])@ == ChangeModel::Updated(
                updated@[x - na]@,
            ),
        decreases nu - q,
    {
        r.push(Change::Updated(updated[q].clone()));
        q = q + 1;
    }
    let mut q: usize = 0;
    while q < nd
        invariant
            q <= nd == deleted@.len(),
            na == added@.len(),
            nu == updated@.len(),
            r@.len() == na + nu + q,
            forall|x: int| 0 <= x < na ==> (#[trigger] r@[x])@ == ChangeModel::Added(
                added@[x]@,
            ),
            forall|x: int| na <= x < na + nu ==> (#[trigger] r@[x])@ == ChangeModel::Updated(
                updated@[x - na]@,
            ),
            forall|x: int| na + nu <= x < na + nu + q ==> (#[trigger] r@[x])@
                == ChangeModel::Deleted(deleted@[x - na - nu]@),
        decreases nd - q,
    {
        r.push(Change::Deleted(deleted[q].clone()));
        q = q + 1;
    }

    proof {
        let cs = r@.map_values(|c: Change| c@);
        assert(cs.len() == na + nu + nd);
        assert forall|x: int| 0 <= x < cs.len() implies #[trigger] cs[x] == r@[x]@ by {}

        assert forall|x: int, y: int| 0 <= x < y < cs.len() implies change_lt(
            #[trigger] cs[x],
            #[trigger] cs[y],
        ) by {}

        assert forall|x: int, y: int| 0 <= x < y < cs.len() implies #[trigger] cs[x]
            != #[trigger] cs[y] by {
            assert(change_lt(cs[x], cs[y]));
            if cs[x] == cs[y] {
                lemma_lex_trichotomy(change_path(cs[x]), change_path(cs[y]));
            }
        }

        assert forall|p: Seq<char>| #[trigger] is_added(om, nm, p) implies cs.contains(
            ChangeModel::Added(p),
        ) by {
            lemma_entries_map_dom(nv, p);
            let k = choose|k: int| 0 <= k < nv.len() && (#[trigger] nv[k]).rel_path == p;
            let q = choose|q: int| 0 <= q < added@.len() && (#[trigger] added@[q])@ == p;
            assert(cs[q] == ChangeModel::Added(p));
        }
        assert forall|p: Seq<char>| #[trigger] is_updated(om, nm, p) implies cs.contains(
            ChangeModel::Updated(p),
        ) by {
            lemma_entries_map_dom(nv, p);
            let k = choose|k: int| 0 <= k < nv.len() && (#[trigger] nv[k]).rel_path == p;
            let q = choose|q: int| 0 <= q < updated@.len() && (#[trigger] updated@[q])@ == p;
            assert(cs[na + q] == ChangeModel::Updated(p));
        }
        assert forall|p: Seq<char>| #[trigger] is_deleted(om, nm, p) implies cs.contains(
            ChangeModel::Deleted(p),
        ) by {
            lemma_entries_map_dom(ov, p);
            let k = choose|k: int| 0 <= k < ov.len() && (#[trigger] ov[k]).rel_path == p;
            let q = choose|q: int| 0 <= q < deleted@.len() && (#[trigger] deleted@[q])@ == p;
            assert(cs[na + nu + q] == ChangeModel::Deleted(p));
        }
    }
    r
}

/// The reported line for one change.
pub open spec fn render_change_spec(c: ChangeModel) -> Seq<char> {
    match c {
        ChangeModel::Added(p) => seq!['A', ':', ' '] + p,
        ChangeModel::Updated(p) => seq!['U', ':', ' '] + p,
        ChangeModel::Deleted(p) => seq!['D', ':', ' '] + p,
    }
}

/// Renders the report lines, one per change, in diff order.
pub fn render_changes(changes: &Vec<Change>) -> (r: Vec<String>)
    ensures
        r@.len() == changes@.len(),
        forall|x: int| 0 <= x < r@.len() ==> (#[trigger] r@[x])@ == render_change_spec(
            changes@[x]@,
        ),
{
    let n = changes.len();
    let mut r: Vec<String> = Vec::new();
    let mut x: usize = 0;
    while x < n
        invariant
            x <= n == changes@.len(),
            r@.len() == x,
            forall|y: int| 0 <= y < x ==> (#[trigger] r@[y])@ == render_change_spec(
                changes@[y]@,
            ),
        decreases n - x,
    {
        proof {
            reveal_strlit("A: ");
            reveal_strlit("U: ");
            reveal_strlit("D: ");
        }
        let mut line: String;
        match &changes[x] {
            Change::Added(p) => {
                line = "A: ".to_owned();
                line.append(p.as_str());
            },
            Change::Updated(p) => {
                line = "U: ".to_owned();
                line.append(p.as_str());
            },
            Change::Deleted(p) => {
                line = "D: ".to_owned();
                line.append(p.as_str());
            },
        }
        proof {
            assert(line@ =~= render_change_spec(changes@[x as int]@));
        }
        r.push(line);
        x = x + 1;
    }
    r
}

/// When no path's content changed — same paths, same hashes, however
/// the other fields moved — the diff is empty.
pub proof fn lemma_diff_unchanged_is_empty(
    om: Map<Seq<char>, EntryModel>,
    nm: Map<Seq<char>, EntryModel>,
    cs: Seq<ChangeModel>,
)
    requires
        diff_correct(om, nm, cs),
        om.dom() == nm.dom(),
        forall|p: Seq<char>| nm.dom().contains(p) ==> om[p].hash_hex == (#[trigger] nm[p]).hash_hex,
    ensures
        cs == Seq::<ChangeModel>::empty(),
{
    if cs.len() > 0 {
        match cs[0] {
            ChangeModel::Added(p) => {
                assert(is_added(om, nm, p));
            },
            ChangeModel::Updated(p) => {
                assert(is_updated(om, nm, p));
            },
            ChangeModel::Deleted(p) => {
                assert(is_deleted(om, nm, p));
            },
        }
    }
    assert(cs =~= Seq::<ChangeModel>::empty());
}

/// Diffing an index against itself yields nothing.
pub proof fn lemma_diff_self_is_empty(m: Map<Seq<char>, EntryModel>, cs: Seq<ChangeModel>)
    requires
        diff_correct(m, m, cs),
    ensures
        cs == Seq::<ChangeModel>::empty(),
{
    lemma_diff_unchanged_is_empty(m, m, cs);
}

} // verus!
