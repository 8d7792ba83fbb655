//! The playlist model: the aggregate that owns the playlist tree, the
//! track registry, the bounded history of recently played tree paths, the
//! source filename and the dirty flag.

use vstd::prelude::*;
use vstd::string::*;
use std::collections::HashMap;
use std::collections::VecDeque;
use crate::tree::{
    can_demote, can_promote, collect_entries, clone_usizes, demote_at, demote_result,
    entries, entry_view, entry_views, find_first_labeled, find_first_list_labeled, first_labeled,
    first_list_labeled, kids_at, kids_of, kids_ref_at, label_of, lemma_first_labeled_bound,
    lemma_first_list_labeled_bound, lemma_loc_split, lemma_loc_to_ploc, lemma_resolve_valid,
    lemma_tid_count_nonneg, lemma_tid_count_push, lemma_tid_count_remove,
    lemma_tid_count_set_kids_at, lemma_tid_count_update, lemma_valid_loc_prefix,
    lemma_view_forest, lemma_view_forest_push, locv, node_at, node_at_ref, promote_at,
    promote_result, push_kid_at, remove_kid_at, resolve, resolve_loc, set_kids_at, swap_kids_at,
    swapped, tid_count, tid_count_node, valid_loc, valid_ploc, view_forest,
    view_node, Entry, ListNode, Node, NodeV, TrackNode,
};
use crate::chars::{chars_of, dec_chars, split_chars, split_on, str_eq, u64_to_string};
use crate::util::{canonical_label, record_seq, views_of};

verus! {

broadcast use vstd::std_specs::hash::group_hash_axioms;

/// A slash-joined chain of labels addressing a node of the tree.
pub type TreePath = String;

/// A track identifier: positive, assigned once, never reused in a
/// session.
pub type TrackID = i32;

/// The identifier that no track ever carries.
pub const INVALID_TID: i32 = -1;

/// The smallest history capacity a model accepts.
pub const MIN_HISTORY_SIZE: usize = 2;

/// The largest history capacity a model accepts.
pub const MAX_HISTORY_SIZE: usize = 35;

/// The sentinel a caller passes as parent to address the implicit root.
pub fn top_level_name() -> (s: &'static str)
    ensures
        s@ == "<Top-Level>"@,
{
    "<Top-Level>"
}

/// The reserved label of the top-level list that stages deleted nodes.
pub fn deleted_name() -> (s: &'static str)
    ensures
        s@ == "<Deleted>"@,
{
    "<Deleted>"
}

/// The rendering-hint bucket of a duration: the shortest tracks fall in
/// bucket zero, the rest into five-minute buckets, capped at ten.
pub open spec fn duration_bucket(millis: u64) -> int {
    if millis < 150000 {
        0
    } else if (millis + 150000) / 300000 > 10 {
        10
    } else {
        (millis + 150000) / 300000
    }
}

/// The icon bucket a track of the given duration is rendered with: zero
/// below two and a half minutes, else the duration rounded to the nearest
/// five minutes, capped at ten.  The caller keys its icons by the result.
pub fn icon_bucket(millis: u64) -> (b: usize)
    ensures
        b as int == duration_bucket(millis),
        b <= 10,
{
    if millis < 150000 {
        0
    } else if millis >= 2850000 {
        proof {
            assert((millis + 150000) / 300000 >= 10);
        }
        10
    } else {
        ((millis + 150000) / 300000) as usize
    }
}

/// One playable track: its file and the playback position to resume at,
/// in milliseconds.
#[derive(Debug)]
pub struct Track {
    pub filename: String,
    pub millis: u64,
}

impl Track {
    /// A track at the given position.
    pub fn new(filename: String, millis: u64) -> (t: Track)
        ensures
            t.filename == filename,
            t.millis == millis,
    {
        Track { filename, millis }
    }

    /// A copy of this track.
    pub fn duplicate(&self) -> (t: Track)
        ensures
            t == *self,
    {
        Track { filename: self.filename.clone(), millis: self.millis }
    }
}

/// What is currently selected for playback.
pub struct Current {
    pub treepath: TreePath,
    pub track: String,
    pub tid: TrackID,
}

impl Default for Current {
    fn default() -> (r: Self)
        ensures
            r.tid == INVALID_TID,
            r.treepath@.len() == 0,
            r.track@.len() == 0,
    {
        Current { treepath: String::new(), track: String::new(), tid: INVALID_TID }
    }
}

impl Current {
    /// Whether a track is selected: a valid identifier, a tree path and a
    /// file.  Whether the file still exists on disk is the caller's check.
    pub fn has_track(&self) -> (b: bool)
        ensures
            b == (self.tid != INVALID_TID && self.treepath@.len() > 0 && self.track@.len() > 0),
    {
        self.tid != INVALID_TID && !self.treepath.as_str().is_empty()
            && !self.track.as_str().is_empty()
    }
}

/// The track registry: track records by identifier, and the counter that
/// hands out fresh identifiers, starting at one.
pub struct Registry {
    map: HashMap<TrackID, Track>,
    next_tid: TrackID,
}

impl Registry {
    /// The registry contents.
    pub closed spec fn m(self) -> Map<TrackID, Track> {
        self.map@
    }

    /// The next identifier to hand out.
    pub closed spec fn next(self) -> int {
        self.next_tid as int
    }

    /// Identifiers are positive and below the counter.
    pub open spec fn wf(self) -> bool {
        &&& 1 <= self.next() <= i32::MAX as int
        &&& forall|t: TrackID| self.m().contains_key(t) ==> 1 <= t < self.next()
    }

    /// An empty registry whose counter starts at one.
    pub fn new() -> (r: Registry)
        ensures
            r.m() == Map::<TrackID, Track>::empty(),
            r.next() == 1,
            r.wf(),
    {
        Registry { map: HashMap::new(), next_tid: 1 }
    }

    /// Stores or overwrites the record for `id`.  The caller is in charge
    /// of using a fresh identifier; no uniqueness check happens here.
    pub fn insert(&mut self, id: TrackID, track: Track)
        ensures
            final(self).m() == old(self).m().insert(id, track),
            final(self).next() == old(self).next(),
    {
        self.map.insert(id, track);
    }

    /// The record for `id`, when there is one.
    pub fn get(&self, id: TrackID) -> (r: Option<&Track>)
        ensures
            match r {
                Some(track) => self.m().contains_key(id) && *track == self.m()[id],
                None => !self.m().contains_key(id),
            },
    {
        self.map.get(&id)
    }

    /// Whether `id` has a record.
    pub fn contains(&self, id: TrackID) -> (r: bool)
        ensures
            r == self.m().contains_key(id),
    {
        self.map.contains_key(&id)
    }

    /// How many records the registry holds.
    pub fn len(&self) -> (n: usize)
        ensures
            n == self.m().dom().len(),
    {
        self.map.len()
    }

    /// Hands out the current counter value and steps the counter.
    pub fn next_id(&mut self) -> (id: TrackID)
        requires
            old(self).next() < i32::MAX as int,
        ensures
            id as int == old(self).next(),
            final(self).next() == old(self).next() + 1,
            final(self).m() == old(self).m(),
    {
        let id = self.next_tid;
        self.next_tid = self.next_tid + 1;
        id
    }

    /// The counter value that the next track will get.
    pub fn peek_next(&self) -> (id: TrackID)
        ensures
            id as int == self.next(),
    {
        self.next_tid
    }

    /// Drops every record; the counter keeps its value, so identifiers
    /// are not reused within the session.
    pub fn clear(&mut self)
        ensures
            final(self).m() == Map::<TrackID, Track>::empty(),
            final(self).next() == old(self).next(),
    {
        self.map.clear();
    }
}

/// Each identifier occurs at most once among the tree's leaves.
pub open spec fn tids_unique(f: Seq<NodeV>) -> bool {
    forall|t: TrackID| #[trigger] tid_count(f, t) <= 1
}

/// Each identifier in the tree is positive and below the counter.
pub open spec fn tids_below(f: Seq<NodeV>, next: int) -> bool {
    forall|t: TrackID| #[trigger] tid_count(f, t) > 0 ==> 1 <= t < next
}

/// Each identifier in the tree has a record in the registry.
pub open spec fn tids_registered(f: Seq<NodeV>, m: Map<TrackID, Track>) -> bool {
    forall|t: TrackID| #[trigger] tid_count(f, t) > 0 ==> m.contains_key(t)
}

/// The history holds no entry twice.
pub open spec fn hist_nodup(h: Seq<Seq<char>>) -> bool {
    forall|i: int, j: int| 0 <= i < j < h.len() ==> h[i] != h[j]
}

/// The playlist model.
pub struct Model {
    filename: String,
    forest: Vec<Node>,
    tracks: Registry,
    history: VecDeque<TreePath>,
    history_max: usize,
    dirty: bool,
}

impl Model {
    /// The mathematical shape of the playlist tree.
    pub closed spec fn f(self) -> Seq<NodeV> {
        view_forest(self.forest@)
    }

    /// The track registry.
    pub closed spec fn treg(self) -> Registry {
        self.tracks
    }

    /// The file the document was last loaded from or saved to.
    pub closed spec fn fname(self) -> Seq<char> {
        self.filename@
    }

    /// The playlist tree, for traversals.
    pub fn forest_ref(&self) -> (r: &Vec<Node>)
        ensures
            view_forest(r@) == self.f(),
    {
        &self.forest
    }

    /// The track registry, for lookups.
    pub fn tracks_ref(&self) -> (r: &Registry)
        ensures
            *r == self.treg(),
    {
        &self.tracks
    }

    /// The file the document was last loaded from or saved to; empty when
    /// there is none.
    pub fn filename(&self) -> (r: &String)
        ensures
            r@ == self.fname(),
    {
        &self.filename
    }

    /// Remembers the file the caller is about to write to or has read
    /// from.
    pub fn set_filename(&mut self, filename: String)
        ensures
            final(self).fname() == filename@,
            final(self).f() == old(self).f(),
            final(self).treg() == old(self).treg(),
            final(self).hist() == old(self).hist(),
            final(self).hmax() == old(self).hmax(),
            final(self).dirty_bit() == old(self).dirty_bit(),
            old(self).wf() ==> final(self).wf(),
    {
        self.filename = filename;
    }

    /// The history entries, front first.
    pub closed spec fn hist(self) -> Seq<Seq<char>> {
        views_of(self.history@)
    }

    /// The configured history capacity.
    pub closed spec fn hmax(self) -> int {
        self.history_max as int
    }

    /// The dirty flag.
    pub closed spec fn dirty_bit(self) -> bool {
        self.dirty
    }

    /// The model's invariant: well-formed registry, identifiers unique,
    /// bounded by the counter and all registered, and a duplicate-free
    /// history within its configured capacity.
    pub open spec fn wf(self) -> bool {
        &&& self.treg().wf()
        &&& tids_unique(self.f())
        &&& tids_below(self.f(), self.treg().next())
        &&& tids_registered(self.f(), self.treg().m())
        &&& MIN_HISTORY_SIZE <= self.hmax() <= MAX_HISTORY_SIZE
        &&& self.hist().len() <= self.hmax()
        &&& hist_nodup(self.hist())
    }

    /// An empty model; the history capacity is clamped into its
    /// configured range.
    pub fn new(history_max: usize) -> (m: Model)
        ensures
            m.wf(),
            m.f() == Seq::<NodeV>::empty(),
            m.treg().m() == Map::<TrackID, Track>::empty(),
            m.treg().next() == 1,
            m.hist() == Seq::<Seq<char>>::empty(),
            m.hmax() == (if history_max < MIN_HISTORY_SIZE {
                MIN_HISTORY_SIZE as int
            } else if history_max > MAX_HISTORY_SIZE {
                MAX_HISTORY_SIZE as int
            } else {
                history_max as int
            }),
            !m.dirty_bit(),
            m.fname().len() == 0,
    {
        let hm: usize = if history_max < MIN_HISTORY_SIZE {
            MIN_HISTORY_SIZE
        } else if history_max > MAX_HISTORY_SIZE {
            MAX_HISTORY_SIZE
        } else {
            history_max
        };
        let m = Model {
            filename: String::new(),
            forest: Vec::new(),
            tracks: Registry::new(),
            history: VecDeque::new(),
            history_max: hm,
            dirty: false,
        };
        proof {
            assert(m.f() =~= Seq::<NodeV>::empty());
            assert(m.hist() =~= Seq::<Seq<char>>::empty());
            assert(forall|t: TrackID| tid_count(m.f(), t) == 0);
        }
        m
    }

    /// Empties the tree, the registry and the history and clears the
    /// dirty flag.  The identifier counter keeps its value: identifiers
    /// are never reused within a session.
    pub fn clear(&mut self)
        requires
            old(self).wf(),
        ensures
            final(self).wf(),
            final(self).f() == Seq::<NodeV>::empty(),
            final(self).treg().m() == Map::<TrackID, Track>::empty(),
            final(self).treg().next() == old(self).treg().next(),
            final(self).hist() == Seq::<Seq<char>>::empty(),
            final(self).hmax() == old(self).hmax(),
            !final(self).dirty_bit(),
            final(self).fname() == old(self).fname(),
    {
        self.dirty = false;
        self.tracks.clear();
        self.history.clear();
        self.forest.clear();
        proof {
            assert(self.f() =~= Seq::<NodeV>::empty());
            assert(self.hist() =~= Seq::<Seq<char>>::empty());
            assert(forall|t: TrackID| tid_count(self.f(), t) == 0);
        }
    }

    /// Records a played tree path at the front of the history and, when
    /// the track's stored position differs from `millis`, updates it.
    /// Reports whether anything changed; any change marks the model
    /// dirty.
    pub fn history_add_to(&mut self, treepath: TreePath, tid: TrackID, millis: u64) -> (changed:
        bool)
        requires
            old(self).wf(),
        ensures
            final(self).wf(),
            final(self).hist() == record_seq(old(self).hist(), treepath@, old(self).hmax()),
            final(self).hist().len() > 0 && final(self).hist()[0] == treepath@,
            final(self).hist().len() <= final(self).hmax(),
            final(self).treg().m() == (if old(self).treg().m().contains_key(tid) && old(
                self,
            ).treg().m()[tid].millis != millis {
                old(self).treg().m().insert(
                    tid,
                    Track { filename: old(self).treg().m()[tid].filename, millis },
                )
            } else {
                old(self).treg().m()
            }),
            changed == (!(old(self).hist().len() > 0 && old(self).hist()[0] == treepath@) || (old(
                self,
            ).treg().m().contains_key(tid) && old(self).treg().m()[tid].millis != millis)),
            final(self).dirty_bit() == (old(self).dirty_bit() || changed),
            final(self).f() == old(self).f(),
            final(self).treg().next() == old(self).treg().next(),
            final(self).hmax() == old(self).hmax(),
            final(self).fname() == old(self).fname(),
    {
        let ghost oldh = self.hist();
        let ghost tp = treepath@;
        let mut changed = crate::util::maybe_add_to_deque(
            &mut self.history,
            treepath,
            self.history_max,
        );
        proof {
            lemma_record_wf(oldh, tp, self.hmax());
        }
        let updated: bool = match self.tracks.get(tid) {
            Some(track) => track.millis != millis,
            None => false,
        };
        if updated {
            let filename = match self.tracks.get(tid) {
                Some(track) => track.filename.clone(),
                None => String::new(),
            };
            self.tracks.insert(tid, Track { filename, millis });
            changed = true;
        }
        if changed {
            self.dirty = true;
        }
        changed
    }

    /// Drops the history entry at `index`; out-of-range indices change
    /// nothing.  Marks the model dirty either way, as deleting is an
    /// explicit user action.
    pub fn history_delete_item(&mut self, index: usize)
        requires
            old(self).wf(),
        ensures
            final(self).wf(),
            final(self).hist() == (if index < old(self).hist().len() {
                old(self).hist().remove(index as int)
            } else {
                old(self).hist()
            }),
            final(self).dirty_bit(),
            final(self).f() == old(self).f(),
            final(self).treg() == old(self).treg(),
            final(self).hmax() == old(self).hmax(),
            final(self).fname() == old(self).fname(),
    {
        let ghost oldh = self.hist();
        let r = self.history.remove(index);
        self.dirty = true;
        proof {
            if index < oldh.len() {
                assert(self.hist() =~= oldh.remove(index as int));
                assert forall|i: int, j: int|
                    0 <= i < j < self.hist().len() implies self.hist()[i] != self.hist()[j] by {
                    if i < index {
                        assert(self.hist()[i] == oldh[i]);
                    } else {
                        assert(self.hist()[i] == oldh[i + 1]);
                    }
                    if j < index {
                        assert(self.hist()[j] == oldh[j]);
                    } else {
                        assert(self.hist()[j] == oldh[j + 1]);
                    }
                }
            } else {
                assert(self.hist() =~= oldh);
            }
        }
    }

    /// Shrinks the history to its single most recent entry and marks the
    /// model dirty.
    pub fn history_shrink(&mut self)
        requires
            old(self).wf(),
        ensures
            final(self).wf(),
            final(self).hist() == (if old(self).hist().len() <= 1 {
                old(self).hist()
            } else {
                old(self).hist().take(1)
            }),
            final(self).dirty_bit(),
            final(self).f() == old(self).f(),
            final(self).treg() == old(self).treg(),
            final(self).hmax() == old(self).hmax(),
            final(self).fname() == old(self).fname(),
    {
        let ghost oldh = self.hist();
        self.history.truncate(1);
        self.dirty = true;
        proof {
            if oldh.len() > 1 {
                assert(self.hist() =~= oldh.take(1));
            } else {
                assert(self.hist() =~= oldh);
            }
        }
    }

    /// The history entries, front first.
    pub fn history_iter(&self) -> (r: Vec<TreePath>)
        ensures
            views_of(r@) == self.hist(),
    {
        let mut r: Vec<TreePath> = Vec::new();
        let n: usize = self.history.len();
        let mut i: usize = 0;
        while i < n
            invariant
                n == self.history@.len(),
                i <= n,
                views_of(r@).len() == i,
                forall|j: int| 0 <= j < i ==> views_of(r@)[j] == self.hist()[j],
            decreases n - i,
        {
            let s = &self.history[i];
            r.push(s.clone());
            i = i + 1;
        }
        proof {
            assert(views_of(r@) =~= self.hist());
        }
        r
    }

    /// The most recent history entry.
    pub fn history_front(&self) -> (r: Option<&TreePath>)
        ensures
            match r {
                Some(p) => self.hist().len() > 0 && p@ == self.hist()[0],
                None => self.hist().len() == 0,
            },
    {
        if self.history.len() == 0 {
            None
        } else {
            Some(&self.history[0])
        }
    }

    /// Whether the model has unsaved changes.
    pub fn is_dirty(&self) -> (r: bool)
        ensures
            r == self.dirty_bit(),
    {
        self.dirty
    }

    /// Marks the model as having unsaved changes.
    pub fn set_dirty(&mut self)
        ensures
            final(self).dirty_bit(),
            final(self).f() == old(self).f(),
            final(self).treg() == old(self).treg(),
            final(self).hist() == old(self).hist(),
            final(self).hmax() == old(self).hmax(),
            final(self).fname() == old(self).fname(),
            old(self).wf() ==> final(self).wf(),
    {
        self.dirty = true;
    }

    /// Marks the model as saved; the caller does so after writing the
    /// document out successfully.
    pub fn mark_saved(&mut self)
        ensures
            !final(self).dirty_bit(),
            final(self).f() == old(self).f(),
            final(self).treg() == old(self).treg(),
            final(self).hist() == old(self).hist(),
            final(self).hmax() == old(self).hmax(),
            final(self).fname() == old(self).fname(),
            old(self).wf() ==> final(self).wf(),
    {
        self.dirty = false;
    }

    /// The configured history capacity.
    pub fn history_capacity(&self) -> (r: usize)
        ensures
            r as int == self.hmax(),
    {
        self.history_max
    }
}

/// The registry, history, capacity and filename of two model states agree.
pub open spec fn same_aux(a: Model, b: Model) -> bool {
    &&& a.treg() == b.treg()
    &&& a.hist() == b.hist()
    &&& a.hmax() == b.hmax()
    &&& a.fname() == b.fname()
}

/// Two model states agree entirely.
pub open spec fn same_state(a: Model, b: Model) -> bool {
    &&& same_aux(a, b)
    &&& a.f() == b.f()
    &&& a.dirty_bit() == b.dirty_bit()
}

/// The kid sequence a parent path addresses: the root forest for the
/// top-level sentinel, else the kids of the list the path resolves to.
pub open spec fn parent_ploc(f: Seq<NodeV>, parent: Seq<char>) -> Option<Seq<int>> {
    if parent == "<Top-Level>"@ {
        Some(Seq::<int>::empty())
    } else {
        match resolve(f, split_on(parent, '/')) {
            Some(l) => if node_at(f, l) is List {
                Some(l)
            } else {
                None
            },
            None => None,
        }
    }
}

/// Whether some kid of the sequence carries the label.
pub open spec fn child_labeled(kids: Seq<NodeV>, lab: Seq<char>) -> bool {
    first_labeled(kids, lab) < kids.len()
}

/// Whether the node at `l` sits under — or is — the reserved top-level
/// staging list for deleted nodes.
pub open spec fn in_deleted(f: Seq<NodeV>, l: Seq<int>) -> bool {
    valid_loc(f, l) && label_of(f[l[0]]) == "<Deleted>"@
}

/// The forest after staging the node at `l` for deletion: the node moves
/// to the end of the first top-level list labeled with the reserved name,
/// which is created last when missing.
pub open spec fn moved_to_deleted(f: Seq<NodeV>, l: Seq<int>) -> Seq<NodeV> {
    let node = node_at(f, l);
    let f2 = set_kids_at(f, l.drop_last(), kids_at(f, l.drop_last()).remove(l.last()));
    let si = first_list_labeled(f2, "<Deleted>"@);
    let f3 = if si < f2.len() {
        f2
    } else {
        f2.push(NodeV::List { label: "<Deleted>"@, kids: Seq::empty() })
    };
    f3.update(si, NodeV::List { label: label_of(f3[si]), kids: kids_of(f3[si]).push(node) })
}

/// Bounded tree identifiers stay well formed when no count grows.
pub proof fn lemma_tids_wf_mono(
    f1: Seq<NodeV>,
    f2: Seq<NodeV>,
    next: int,
    m: Map<TrackID, Track>,
)
    requires
        tids_unique(f1),
        tids_below(f1, next),
        tids_registered(f1, m),
        forall|t: TrackID| #[trigger] tid_count(f2, t) <= tid_count(f1, t),
    ensures
        tids_unique(f2),
        tids_below(f2, next),
        tids_registered(f2, m),
{
    assert forall|t: TrackID| #[trigger] tid_count(f2, t) <= 1 by {
        assert(tid_count(f2, t) <= tid_count(f1, t));
        assert(tid_count(f1, t) <= 1);
    }
    assert forall|t: TrackID| #[trigger] tid_count(f2, t) > 0 implies 1 <= t < next
        && m.contains_key(t) by {
        assert(tid_count(f2, t) <= tid_count(f1, t));
        assert(tid_count(f1, t) > 0);
    }
}

impl Model {
    /// The kid sequence the parent path addresses, as an executable
    /// location.
    fn find_parent(&self, parent: &str) -> (r: Option<Vec<usize>>)
        ensures
            match r {
                Some(p) => parent_ploc(self.f(), parent@) == Some(locv(p@)) && valid_ploc(
                    self.f(),
                    locv(p@),
                ),
                None => parent_ploc(self.f(), parent@) is None,
            },
    {
        if str_eq(parent, top_level_name()) {
            let p: Vec<usize> = Vec::new();
            proof {
                assert(locv(p@) =~= Seq::<int>::empty());
            }
            Some(p)
        } else {
            let pv = chars_of(parent);
            let segs = split_chars(&pv, '/');
            proof {
                assert(crate::chars::seq_views(segs@).len() == split_on(parent@, '/').len());
                assert(split_on(parent@, '/').len() >= 1);
            }
            let mut out: Vec<usize> = Vec::new();
            let ghost segsv = crate::chars::seq_views(segs@);
            proof {
                assert(segsv.skip(0) =~= segsv);
                assert(segsv == split_on(parent@, '/'));
            }
            let ok = resolve_loc(&self.forest, &segs, 0, &mut out);
            if !ok {
                return None;
            }
            proof {
                lemma_resolve_valid(self.f(), segsv);
                assert(locv(out@) =~= Seq::<int>::empty() + resolve(self.f(), segsv)->Some_0);
                assert(locv(out@) == resolve(self.f(), segsv)->Some_0);
                assert(out@.len() == locv(out@).len());
            }
            match node_at_ref(&self.forest, &out, 0) {
                Some(n) => {
                    proof {
                        assert(locv(out@.skip(0)) =~= locv(out@));
                    }
                    if n.is_list() {
                        proof {
                            lemma_loc_to_ploc(self.f(), locv(out@));
                        }
                        Some(out)
                    } else {
                        None
                    }
                },
                None => {
                    proof {
                        assert(locv(out@.skip(0)) =~= locv(out@));
                        assert(false);
                    }
                    None
                },
            }
        }
    }

    /// Creates an empty list as the last child of the named parent — the
    /// top-level sentinel addresses the root — and returns its tree path
    /// and location.  Rejected when the parent cannot be found, is a
    /// track, or already has a child with that label; a rejected call
    /// leaves the model unchanged.
    pub fn add_empty_list(&mut self, parent: &str, name: &str) -> (r: Option<(TreePath, Vec<usize>)>)
        requires
            old(self).wf(),
        ensures
            final(self).wf(),
            final(self).treg() == old(self).treg(),
            final(self).hist() == old(self).hist(),
            final(self).hmax() == old(self).hmax(),
            final(self).fname() == old(self).fname(),
            match r {
                Some(made) => ({
                    let pl = parent_ploc(old(self).f(), parent@)->Some_0;
                    let sub = kids_at(old(self).f(), pl);
                    &&& parent_ploc(old(self).f(), parent@) is Some
                    &&& !child_labeled(sub, name@)
                    &&& final(self).f() == set_kids_at(
                        old(self).f(),
                        pl,
                        sub.push(NodeV::List { label: name@, kids: Seq::empty() }),
                    )
                    &&& locv(made.1@) == pl.push(sub.len() as int)
                    &&& made.0@ == (if parent@ == "<Top-Level>"@ {
                        name@
                    } else {
                        parent@ + seq!['/'] + name@
                    })
                    &&& final(self).dirty_bit()
                }),
                None => ({
                    &&& final(self).f() == old(self).f()
                    &&& final(self).dirty_bit() == old(self).dirty_bit()
                    &&& (parent_ploc(old(self).f(), parent@) is None || child_labeled(
                        kids_at(old(self).f(), parent_ploc(old(self).f(), parent@)->Some_0),
                        name@,
                    ))
                }),
            },
    {
        let ghost f1 = self.f();
        let pl_opt = self.find_parent(parent);
        match pl_opt {
            None => None,
            Some(pl) => {
                let ghost plv = locv(pl@);
                proof {
                    assert(pl@.skip(0) =~= pl@);
                }
                let sub_len: usize;
                {
                    let ks = match kids_ref_at(&self.forest, &pl, 0) {
                        Some(ks) => ks,
                        None => {
                            proof {
                                assert(false);
                            }
                            return None;
                        },
                    };
                    let namechars = chars_of(name);
                    let idx = find_first_labeled(ks, &namechars);
                    proof {
                        lemma_first_labeled_bound(view_forest(ks@), name@);
                        lemma_view_forest(ks@);
                    }
                    if idx < ks.len() {
                        return None;
                    }
                    sub_len = ks.len();
                    proof {
                        assert(sub_len == kids_at(f1, plv).len());
                    }
                }
                let node = Node::List(ListNode { label: String::from_str(name), kids: Vec::new() });
                proof {
                    assert(view_forest(Seq::<Node>::empty()) =~= Seq::<NodeV>::empty());
                    assert(view_node(node) == NodeV::List { label: name@, kids: Seq::empty() });
                }
                push_kid_at(&mut self.forest, &pl, 0, node);
                let mut loc = clone_usizes(&pl);
                loc.push(sub_len);
                let path: TreePath = if str_eq(parent, top_level_name()) {
                    String::from_str(name)
                } else {
                    let mut p = String::from_str(parent);
                    p.append("/");
                    p.append(name);
                    p
                };
                self.dirty = true;
                proof {
                    reveal_strlit("/");
                    assert("/"@ =~= seq!['/']);
                    let sub = kids_at(f1, plv);
                    let sub2 = sub.push(NodeV::List { label: name@, kids: Seq::empty() });
                    assert(locv(loc@) =~= plv.push(sub.len() as int));
                    assert forall|t: TrackID| #[trigger] tid_count(self.f(), t) <= tid_count(
                        f1,
                        t,
                    ) by {
                        lemma_tid_count_set_kids_at(f1, plv, sub2, t);
                        lemma_tid_count_push(
                            sub,
                            NodeV::List { label: name@, kids: Seq::empty() },
                            t,
                        );
                    }
                    lemma_tids_wf_mono(f1, self.f(), self.treg().next(), self.treg().m());
                }
                Some((path, loc))
            },
        }
    }

    /// Registers the track under a fresh identifier and hangs a leaf for
    /// it under the list `parent` addresses, labeling it with the
    /// canonical form of its filename; a label already taken by a sibling
    /// gets the identifier appended to stay unique.  Rejected when
    /// `parent` cannot be found or is a track; a rejected call leaves the
    /// model unchanged.
    pub fn add_track(&mut self, parent: &TreePath, track: Track) -> (r: Option<(TreePath, Vec<
        usize,
    >)>)
        requires
            old(self).wf(),
            old(self).treg().next() < i32::MAX as int,
        ensures
            final(self).wf(),
            final(self).hist() == old(self).hist(),
            final(self).hmax() == old(self).hmax(),
            final(self).fname() == old(self).fname(),
            match r {
                Some(made) => ({
                    let pl = resolve(old(self).f(), split_on(parent@, '/'))->Some_0;
                    let sub = kids_at(old(self).f(), pl);
                    let id = old(self).treg().next() as TrackID;
                    let base = canonical_label(track.filename@);
                    let lab = if child_labeled(sub, base) {
                        base + " ("@ + dec_chars(id as nat) + ")"@
                    } else {
                        base
                    };
                    &&& resolve(old(self).f(), split_on(parent@, '/')) is Some
                    &&& node_at(old(self).f(), pl) is List
                    &&& final(self).f() == set_kids_at(
                        old(self).f(),
                        pl,
                        sub.push(NodeV::Track { label: lab, tid: id }),
                    )
                    &&& final(self).treg().m() == old(self).treg().m().insert(id, track)
                    &&& final(self).treg().next() == old(self).treg().next() + 1
                    &&& locv(made.1@) == pl.push(sub.len() as int)
                    &&& made.0@ == parent@ + seq!['/'] + lab
                    &&& final(self).dirty_bit()
                }),
                None => ({
                    &&& final(self).f() == old(self).f()
                    &&& final(self).treg() == old(self).treg()
                    &&& final(self).dirty_bit() == old(self).dirty_bit()
                    &&& (resolve(old(self).f(), split_on(parent@, '/')) is None || !(node_at(
                        old(self).f(),
                        resolve(old(self).f(), split_on(parent@, '/'))->Some_0,
                    ) is List))
                }),
            },
    {
        let ghost f1 = self.f();
        let pv = chars_of(parent.as_str());
        let segs = split_chars(&pv, '/');
        let ghost segsv = crate::chars::seq_views(segs@);
        proof {
            assert(segsv.len() == split_on(parent@, '/').len());
            assert(split_on(parent@, '/').len() >= 1);
            assert(segsv.skip(0) =~= segsv);
            assert(segsv == split_on(parent@, '/'));
        }
        let mut ploc: Vec<usize> = Vec::new();
        let ok = resolve_loc(&self.forest, &segs, 0, &mut ploc);
        if !ok {
            return None;
        }
        proof {
            lemma_resolve_valid(f1, segsv);
            assert(locv(ploc@) =~= Seq::<int>::empty() + resolve(f1, segsv)->Some_0);
            assert(locv(ploc@) == resolve(f1, segsv)->Some_0);
            assert(ploc@.len() == locv(ploc@).len());
        }
        let is_list: bool = match node_at_ref(&self.forest, &ploc, 0) {
            Some(n) => {
                proof {
                    assert(locv(ploc@.skip(0)) =~= locv(ploc@));
                }
                n.is_list()
            },
            None => {
                proof {
                    assert(locv(ploc@.skip(0)) =~= locv(ploc@));
                    assert(false);
                }
                false
            },
        };
        if !is_list {
            return None;
        }
        proof {
            lemma_loc_to_ploc(f1, locv(ploc@));
            assert(ploc@.skip(0) =~= ploc@);
        }
        let ghost plv = locv(ploc@);
        let base = crate::util::canonicalize(track.filename.as_str());
        let id = self.tracks.next_id();
        let collision: bool;
        let sub_len: usize;
        {
            let ks = match kids_ref_at(&self.forest, &ploc, 0) {
                Some(ks) => ks,
                None => {
                    proof {
                        assert(false);
                    }
                    return None;
                },
            };
            let basechars = chars_of(base.as_str());
            let idx = find_first_labeled(ks, &basechars);
            proof {
                lemma_first_labeled_bound(view_forest(ks@), base@);
                lemma_view_forest(ks@);
            }
            collision = idx < ks.len();
            sub_len = ks.len();
            proof {
                assert(sub_len == kids_at(f1, plv).len());
            }
        }
        let label: String = if collision {
            let mut l = base;
            l.append(" (");
            let ds = u64_to_string(id as u64);
            l.append(ds.as_str());
            l.append(")");
            l
        } else {
            base
        };
        let ghost labv = label@;
        proof {
            reveal_strlit("/");
            assert("/"@ =~= seq!['/']);
        }
        let node = Node::Track(TrackNode { label: label.clone(), tid: id });
        proof {
            assert(view_node(node) == NodeV::Track { label: labv, tid: id });
        }
        push_kid_at(&mut self.forest, &ploc, 0, node);
        let mut loc = clone_usizes(&ploc);
        loc.push(sub_len);
        let mut path = parent.clone();
        path.append("/");
        path.append(label.as_str());
        proof {
            assert(locv(loc@) =~= plv.push(kids_at(f1, plv).len() as int));
        }
        self.tracks.insert(id, track);
        self.dirty = true;
        let ghost sub = kids_at(f1, plv);
        let ghost newnode = NodeV::Track { label: labv, tid: id };
        proof {
            // The fresh identifier occurs nowhere in the old tree.
            assert forall|t: TrackID| #[trigger] tid_count(self.f(), t) <= tid_count(f1, t) + (
            if t == id {
                1int
            } else {
                0int
            }) by {
                lemma_tid_count_set_kids_at(f1, plv, sub.push(newnode), t);
                lemma_tid_count_push(sub, newnode, t);
            }
            assert forall|t: TrackID| #[trigger] tid_count(self.f(), t) <= 1 by {
                lemma_tid_count_set_kids_at(f1, plv, sub.push(newnode), t);
                lemma_tid_count_push(sub, newnode, t);
                if t == id {
                    lemma_tid_count_nonneg(self.f(), t);
                    assert(tid_count(f1, id) <= 0) by {
                        if tid_count(f1, id) > 0 {
                            assert(id < id);
                        }
                    }
                }
            }
            assert forall|t: TrackID| #[trigger] tid_count(self.f(), t) > 0 implies 1 <= t
                < self.treg().next() && self.treg().m().contains_key(t) by {
                lemma_tid_count_set_kids_at(f1, plv, sub.push(newnode), t);
                lemma_tid_count_push(sub, newnode, t);
                if t != id {
                    assert(tid_count(f1, t) > 0);
                }
            }
        }
        Some((path, loc))
    }

    /// The document-order rows of the whole tree.
    pub fn all_entries(&self) -> (r: Vec<Entry>)
        ensures
            entry_views(r@) == entries(self.f()),
    {
        let mut out: Vec<Entry> = Vec::new();
        let prefix = String::new();
        let base: Vec<usize> = Vec::new();
        collect_entries(&self.forest, &prefix, &base, &mut out);
        proof {
            assert(locv(base@) =~= Seq::<int>::empty());
            assert(entry_views(out@) =~= entries(self.f()));
        }
        out
    }

    /// Exchanges the node at `loc` with its previous sibling.  Rejected —
    /// leaving the tree unchanged — when the location is invalid or the
    /// node is its parent's first kid.
    pub fn move_up(&mut self, loc: &Vec<usize>) -> (ok: bool)
        requires
            old(self).wf(),
        ensures
            final(self).wf(),
            same_aux(*old(self), *final(self)),
            ok == (valid_loc(old(self).f(), locv(loc@)) && locv(loc@).last() >= 1),
            ok ==> final(self).f() == set_kids_at(
                old(self).f(),
                locv(loc@).drop_last(),
                swapped(
                    kids_at(old(self).f(), locv(loc@).drop_last()),
                    locv(loc@).last(),
                ),
            ) && final(self).dirty_bit(),
            !ok ==> final(self).f() == old(self).f()
                && final(self).dirty_bit() == old(self).dirty_bit(),
    {
        let ghost f1 = self.f();
        if loc.len() == 0 {
            proof {
                assert(locv(loc@).len() == 0);
            }
            return false;
        }
        proof {
            assert(loc@.skip(0) =~= loc@);
        }
        let valid: bool = match node_at_ref(&self.forest, loc, 0) {
            Some(_) => true,
            None => false,
        };
        let i = loc[loc.len() - 1];
        proof {
            assert(locv(loc@).last() == i);
        }
        if !valid || i == 0 {
            return false;
        }
        proof {
            lemma_loc_split(f1, locv(loc@));
        }
        let mut ploc = clone_usizes(loc);
        let popped = ploc.pop();
        proof {
            assert(locv(ploc@) =~= locv(loc@).drop_last());
            assert(ploc@.skip(0) =~= ploc@);
        }
        swap_kids_at(&mut self.forest, &ploc, 0, i);
        self.dirty = true;
        proof {
            let plv = locv(loc@).drop_last();
            let sub = kids_at(f1, plv);
            let sub2 = swapped(sub, i as int);
            assert forall|t: TrackID| #[trigger] tid_count(self.f(), t) <= tid_count(f1, t) by {
                lemma_tid_count_set_kids_at(f1, plv, sub2, t);
                lemma_tid_count_update(sub, i - 1, sub[i as int], t);
                lemma_tid_count_update(
                    sub.update(i - 1, sub[i as int]),
                    i as int,
                    sub[i - 1],
                    t,
                );
                assert(sub.update(i - 1, sub[i as int])[i as int] == sub[i as int]);
            }
            lemma_tids_wf_mono(f1, self.f(), self.treg().next(), self.treg().m());
        }
        true
    }

    /// Exchanges the node at `loc` with its next sibling.  Rejected —
    /// leaving the tree unchanged — when the location is invalid or the
    /// node is its parent's last kid.
    pub fn move_down(&mut self, loc: &Vec<usize>) -> (ok: bool)
        requires
            old(self).wf(),
        ensures
            final(self).wf(),
            same_aux(*old(self), *final(self)),
            ok == (valid_loc(old(self).f(), locv(loc@)) && locv(loc@).last() + 1 < kids_at(
                old(self).f(),
                locv(loc@).drop_last(),
            ).len()),
            ok ==> final(self).f() == set_kids_at(
                old(self).f(),
                locv(loc@).drop_last(),
                swapped(
                    kids_at(old(self).f(), locv(loc@).drop_last()),
                    locv(loc@).last() + 1,
                ),
            ) && final(self).dirty_bit(),
            !ok ==> final(self).f() == old(self).f()
                && final(self).dirty_bit() == old(self).dirty_bit(),
    {
        let ghost f1 = self.f();
        if loc.len() == 0 {
            proof {
                assert(locv(loc@).len() == 0);
            }
            return false;
        }
        proof {
            assert(loc@.skip(0) =~= loc@);
        }
        let valid: bool = match node_at_ref(&self.forest, loc, 0) {
            Some(_) => true,
            None => false,
        };
        if !valid {
            return false;
        }
        proof {
            lemma_loc_split(f1, locv(loc@));
        }
        let i = loc[loc.len() - 1];
        proof {
            assert(locv(loc@).last() == i);
        }
        let mut ploc = clone_usizes(loc);
        let popped = ploc.pop();
        proof {
            assert(locv(ploc@) =~= locv(loc@).drop_last());
            assert(ploc@.skip(0) =~= ploc@);
        }
        let sub_len: usize;
        {
            let ks = match kids_ref_at(&self.forest, &ploc, 0) {
                Some(ks) => ks,
                None => {
                    proof {
                        assert(false);
                    }
                    return false;
                },
            };
            proof {
                lemma_view_forest(ks@);
            }
            sub_len = ks.len();
        }
        if i + 1 >= sub_len {
            return false;
        }
        swap_kids_at(&mut self.forest, &ploc, 0, i + 1);
        self.dirty = true;
        proof {
            let plv = locv(loc@).drop_last();
            let sub = kids_at(f1, plv);
            let j: int = i + 1;
            let sub2 = swapped(sub, j);
            assert forall|t: TrackID| #[trigger] tid_count(self.f(), t) <= tid_count(f1, t) by {
                lemma_tid_count_set_kids_at(f1, plv, sub2, t);
                lemma_tid_count_update(sub, j - 1, sub[j], t);
                lemma_tid_count_update(sub.update(j - 1, sub[j]), j, sub[j - 1], t);
                assert(sub.update(j - 1, sub[j])[j] == sub[j]);
            }
            lemma_tids_wf_mono(f1, self.f(), self.treg().next(), self.treg().m());
        }
        true
    }

    /// Moves the node at `loc` out of its parent to become the last kid
    /// of its grandparent.  Rejected — leaving the tree unchanged — when
    /// the node sits at the top level, since there is no grandparent.
    pub fn promote(&mut self, loc: &Vec<usize>) -> (ok: bool)
        requires
            old(self).wf(),
        ensures
            final(self).wf(),
            same_aux(*old(self), *final(self)),
            ok == can_promote(old(self).f(), locv(loc@)),
            ok ==> final(self).f() == promote_result(old(self).f(), locv(loc@))
                && final(self).dirty_bit(),
            !ok ==> final(self).f() == old(self).f()
                && final(self).dirty_bit() == old(self).dirty_bit(),
    {
        let ghost f1 = self.f();
        let ghost lv = locv(loc@);
        if loc.len() < 2 {
            proof {
                assert(lv.len() == loc@.len());
            }
            return false;
        }
        proof {
            assert(loc@.skip(0) =~= loc@);
        }
        let valid: bool = match node_at_ref(&self.forest, loc, 0) {
            Some(_) => true,
            None => false,
        };
        if !valid {
            return false;
        }
        promote_at(&mut self.forest, loc, 0);
        self.dirty = true;
        proof {
            let gploc = lv.subrange(0, lv.len() - 2);
            let pj = lv[lv.len() - 2];
            let ci = lv[lv.len() - 1];
            lemma_valid_loc_prefix(f1, lv);
            lemma_loc_to_ploc(f1, lv.drop_last());
            lemma_loc_split(f1, lv.drop_last());
            lemma_loc_split(f1, lv);
            assert(lv.drop_last().drop_last() =~= gploc);
            assert(lv.drop_last().last() == pj);
            let g = kids_at(f1, gploc);
            let parent = g[pj];
            assert(parent == node_at(f1, lv.drop_last()));
            let pkids = parent->List_kids;
            assert(kids_at(f1, lv.drop_last()) == pkids);
            let child = pkids[ci];
            let parent2 = NodeV::List { label: label_of(parent), kids: pkids.remove(ci) };
            assert forall|t: TrackID| #[trigger] tid_count(self.f(), t) <= tid_count(f1, t) by {
                lemma_tid_count_set_kids_at(f1, gploc, g.update(pj, parent2).push(child), t);
                lemma_tid_count_push(g.update(pj, parent2), child, t);
                lemma_tid_count_update(g, pj, parent2, t);
                lemma_tid_count_remove(pkids, ci, t);
                assert(tid_count_node(parent, t) == tid_count(pkids, t));
                assert(tid_count_node(parent2, t) == tid_count(pkids.remove(ci), t));
            }
            lemma_tids_wf_mono(f1, self.f(), self.treg().next(), self.treg().m());
        }
        true
    }

    /// Moves the node at `loc` to become the last kid of its previous
    /// sibling.  Rejected — leaving the tree unchanged — when there is no
    /// previous sibling or that sibling is a track, which cannot hold
    /// children.
    pub fn demote(&mut self, loc: &Vec<usize>) -> (ok: bool)
        requires
            old(self).wf(),
        ensures
            final(self).wf(),
            same_aux(*old(self), *final(self)),
            ok == (valid_loc(old(self).f(), locv(loc@)) && can_demote(old(self).f(), locv(loc@))),
            ok ==> final(self).f() == demote_result(old(self).f(), locv(loc@))
                && final(self).dirty_bit(),
            !ok ==> final(self).f() == old(self).f()
                && final(self).dirty_bit() == old(self).dirty_bit(),
    {
        let ghost f1 = self.f();
        let ghost lv = locv(loc@);
        if loc.len() == 0 {
            proof {
                assert(lv.len() == 0);
            }
            return false;
        }
        proof {
            assert(loc@.skip(0) =~= loc@);
        }
        let valid: bool = match node_at_ref(&self.forest, loc, 0) {
            Some(_) => true,
            None => false,
        };
        let i = loc[loc.len() - 1];
        proof {
            assert(lv.last() == i);
        }
        if !valid || i == 0 {
            return false;
        }
        proof {
            lemma_loc_split(f1, lv);
        }
        // The previous sibling must be a list.
        let mut prev = clone_usizes(loc);
        let popped = prev.pop();
        prev.push(i - 1);
        proof {
            assert(locv(prev@) =~= lv.drop_last().push(i - 1));
            assert(locv(prev@).drop_last() =~= lv.drop_last());
            assert(prev@.skip(0) =~= prev@);
            lemma_loc_split(f1, locv(prev@));
        }
        let prev_is_list: bool = match node_at_ref(&self.forest, &prev, 0) {
            Some(n) => n.is_list(),
            None => {
                proof {
                    assert(false);
                }
                false
            },
        };
        proof {
            assert(node_at(f1, locv(prev@)) == kids_at(f1, lv.drop_last())[i - 1]);
        }
        if !prev_is_list {
            return false;
        }
        demote_at(&mut self.forest, loc, 0);
        self.dirty = true;
        proof {
            let plv = lv.drop_last();
            let g = kids_at(f1, plv);
            let node = g[i as int];
            let prevn = g[i - 1];
            let prev2 = NodeV::List { label: label_of(prevn), kids: kids_of(prevn).push(node) };
            assert forall|t: TrackID| #[trigger] tid_count(self.f(), t) <= tid_count(f1, t) by {
                lemma_tid_count_set_kids_at(
                    f1,
                    plv,
                    g.update(i - 1, prev2).remove(i as int),
                    t,
                );
                lemma_tid_count_remove(g.update(i - 1, prev2), i as int, t);
                lemma_tid_count_update(g, i - 1, prev2, t);
                lemma_tid_count_push(kids_of(prevn), node, t);
                assert(g.update(i - 1, prev2)[i as int] == node);
                assert(tid_count_node(prevn, t) == tid_count(kids_of(prevn), t));
                assert(tid_count_node(prev2, t) == tid_count(
                    kids_of(prevn).push(node),
                    t,
                ));
            }
            lemma_tids_wf_mono(f1, self.f(), self.treg().next(), self.treg().m());
        }
        true
    }

    /// Whether the node at `loc` already sits in the staging list for
    /// deleted nodes — that list itself included.
    pub fn is_in_deleted(&self, loc: &Vec<usize>) -> (r: bool)
        ensures
            r == in_deleted(self.f(), locv(loc@)),
    {
        if loc.len() == 0 {
            proof {
                assert(locv(loc@).len() == 0);
            }
            return false;
        }
        proof {
            assert(loc@.skip(0) =~= loc@);
            lemma_view_forest(self.forest@);
        }
        let valid: bool = match node_at_ref(&self.forest, loc, 0) {
            Some(_) => true,
            None => false,
        };
        if !valid {
            return false;
        }
        let top = &self.forest[loc[0]];
        let topchars = chars_of(top.label().as_str());
        let delchars = chars_of(deleted_name());
        crate::chars::chars_eq(&topchars, &delchars)
    }

    /// Moves the node at `loc`, with its whole subtree, to the end of the
    /// top-level staging list for deleted nodes, creating that list when
    /// it is missing.  Rejected — leaving the tree unchanged — when the
    /// location is invalid or the node already sits in the staging list.
    pub fn move_to_deleted(&mut self, loc: &Vec<usize>) -> (ok: bool)
        requires
            old(self).wf(),
        ensures
            final(self).wf(),
            same_aux(*old(self), *final(self)),
            ok == (valid_loc(old(self).f(), locv(loc@)) && !in_deleted(old(self).f(), locv(loc@))),
            ok ==> final(self).f() == moved_to_deleted(old(self).f(), locv(loc@))
                && final(self).dirty_bit(),
            !ok ==> final(self).f() == old(self).f()
                && final(self).dirty_bit() == old(self).dirty_bit(),
    {
        let ghost f1 = self.f();
        let ghost lv = locv(loc@);
        if loc.len() == 0 {
            proof {
                assert(lv.len() == 0);
            }
            return false;
        }
        proof {
            assert(loc@.skip(0) =~= loc@);
            lemma_view_forest(self.forest@);
        }
        let valid: bool = match node_at_ref(&self.forest, loc, 0) {
            Some(_) => true,
            None => false,
        };
        if !valid {
            return false;
        }
        let delchars = chars_of(deleted_name());
        {
            let top = &self.forest[loc[0]];
            let topchars = chars_of(top.label().as_str());
            if crate::chars::chars_eq(&topchars, &delchars) {
                return false;
            }
        }
        proof {
            lemma_loc_split(f1, lv);
        }
        let i = loc[loc.len() - 1];
        proof {
            assert(lv.last() == i);
        }
        let mut ploc = clone_usizes(loc);
        let popped = ploc.pop();
        proof {
            assert(locv(ploc@) =~= lv.drop_last());
            assert(ploc@.skip(0) =~= ploc@);
        }
        let node = remove_kid_at(&mut self.forest, &ploc, 0, i);
        let ghost nodev = view_node(node);
        let ghost f2 = self.f();
        let ghost vec2 = self.forest@;
        let si = find_first_list_labeled(&self.forest, &delchars);
        proof {
            lemma_view_forest(vec2);
            lemma_first_list_labeled_bound(f2, "<Deleted>"@);
            assert(si == first_list_labeled(f2, "<Deleted>"@));
            assert(si <= vec2.len() && f2.len() == vec2.len());
        }
        let sj: usize = si;
        if si >= self.forest.len() {
            let ghost pre = self.forest@;
            let newlist = Node::List(
                ListNode { label: String::from_str(deleted_name()), kids: Vec::new() },
            );
            let ghost newn = newlist;
            self.forest.push(newlist);
            proof {
                lemma_view_forest_push(pre, newn);
                assert(view_forest(Seq::<Node>::empty()) =~= Seq::<NodeV>::empty());
                assert(view_node(newn) == NodeV::List { label: "<Deleted>"@, kids: Seq::empty() });
                assert(self.f() == f2.push(
                    NodeV::List { label: "<Deleted>"@, kids: Seq::empty() },
                ));
            }
        }
        let ghost f3 = self.f();
        proof {
            if si < f2.len() {
                assert(f3 == f2);
                assert(f3[sj as int] is List);
            } else {
                assert(si == f2.len());
                assert(f3[sj as int] == NodeV::List { label: "<Deleted>"@, kids: Seq::empty() });
            }
            assert(0 <= sj < f3.len());
        }
        let mut sjv: Vec<usize> = Vec::new();
        sjv.push(sj);
        proof {
            assert(locv(sjv@) =~= seq![sj as int]);
            assert(sjv@.skip(0) =~= sjv@);
            assert(locv(sjv@)[0] == sj as int);
            assert(locv(sjv@).drop_first() =~= Seq::<int>::empty());
            assert(valid_ploc(f3[sj as int]->List_kids, locv(sjv@).drop_first()));
            assert(valid_ploc(f3, locv(sjv@)));
        }
        push_kid_at(&mut self.forest, &sjv, 0, node);
        self.dirty = true;
        proof {
            let plv = lv.drop_last();
            let sub = kids_at(f1, plv);
            let skids = kids_at(f3, locv(sjv@));
            let tail = locv(sjv@).drop_first();
            assert(tail =~= Seq::<int>::empty());
            assert(skids == kids_at(f3[sj as int]->List_kids, tail));
            assert(skids == f3[sj as int]->List_kids);
            assert(kids_of(f3[sj as int]) == f3[sj as int]->List_kids);
            assert(set_kids_at(f3[sj as int]->List_kids, tail, skids.push(nodev)) == skids.push(
                nodev,
            ));
            assert(set_kids_at(f3, locv(sjv@), skids.push(nodev)) == f3.update(
                sj as int,
                NodeV::List {
                    label: label_of(f3[sj as int]),
                    kids: set_kids_at(f3[sj as int]->List_kids, tail, skids.push(nodev)),
                },
            ));
            assert(set_kids_at(f3, locv(sjv@), skids.push(nodev)) == f3.update(
                sj as int,
                NodeV::List {
                    label: label_of(f3[sj as int]),
                    kids: kids_of(f3[sj as int]).push(nodev),
                },
            ));
            assert(self.f() == moved_to_deleted(f1, lv));
            assert forall|t: TrackID| #[trigger] tid_count(self.f(), t) <= tid_count(f1, t) by {
                lemma_tid_count_set_kids_at(f1, plv, sub.remove(i as int), t);
                lemma_tid_count_remove(sub, i as int, t);
                if si >= f2.len() {
                    lemma_tid_count_push(
                        f2,
                        NodeV::List { label: "<Deleted>"@, kids: Seq::empty() },
                        t,
                    );
                }
                lemma_tid_count_set_kids_at(f3, seq![sj as int], skids.push(nodev), t);
                lemma_tid_count_push(skids, nodev, t);
                assert(tid_count_node(nodev, t) >= 0) by {
                    crate::tree::lemma_tid_count_node_nonneg(nodev, t);
                }
            }
            lemma_tids_wf_mono(f1, self.f(), self.treg().next(), self.treg().m());
        }
        true
    }

    /// Permanently removes the node at `loc`, with its whole subtree,
    /// from the tree.  Only nodes already in the staging list for deleted
    /// nodes — or that list itself — can be removed; the caller asks the
    /// user for confirmation first.  Registry records are not reclaimed;
    /// they are dropped wholesale on the next load or clear.
    pub fn delete_permanently(&mut self, loc: &Vec<usize>) -> (ok: bool)
        requires
            old(self).wf(),
        ensures
            final(self).wf(),
            same_aux(*old(self), *final(self)),
            ok == in_deleted(old(self).f(), locv(loc@)),
            ok ==> final(self).f() == set_kids_at(
                old(self).f(),
                locv(loc@).drop_last(),
                kids_at(old(self).f(), locv(loc@).drop_last()).remove(locv(loc@).last()),
            ) && final(self).dirty_bit(),
            !ok ==> final(self).f() == old(self).f()
                && final(self).dirty_bit() == old(self).dirty_bit(),
    {
        let ghost f1 = self.f();
        let ghost lv = locv(loc@);
        if !self.is_in_deleted(loc) {
            return false;
        }
        proof {
            assert(lv.len() > 0);
            assert(loc@.skip(0) =~= loc@);
            lemma_loc_split(f1, lv);
        }
        let i = loc[loc.len() - 1];
        proof {
            assert(lv.last() == i);
        }
        let mut ploc = clone_usizes(loc);
        let popped = ploc.pop();
        proof {
            assert(locv(ploc@) =~= lv.drop_last());
            assert(ploc@.skip(0) =~= ploc@);
        }
        let node = remove_kid_at(&mut self.forest, &ploc, 0, i);
        self.dirty = true;
        proof {
            let plv = lv.drop_last();
            let sub = kids_at(f1, plv);
            assert forall|t: TrackID| #[trigger] tid_count(self.f(), t) <= tid_count(f1, t) by {
                lemma_tid_count_set_kids_at(f1, plv, sub.remove(i as int), t);
                lemma_tid_count_remove(sub, i as int, t);
                crate::tree::lemma_tid_count_node_nonneg(view_node(node), t);
            }
            lemma_tids_wf_mono(f1, self.f(), self.treg().next(), self.treg().m());
        }
        true
    }

    /// The document as bytes, gzip-compressed at the best level.  Writing
    /// the bytes out is the caller's business; after a successful write
    /// the caller records it with `mark_saved`.
    pub fn save_to_bytes(&self) -> (r: Vec<u8>)
        ensures
            crate::codec::gunzip_text(r@) == Some(
                crate::codec::doc_text(self.f(), self.treg().m(), self.hist()),
            ),
            r@.len() >= 2 && r@[0] == 0x1f && r@[1] == 0x8b,
    {
        let hist = self.history_iter();
        let chars = crate::codec::write_doc(&self.forest, &self.tracks, &hist);
        let text = crate::chars::string_from_chars(&chars);
        crate::codec::gzip_compress(text.as_str())
    }

    /// Replaces the document with the one the bytes hold: the tree, the
    /// track records under fresh identifiers starting at one, and the
    /// history, truncated to the configured capacity with later duplicates
    /// dropped.  A failure leaves the model exactly as it was.
    pub fn load_from_bytes(&mut self, bytes: &Vec<u8>) -> (r: Result<(), crate::codec::ParseError>)
        requires
            old(self).wf(),
        ensures
            final(self).wf(),
            final(self).hmax() == old(self).hmax(),
            final(self).fname() == old(self).fname(),
            match r {
                Ok(()) => ({
                    &&& crate::codec::decode_doc(bytes@) is Some
                    &&& crate::codec::parse_text(crate::codec::decode_doc(bytes@)->Some_0) is Ok
                    &&& ({
                        let st = crate::codec::parse_text(
                            crate::codec::decode_doc(bytes@)->Some_0,
                        )->Ok_0;
                        &&& final(self).f() == st.forest
                        &&& final(self).treg().next() == st.tracks.len() + 1
                        &&& (forall|t: TrackID|
                            final(self).treg().m().contains_key(t) <==> 1 <= t <= st.tracks.len())
                        &&& (forall|t: TrackID|
                            1 <= t <= st.tracks.len() ==> (
                            #[trigger] final(self).treg().m()[t]).filename@ == st.tracks[t - 1].0
                                && final(self).treg().m()[t].millis == st.tracks[t - 1].1)
                        &&& final(self).hist() == (if st.history.len() > old(self).hmax() {
                            st.history.take(old(self).hmax())
                        } else {
                            st.history
                        })
                        &&& !final(self).dirty_bit()
                    })
                }),
                Err(e) => ({
                    &&& same_state(*old(self), *final(self))
                    &&& (crate::codec::decode_doc(bytes@) is None ==> e.kind
                        == crate::codec::ParseErrorKind::Unreadable)
                    &&& (crate::codec::decode_doc(bytes@) is Some ==> crate::codec::parse_text(
                        crate::codec::decode_doc(bytes@)->Some_0,
                    ) is Err && crate::codec::parse_text(
                        crate::codec::decode_doc(bytes@)->Some_0,
                    )->Err_0.lino == e.lino as int && crate::codec::parse_text(
                        crate::codec::decode_doc(bytes@)->Some_0,
                    )->Err_0.kind == e.kind)
                }),
            },
    {
        let is_gz = bytes.len() >= 2 && bytes[0] == 0x1f && bytes[1] == 0x8b;
        let text_opt = if is_gz {
            crate::codec::gzip_decompress(bytes)
        } else {
            crate::codec::utf8_decode(bytes)
        };
        let text = match text_opt {
            Some(t) => t,
            None => {
                return Err(
                    crate::codec::ParseError {
                        lino: 0,
                        kind: crate::codec::ParseErrorKind::Unreadable,
                    },
                );
            },
        };
        match crate::codec::parse_doc_text(text.as_str()) {
            Err(e) => Err(e),
            Ok(p) => {
                let ghost st = crate::codec::parse_text(text@)->Ok_0;
                self.forest = p.forest;
                let n: usize = p.tracks.len();
                let mut reg = Registry::new();
                let mut i: usize = 0;
                while i < n
                    invariant
                        n == p.tracks@.len(),
                        n + 1 <= i32::MAX,
                        i <= n,
                        reg.next() == i + 1,
                        forall|t: TrackID| reg.m().contains_key(t) <==> 1 <= t <= i,
                        forall|t: TrackID|
                            1 <= t <= i ==> (#[trigger] reg.m()[t]).filename == p.tracks@[t
                                - 1].filename && reg.m()[t].millis == p.tracks@[t - 1].millis,
                    decreases n - i,
                {
                    let id = reg.next_id();
                    reg.insert(id, p.tracks[i].duplicate());
                    i = i + 1;
                }
                self.tracks = reg;
                let cap = self.history_max;
                let mut h: VecDeque<TreePath> = VecDeque::new();
                let m: usize = p.history.len();
                let lim: usize = if m > cap {
                    cap
                } else {
                    m
                };
                let mut j: usize = 0;
                while j < lim
                    invariant
                        lim <= m == p.history@.len(),
                        j <= lim,
                        views_of(h@).len() == j,
                        forall|k: int| 0 <= k < j ==> views_of(h@)[k] == views_of(p.history@)[k],
                    decreases lim - j,
                {
                    let ghost hpre = h@;
                    h.push_back(p.history[j].clone());
                    proof {
                        assert(views_of(h@) =~= views_of(hpre).push(p.history@[j as int]@));
                    }
                    j = j + 1;
                }
                self.history = h;
                self.dirty = false;
                proof {
                    assert(tids_unique(self.f()));
                    assert(tids_below(self.f(), self.treg().next()));
                    assert forall|t: TrackID|
                        #[trigger] tid_count(self.f(), t) > 0 implies self.treg().m().contains_key(
                        t,
                    ) by {
                        assert(1 <= t <= n);
                    }
                    assert forall|t: TrackID|
                        1 <= t <= st.tracks.len() implies (
                    #[trigger] self.treg().m()[t]).filename@ == st.tracks[t - 1].0
                        && self.treg().m()[t].millis == st.tracks[t - 1].1 by {
                        assert(crate::codec::tracks_views(p.tracks@)[t - 1] == st.tracks[t - 1]);
                    }
                    assert(self.hist() =~= (if st.history.len() > self.hmax() {
                        st.history.take(self.hmax())
                    } else {
                        st.history
                    }));
                    assert forall|a: int, b: int|
                        0 <= a < b < self.hist().len() implies self.hist()[a] != self.hist()[b] by {
                        assert(self.hist()[a] == st.history[a]);
                        assert(self.hist()[b] == st.history[b]);
                    }
                }
                Ok(())
            },
        }
    }

    /// The track a leaf location resolves to, through the registry.
    pub fn track_for_item(&self, loc: &Vec<usize>) -> (r: Option<Track>)
        ensures
            match r {
                Some(t) => ({
                    &&& valid_loc(self.f(), locv(loc@))
                    &&& node_at(self.f(), locv(loc@)) is Track
                    &&& self.treg().m().contains_key(node_at(self.f(), locv(loc@))->Track_tid)
                    &&& t == self.treg().m()[node_at(self.f(), locv(loc@))->Track_tid]
                }),
                None => !valid_loc(self.f(), locv(loc@)) || node_at(self.f(), locv(loc@)) is List
                    || !self.treg().m().contains_key(node_at(self.f(), locv(loc@))->Track_tid),
            },
    {
        if loc.len() == 0 {
            proof {
                assert(locv(loc@).len() == 0);
            }
            return None;
        }
        proof {
            assert(loc@.skip(0) =~= loc@);
        }
        match node_at_ref(&self.forest, loc, 0) {
            None => None,
            Some(n) => match n.tid() {
                None => None,
                Some(tid) => match self.tracks.get(tid) {
                    Some(t) => Some(t.duplicate()),
                    None => None,
                },
            },
        }
    }
}

/// Whether two index vectors are equal.
fn usizes_eq(a: &Vec<usize>, b: &Vec<usize>) -> (r: bool)
    ensures
        r == (a@ == b@),
{
    if a.len() != b.len() {
        return false;
    }
    let n: usize = a.len();
    let mut i: usize = 0;
    while i < n
        invariant
            n == a@.len() == b@.len(),
            i <= n,
            forall|j: int| 0 <= j < i ==> a@[j] == b@[j],
        decreases n - i,
    {
        if a[i] != b[i] {
            return false;
        }
        i = i + 1;
    }
    proof {
        assert(a@ =~= b@);
    }
    true
}

impl Model {
    /// Looks for `needle` in the node labels, case-insensitively for
    /// ASCII, in document order: the search starts just after the node at
    /// `after` — from the top when `after` is absent or not a node — and
    /// wraps around to the top when nothing matches below the start.
    pub fn find(&self, needle: &str, after: Option<&Vec<usize>>) -> (r: Option<(TreePath, Vec<
        usize,
    >)>)
        ensures
            ({
                let es = entries(self.f());
                let start = match after {
                    Some(a) => if entry_loc_pos_v(es, locv(a@)) < es.len() {
                        entry_loc_pos_v(es, locv(a@))
                    } else {
                        -1
                    },
                    None => -1,
                };
                match r {
                    Some(found) => ({
                        &&& find_pos_v(es, needle@, start) is Some
                        &&& found.0@ == es[find_pos_v(es, needle@, start)->Some_0].path
                        &&& locv(found.1@) == es[find_pos_v(es, needle@, start)->Some_0].loc
                    }),
                    None => find_pos_v(es, needle@, start) is None,
                }
            }),
    {
        let es = self.all_entries();
        let needle_chars = chars_of(needle);
        let n: usize = es.len();
        let ghost esv = entries(self.f());
        proof {
            assert(esv.len() == n);
            assert(forall|j: int| 0 <= j < n ==> #[trigger] esv[j] == entry_view(es@[j]));
        }
        // Where does the search start?
        let mut start_plus: usize = 0;
        match after {
            Some(a) => {
                let mut i: usize = 0;
                let mut pos: usize = n;
                while i < n
                    invariant
                        n == es@.len(),
                        i <= n,
                        esv.len() == n,
                        forall|j: int| 0 <= j < n ==> #[trigger] esv[j] == entry_view(es@[j]),
                        pos == n || (pos < i && esv[pos as int].loc == locv(a@)),
                        pos == n ==> forall|j: int|
                            0 <= j < i ==> (#[trigger] esv[j]).loc != locv(a@),
                        pos < n ==> forall|j: int|
                            0 <= j < pos ==> (#[trigger] esv[j]).loc != locv(a@),
                    decreases n - i,
                {
                    if pos == n {
                        if usizes_eq(&es[i].loc, a) {
                            proof {
                                assert(esv[i as int].loc =~= locv(a@));
                            }
                            pos = i;
                        } else {
                            proof {
                                if esv[i as int].loc == locv(a@) {
                                    let x = es@[i as int].loc@;
                                    assert(locv(x) == locv(a@));
                                    assert(x.len() == locv(x).len());
                                    assert(a@.len() == locv(a@).len());
                                    assert forall|q: int| 0 <= q < x.len() implies x[q]
                                        == a@[q] by {
                                        assert(locv(x)[q] == x[q] as int);
                                        assert(locv(a@)[q] == a@[q] as int);
                                    }
                                    assert(x =~= a@);
                                    assert(false);
                                }
                            }
                        }
                    }
                    i = i + 1;
                }
                proof {
                    lemma_entry_loc_pos_v_is(esv, locv(a@), pos as int);
                }
                if pos < n {
                    start_plus = pos + 1;
                } else {
                    start_plus = 0;
                }
            },
            None => {
            },
        }
        let ghost startg: int = match after {
            Some(a) => if entry_loc_pos_v(esv, locv(a@)) < esv.len() {
                entry_loc_pos_v(esv, locv(a@))
            } else {
                -1
            },
            None => -1,
        };
        proof {
            assert(start_plus as int == startg + 1);
        }
        // Search the tail after the start.
        let mut k: usize = start_plus;
        while k < n
            invariant
                n == es@.len(),
                esv.len() == n,
                forall|j: int| 0 <= j < n ==> #[trigger] esv[j] == entry_view(es@[j]),
                start_plus <= k <= n,
                needle_chars@ == needle@,
                esv == entries(self.f()),
                start_plus as int == startg + 1,
                startg == (match after {
                    Some(a) => if entry_loc_pos_v(esv, locv(a@)) < esv.len() {
                        entry_loc_pos_v(esv, locv(a@))
                    } else {
                        -1
                    },
                    None => -1,
                }),
                forall|j: int|
                    start_plus <= j < k ==> !crate::chars::contains_ci(
                        (#[trigger] esv[j]).label,
                        needle@,
                    ),
            decreases n - k,
        {
            let lchars = chars_of(es[k].label.as_str());
            if crate::chars::chars_contains_ci(&lchars, &needle_chars) {
                proof {
                    lemma_first_match_v_is(esv, needle@, start_plus as int, k as int);
                }
                let path = es[k].path.clone();
                let loc = clone_usizes(&es[k].loc);
                return Some((path, loc));
            }
            k = k + 1;
        }
        proof {
            lemma_first_match_v_is(esv, needle@, start_plus as int, n as int);
        }
        // Wrap to the top.
        let mut k2: usize = 0;
        while k2 < n
            invariant
                n == es@.len(),
                esv.len() == n,
                forall|j: int| 0 <= j < n ==> #[trigger] esv[j] == entry_view(es@[j]),
                k2 <= n,
                needle_chars@ == needle@,
                esv == entries(self.f()),
                start_plus as int == startg + 1,
                start_plus <= n,
                startg == (match after {
                    Some(a) => if entry_loc_pos_v(esv, locv(a@)) < esv.len() {
                        entry_loc_pos_v(esv, locv(a@))
                    } else {
                        -1
                    },
                    None => -1,
                }),
                first_match_v(esv, needle@, startg + 1) == n as int,
                forall|j: int|
                    0 <= j < k2 ==> !crate::chars::contains_ci(
                        (#[trigger] esv[j]).label,
                        needle@,
                    ),
            decreases n - k2,
        {
            let lchars = chars_of(es[k2].label.as_str());
            if crate::chars::chars_contains_ci(&lchars, &needle_chars) {
                proof {
                    lemma_first_match_v_is(esv, needle@, 0, k2 as int);
                }
                let path = es[k2].path.clone();
                let loc = clone_usizes(&es[k2].loc);
                return Some((path, loc));
            }
            k2 = k2 + 1;
        }
        proof {
            lemma_first_match_v_is(esv, needle@, 0, n as int);
        }
        None
    }
}

/// `first_match` over mathematical rows.
pub open spec fn first_match_v(es: Seq<crate::tree::EntryV>, needle: Seq<char>, i: int) -> int
    decreases es.len() - i,
{
    if i < 0 || i >= es.len() {
        es.len() as int
    } else if crate::chars::contains_ci(es[i].label, needle) {
        i
    } else {
        first_match_v(es, needle, i + 1)
    }
}

pub proof fn lemma_first_match_v_is(
    es: Seq<crate::tree::EntryV>,
    needle: Seq<char>,
    i: int,
    k: int,
)
    requires
        0 <= i <= k <= es.len(),
        k < es.len() ==> crate::chars::contains_ci(es[k].label, needle),
        forall|j: int| i <= j < k ==> !crate::chars::contains_ci((#[trigger] es[j]).label, needle),
    ensures
        first_match_v(es, needle, i) == k,
    decreases es.len() - i,
{
    if i < es.len() && !crate::chars::contains_ci(es[i].label, needle) {
        lemma_first_match_v_is(es, needle, i + 1, k);
    }
}

/// `entry_loc_pos` over mathematical rows.
pub open spec fn entry_loc_pos_v(es: Seq<crate::tree::EntryV>, l: Seq<int>) -> int
    decreases es.len(),
{
    if es.len() == 0 {
        0
    } else if es[0].loc == l {
        0
    } else {
        1 + entry_loc_pos_v(es.drop_first(), l)
    }
}

pub proof fn lemma_entry_loc_pos_v_is(es: Seq<crate::tree::EntryV>, l: Seq<int>, k: int)
    requires
        0 <= k <= es.len(),
        k < es.len() ==> es[k].loc == l,
        forall|j: int| 0 <= j < k ==> (#[trigger] es[j]).loc != l,
    ensures
        entry_loc_pos_v(es, l) == k,
    decreases es.len(),
{
    if es.len() > 0 && es[0].loc != l {
        assert(forall|j: int| 0 <= j < k - 1 ==> es.drop_first()[j] == es[j + 1]);
        lemma_entry_loc_pos_v_is(es.drop_first(), l, k - 1);
    }
}

/// The cyclic search over mathematical rows.
pub open spec fn find_pos_v(es: Seq<crate::tree::EntryV>, needle: Seq<char>, start: int) -> Option<
    int,
> {
    let a = first_match_v(es, needle, start + 1);
    if a < es.len() {
        Some(a)
    } else {
        let b = first_match_v(es, needle, 0);
        if b < es.len() {
            Some(b)
        } else {
            None
        }
    }
}

/// Recording keeps the history duplicate-free and within its capacity.
pub proof fn lemma_record_wf(h: Seq<Seq<char>>, v: Seq<char>, max: int)
    requires
        hist_nodup(h),
        h.len() <= max,
        max >= 1,
    ensures
        hist_nodup(record_seq(h, v, max)),
        record_seq(h, v, max).len() <= max,
        record_seq(h, v, max).len() > 0,
        record_seq(h, v, max)[0] == v,
{
    let r = record_seq(h, v, max);
    if h.len() > 0 && h[0] == v {
    } else {
        let i = crate::util::first_pos(h, v, 1);
        crate::util::lemma_first_pos(h, v, if h.len() == 0 {
            0
        } else {
            1
        });
        if h.len() == 0 {
        } else {
            crate::util::lemma_first_pos(h, v, 1);
        }
        let removed = if i < h.len() {
            h.remove(i)
        } else {
            h
        };
        assert forall|a: int, b: int| 0 <= a < b < removed.len() implies removed[a] != removed[b]
            by {
            if i < h.len() {
                assert(removed[a] == (if a < i {
                    h[a]
                } else {
                    h[a + 1]
                }));
                assert(removed[b] == (if b < i {
                    h[b]
                } else {
                    h[b + 1]
                }));
            }
        }
        assert forall|a: int| 0 <= a < removed.len() implies removed[a] != v by {
            if i < h.len() {
                if a < i {
                    assert(removed[a] == h[a]);
                    if a >= 1 {
                        assert(h[a] != v);
                    } else {
                        assert(h[0] != v || h.len() == 0);
                    }
                } else {
                    assert(removed[a] == h[a + 1]);
                    assert(h[a + 1] != h[i]);
                }
            } else {
                if a >= 1 {
                    assert(h[a] != v);
                } else {
                    assert(h[0] != v || h.len() == 0);
                }
            }
        }
        let pushed = seq![v] + removed;
        assert(hist_nodup(pushed));
        if pushed.len() > max {
            assert forall|a: int, b: int| 0 <= a < b < r.len() implies r[a] != r[b] by {
                assert(r[a] == pushed[a]);
                assert(r[b] == pushed[b]);
            }
            assert(r[0] == pushed[0]);
        }
    }
}

} // verus!
