//! Open documents: the tab list the engine thread owns, which one is active,
//! and the ids handed out to new documents.
use vstd::prelude::*;

verus! {

/// A document's id in the protocol.
#[derive(Clone, Copy, Debug, PartialEq, Eq, Hash, Structural)]
pub struct DocId(pub u32);

/// One open document: its id, its tab name, whether it has unsaved changes,
/// and `doc`, what the engine keeps of it (the document itself, its history
/// and its view).
pub struct OpenDoc<D> {
    pub id: DocId,
    pub name: String,
    pub dirty: bool,
    pub doc: D,
    /// What is known of the snapshot last handed to the render thread.
    pub snapshot: SnapshotState,
}

/// The snapshot of a document last handed to the render thread: the
/// document revision it was taken at, and whether derived data (mips)
/// changed since without a new revision.
#[derive(Clone, Copy, Debug, PartialEq, Eq, Structural)]
pub struct SnapshotState {
    pub taken_at: Option<u64>,
    pub stale: bool,
}

impl SnapshotState {
    /// Whether the snapshot still shows the document at `revision`: it was
    /// taken at that revision and nothing derived changed since.
    pub open spec fn reusable_at(self, revision: u64) -> bool {
        self.taken_at == Some(revision) && !self.stale
    }

    /// The state once a snapshot is taken at `revision`.
    pub open spec fn after_taking(revision: u64) -> SnapshotState {
        SnapshotState { taken_at: Some(revision), stale: false }
    }

    /// The state once derived data changed without a new revision.
    pub open spec fn after_invalidating(self) -> SnapshotState {
        SnapshotState { stale: true, ..self }
    }

    /// No snapshot yet.
    pub fn new() -> (state: Self)
        ensures
            state.taken_at is None,
            !state.stale,
    {
        SnapshotState { taken_at: None, stale: false }
    }

    /// Whether the last snapshot can be handed again for the document at
    /// `revision`.
    pub fn reusable(&self, revision: u64) -> (reuse: bool)
        ensures
            reuse == self.reusable_at(revision),
    {
        match self.taken_at {
            Some(r) => r == revision && !self.stale,
            None => false,
        }
    }

    /// A new snapshot was taken at `revision`.
    pub fn taken(&mut self, revision: u64)
        ensures
            *final(self) == SnapshotState::after_taking(revision),
    {
        self.taken_at = Some(revision);
        self.stale = false;
    }

    /// Derived data changed without a new revision: the next request takes
    /// a new snapshot.
    pub fn invalidate(&mut self)
        ensures
            *final(self) == old(self).after_invalidating(),
    {
        self.stale = true;
    }
}

/// A snapshot is handed again exactly while the document keeps its
/// revision and nothing invalidates it: right after one is taken at a
/// revision it is reusable at that revision and at no other, and after an
/// invalidation it is reusable at none.
pub proof fn law_snapshots_follow_revisions(state: SnapshotState, revision: u64, other: u64)
    requires
        other != revision,
    ensures
        SnapshotState::after_taking(revision).reusable_at(revision),
        !SnapshotState::after_taking(revision).reusable_at(other),
        !state.after_invalidating().reusable_at(revision),
{
}

/// The colour profile a document is tagged with.
#[derive(Clone, Copy, Debug, PartialEq, Eq, Structural)]
pub enum ColorProfile {
    Srgb,
    AdobeRgb1998,
    DisplayP3,
    ProPhotoRgb,
    /// A profile embedded in the file it came from.
    Icc,
}

/// The name the document tabs show for a profile.
pub open spec fn spec_profile_name(profile: ColorProfile) -> Seq<char> {
    match profile {
        ColorProfile::Srgb => "sRGB IEC61966-2.1"@,
        ColorProfile::AdobeRgb1998 => "Adobe RGB (1998)"@,
        ColorProfile::DisplayP3 => "Display P3"@,
        ColorProfile::ProPhotoRgb => "ProPhoto RGB"@,
        ColorProfile::Icc => "Embedded profile"@,
    }
}

/// The name the document tabs show for a profile.
pub fn profile_name(profile: ColorProfile) -> (name: &'static str)
    ensures
        name@ == spec_profile_name(profile),
{
    match profile {
        ColorProfile::Srgb => "sRGB IEC61966-2.1",
        ColorProfile::AdobeRgb1998 => "Adobe RGB (1998)",
        ColorProfile::DisplayP3 => "Display P3",
        ColorProfile::ProPhotoRgb => "ProPhoto RGB",
        ColorProfile::Icc => "Embedded profile",
    }
}

impl<D> OpenDoc<D> {
    /// A document just opened: clean, no snapshot taken yet.
    pub fn new(id: DocId, name: String, doc: D) -> (open: Self)
        ensures
            open.id == id,
            open.name == name,
            open.doc == doc,
            !open.dirty,
            open.snapshot.taken_at is None,
            !open.snapshot.stale,
    {
        OpenDoc { id, name, dirty: false, doc, snapshot: SnapshotState::new() }
    }
}

/// All open documents, in tab order, and which one is active.
pub struct Documents<D> {
    docs: Vec<OpenDoc<D>>,
    active: Option<DocId>,
    next_id: u32,
}

/// The ids of a list of documents, in order.
pub open spec fn ids_of<D>(docs: Seq<OpenDoc<D>>) -> Seq<DocId> {
    docs.map_values(|d: OpenDoc<D>| d.id)
}

/// The first position of `id` in `ids`, if it is there.
pub open spec fn first_index(ids: Seq<DocId>, id: DocId, i: int) -> bool {
    0 <= i < ids.len() && ids[i] == id && forall|j: int| 0 <= j < i ==> ids[j] != id
}

/// The tab that becomes active when the active tab at `index` closes and
/// `rest` are the tabs left: the one to its left, or the new first one.
pub open spec fn neighbour(rest: Seq<DocId>, index: int) -> Option<DocId> {
    if rest.len() == 0 {
        None
    } else if index >= 1 {
        Some(rest[index - 1])
    } else {
        Some(rest[0])
    }
}

/// Closing the active tab at `i` of the tabs `ids` activates the tab to
/// its left, or, for the first tab, the one to its right (the new first
/// tab); with no tab left, none.
pub proof fn law_closing_activates_the_left_neighbour(ids: Seq<DocId>, i: int)
    requires
        0 <= i < ids.len(),
    ensures
        i >= 1 ==> neighbour(ids.remove(i), i) == Some(ids[i - 1]),
        i == 0 && ids.len() >= 2 ==> neighbour(ids.remove(i), i) == Some(ids[1]),
        ids.len() == 1 ==> neighbour(ids.remove(i), i) is None,
{
    if i >= 1 {
        assert(ids.remove(i)[i - 1] == ids[i - 1]);
    } else if ids.len() >= 2 {
        assert(ids.remove(0)[0] == ids[1]);
    }
}

impl<D> Documents<D> {
    /// The open documents, in tab order.
    pub closed spec fn docs(&self) -> Seq<OpenDoc<D>> {
        self.docs@
    }

    /// The ids of the open documents, in tab order.
    pub open spec fn doc_ids(&self) -> Seq<DocId> {
        ids_of(self.docs())
    }

    /// The active document's id.
    pub closed spec fn active(&self) -> Option<DocId> {
        self.active
    }

    /// The last id handed out (0 before the first).
    pub closed spec fn last_id(&self) -> u32 {
        self.next_id
    }

    /// The active document, when there is one, is open.
    pub open spec fn wf(&self) -> bool {
        self.active() matches Some(a) ==> self.doc_ids().contains(a)
    }

    /// No document open, none active, no id handed out yet.
    pub fn new() -> (docs: Self)
        ensures
            docs.docs().len() == 0,
            docs.active() is None,
            docs.last_id() == 0,
            docs.wf(),
    {
        Documents { docs: Vec::new(), active: None, next_id: 0 }
    }

    /// A fresh document id (never 0: 0 is the virtual test document).
    pub fn allocate_id(&mut self) -> (id: DocId)
        requires
            old(self).last_id() < u32::MAX,
        ensures
            id.0 == old(self).last_id() + 1,
            final(self).last_id() == id.0,
            final(self).docs() == old(self).docs(),
            final(self).active() == old(self).active(),
    {
        self.next_id = self.next_id + 1;
        DocId(self.next_id)
    }

    /// Open `doc` as the last tab and make it the active one.
    pub fn add(&mut self, doc: OpenDoc<D>)
        ensures
            final(self).docs() == old(self).docs().push(doc),
            final(self).active() == Some(doc.id),
            final(self).last_id() == old(self).last_id(),
            final(self).wf(),
    {
        let id = doc.id;
        self.active = Some(id);
        self.docs.push(doc);
        proof {
            assert(self.doc_ids()[self.doc_ids().len() - 1] == id);
        }
    }

    /// The position of `id` in the tab list.
    fn position(&self, id: DocId) -> (index: Option<usize>)
        ensures
            index matches Some(i) ==> first_index(self.doc_ids(), id, i as int),
            index is None ==> !self.doc_ids().contains(id),
    {
        let mut i: usize = 0;
        while i < self.docs.len()
            invariant
                i <= self.docs@.len(),
                forall|j: int| 0 <= j < i ==> self.doc_ids()[j] != id,
            decreases self.docs@.len() - i,
        {
            if self.docs[i].id == id {
                return Some(i);
            }
            i = i + 1;
        }
        None
    }

    /// Remove `id`; when it was active, the tab to its left (or the new
    /// first one) becomes active. `None` when `id` is not open.
    pub fn close(&mut self, id: DocId) -> (closed: Option<OpenDoc<D>>)
        requires
            old(self).wf(),
        ensures
            final(self).wf(),
            final(self).last_id() == old(self).last_id(),
            !old(self).doc_ids().contains(id) ==> closed is None && final(self).docs() == old(
                self,
            ).docs() && final(self).active() == old(self).active(),
            old(self).doc_ids().contains(id) ==> exists|i: int|
                #![trigger first_index(old(self).doc_ids(), id, i)]
                first_index(old(self).doc_ids(), id, i) && closed == Some(old(self).docs()[i])
                    && final(self).docs() == old(self).docs().remove(i) && final(self).active() == (
                if old(self).active() == Some(id) {
                    neighbour(ids_of(old(self).docs().remove(i)), i)
                } else {
                    old(self).active()
                }),
    {
        match self.position(id) {
            None => None,
            Some(index) => {
                let ghost before = self.docs@;
                let closed = self.docs.remove(index);
                proof {
                    assert(ids_of(self.docs@) =~= ids_of(before.remove(index as int)));
                }
                if self.active == Some(id) {
                    if self.docs.len() == 0 {
                        self.active = None;
                    } else if index >= 1 {
                        self.active = Some(self.docs[index - 1].id);
                    } else {
                        self.active = Some(self.docs[0].id);
                    }
                } else {
                    proof {
                        let a = self.active->0;
                        if self.active is Some {
                            let k = choose|k: int| 0 <= k < ids_of(before).len() && ids_of(before)[k] == a;
                            assert(k != index);
                            if k < index {
                                assert(ids_of(self.docs@)[k] == a);
                            } else {
                                assert(ids_of(self.docs@)[k - 1] == a);
                            }
                        }
                    }
                }
                proof {
                    if self.active is Some {
                        let a = self.active->0;
                        if old(self).active() == Some(id) {
                            if index >= 1 {
                                assert(ids_of(self.docs@)[index - 1] == a);
                            } else {
                                assert(ids_of(self.docs@)[0] == a);
                            }
                        }
                    }
                    assert(first_index(old(self).doc_ids(), id, index as int));
                }
                Some(closed)
            },
        }
    }

    /// Make `id` the active document; `false` (and nothing changes) when it
    /// is not open.
    pub fn activate(&mut self, id: DocId) -> (known: bool)
        requires
            old(self).wf(),
        ensures
            final(self).wf(),
            known == old(self).doc_ids().contains(id),
            final(self).docs() == old(self).docs(),
            final(self).last_id() == old(self).last_id(),
            final(self).active() == (if known {
                Some(id)
            } else {
                old(self).active()
            }),
    {
        let known = self.position(id).is_some();
        if known {
            self.active = Some(id);
        }
        known
    }

    /// The active document's id.
    pub fn active_id(&self) -> (id: Option<DocId>)
        ensures
            id == self.active(),
    {
        self.active
    }

    /// The open document `id`, if it is open.
    pub fn get(&self, id: DocId) -> (doc: Option<&OpenDoc<D>>)
        ensures
            doc is None <==> !self.doc_ids().contains(id),
            doc matches Some(d) ==> exists|i: int|
                #![trigger first_index(self.doc_ids(), id, i)]
                first_index(self.doc_ids(), id, i) && *d == self.docs()[i],
    {
        match self.position(id) {
            Some(i) => Some(&self.docs[i]),
            None => None,
        }
    }

    /// The open document `id`, to change it, if it is open. Only that
    /// document can change through the reference: the tab list, the active
    /// document and the ids handed out stay as they were.
    pub fn get_mut(&mut self, id: DocId) -> (doc: Option<&mut OpenDoc<D>>)
        ensures
            doc is None <==> !old(self).doc_ids().contains(id),
            doc is None ==> final(self).docs() == old(self).docs(),
            doc matches Some(d) ==> exists|i: int|
                #![trigger first_index(old(self).doc_ids(), id, i)]
                first_index(old(self).doc_ids(), id, i) && *d == old(self).docs()[i]
                    && final(self).docs() == old(self).docs().update(i, *final(d)),
            final(self).active() == old(self).active(),
            final(self).last_id() == old(self).last_id(),
    {
        match self.position(id) {
            Some(i) => Some(&mut self.docs[i]),
            None => None,
        }
    }

    /// The active document, to change it.
    pub fn active_mut(&mut self) -> (doc: Option<&mut OpenDoc<D>>)
        ensures
            doc is None <==> (old(self).active() matches Some(a) ==> !old(self).doc_ids().contains(a)),
            doc is None ==> final(self).docs() == old(self).docs(),
            doc matches Some(d) ==> exists|i: int|
                #![trigger first_index(old(self).doc_ids(), old(self).active()->0, i)]
                first_index(old(self).doc_ids(), old(self).active()->0, i) && *d == old(self).docs()[i]
                    && final(self).docs() == old(self).docs().update(i, *final(d)),
            final(self).active() == old(self).active(),
            final(self).last_id() == old(self).last_id(),
    {
        match self.active {
            Some(id) => self.get_mut(id),
            None => None,
        }
    }

    /// The ids of the open documents, in tab order.
    pub fn ids(&self) -> (ids: Vec<DocId>)
        ensures
            ids@ == self.doc_ids(),
    {
        let mut ids: Vec<DocId> = Vec::new();
        let mut i: usize = 0;
        while i < self.docs.len()
            invariant
                i <= self.docs@.len(),
                ids@ == self.doc_ids().take(i as int),
            decreases self.docs@.len() - i,
        {
            ids.push(self.docs[i].id);
            proof {
                assert(ids@ =~= self.doc_ids().take(i + 1));
            }
            i = i + 1;
        }
        proof {
            assert(self.doc_ids().take(i as int) =~= self.doc_ids());
        }
        ids
    }

    /// Whether no document is open.
    pub fn is_empty(&self) -> (empty: bool)
        ensures
            empty == (self.docs().len() == 0),
    {
        self.docs.len() == 0
    }

    /// How many documents are open.
    pub fn len(&self) -> (n: usize)
        ensures
            n == self.docs().len(),
    {
        self.docs.len()
    }
}

/// An id handed out by `allocate_id` is new: when every open id is at most
/// the last id handed out, the next one is not open.
pub proof fn law_allocated_id_is_fresh(ids: Seq<DocId>, last: u32)
    requires
        forall|i: int| 0 <= i < ids.len() ==> ids[i].0 <= last,
        last < u32::MAX,
    ensures
        !ids.contains(DocId((last + 1) as u32)),
{
}

} // verus!
