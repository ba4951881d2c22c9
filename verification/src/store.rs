//! The relational engine: three tables (notes, tags, note-tag links) with
//! their invariants, the tag resolver, the link manager, the garbage
//! collector, and the query operations.

use vstd::prelude::*;

use crate::models::{CreateNoteRequest, Note, NoteWithTags, StoreError, Tag, UpdateNoteRequest};
use crate::order::{
    distinct_names, insert_name_sorted, lex_le, name_in, names_set, sorted_names,
};

verus! {

/// One row of the note-tag association table.
#[derive(Debug, Clone, Copy, PartialEq, Eq, Structural)]
pub struct Link {
    pub note_id: i64,
    pub tag_id: i64,
}

/// The persisted state: three tables and the two id counters.
pub struct Store {
    pub notes: Vec<Note>,
    pub tags: Vec<Tag>,
    pub links: Vec<Link>,
    pub next_note_id: i64,
    pub next_tag_id: i64,
}

impl Store {
    /// Note rows are in creation order with strictly increasing, not yet
    /// reissued identifiers.
    pub open spec fn notes_ok(self) -> bool {
        &&& forall|i: int, j: int|
            0 <= i < j < self.notes@.len() ==> #[trigger] self.notes@[i].id < #[trigger] self.notes@[j].id
        &&& forall|i: int|
            0 <= i < self.notes@.len() ==> 1 <= (#[trigger] self.notes@[i].id) < self.next_note_id
    }

    /// Tag rows carry unique identifiers and unique names.
    pub open spec fn tags_ok(self) -> bool {
        &&& forall|i: int, j: int|
            0 <= i < j < self.tags@.len() ==> (#[trigger] self.tags@[i].id) != (
            #[trigger] self.tags@[j].id)
        &&& forall|i: int, j: int|
            0 <= i < j < self.tags@.len() ==> (#[trigger] self.tags@[i].name@) != (
            #[trigger] self.tags@[j].name@)
        &&& forall|i: int|
            0 <= i < self.tags@.len() ==> 1 <= (#[trigger] self.tags@[i].id) < self.next_tag_id
    }

    /// Link pairs are unique and reference existing rows on both sides.
    pub open spec fn links_ok(self) -> bool {
        &&& forall|i: int, j: int|
            0 <= i < j < self.links@.len() ==> (#[trigger] self.links@[i]) != (
            #[trigger] self.links@[j])
        &&& forall|i: int|
            0 <= i < self.links@.len() ==> self.has_note((#[trigger] self.links@[i]).note_id as int)
                && self.has_tag_id(self.links@[i].tag_id as int)
    }

    /// Identifier counters start at one and stay ahead of every issued id.
    pub open spec fn counters_ok(self) -> bool {
        1 <= self.next_note_id && 1 <= self.next_tag_id
    }

    /// The structural invariant of the three tables.
    pub open spec fn wf_core(self) -> bool {
        self.notes_ok() && self.tags_ok() && self.links_ok() && self.counters_ok()
    }

    /// A tag identifier that some link references.
    pub open spec fn tag_in_use(self, tid: int) -> bool {
        exists|k: int| 0 <= k < self.links@.len() && (#[trigger] self.links@[k]).tag_id == tid
    }

    /// No tag row is an orphan: every tag is carried by at least one note.
    pub open spec fn no_orphan_tags(self) -> bool {
        forall|i: int|
            0 <= i < self.tags@.len() ==> self.tag_in_use((#[trigger] self.tags@[i]).id as int)
    }

    /// The full invariant that every public operation preserves.
    pub open spec fn wf(self) -> bool {
        self.wf_core() && self.no_orphan_tags()
    }

    /// A note with this identifier exists.
    pub open spec fn has_note(self, id: int) -> bool {
        exists|i: int| 0 <= i < self.notes@.len() && (#[trigger] self.notes@[i]).id == id
    }

    /// The row index of the note with this identifier.
    pub open spec fn note_idx(self, id: int) -> int {
        choose|i: int| 0 <= i < self.notes@.len() && (#[trigger] self.notes@[i]).id == id
    }

    /// The content of the note with this identifier.
    pub open spec fn note_content(self, id: int) -> Seq<char> {
        self.notes@[self.note_idx(id)].content@
    }

    /// The creation timestamp of the note with this identifier.
    pub open spec fn note_created(self, id: int) -> Option<Seq<char>> {
        crate::models::opt_view(self.notes@[self.note_idx(id)].created_at)
    }

    /// The last-update timestamp of the note with this identifier.
    pub open spec fn note_updated(self, id: int) -> Option<Seq<char>> {
        crate::models::opt_view(self.notes@[self.note_idx(id)].updated_at)
    }

    /// The set of existing note identifiers.
    pub open spec fn note_ids(self) -> Set<int> {
        Set::new(|id: int| self.has_note(id))
    }

    /// A tag with this identifier exists.
    pub open spec fn has_tag_id(self, tid: int) -> bool {
        exists|i: int| 0 <= i < self.tags@.len() && (#[trigger] self.tags@[i]).id == tid
    }

    /// The row index of the tag with this identifier.
    pub open spec fn tag_idx(self, tid: int) -> int {
        choose|i: int| 0 <= i < self.tags@.len() && (#[trigger] self.tags@[i]).id == tid
    }

    /// The name of the tag with this identifier.
    pub open spec fn tag_name(self, tid: int) -> Seq<char> {
        self.tags@[self.tag_idx(tid)].name@
    }

    /// A tag with this name exists.
    pub open spec fn has_tag_name(self, n: Seq<char>) -> bool {
        exists|i: int| 0 <= i < self.tags@.len() && (#[trigger] self.tags@[i]).name@ == n
    }

    /// The row index of the tag with this name.
    pub open spec fn tag_idx_by_name(self, n: Seq<char>) -> int {
        choose|i: int| 0 <= i < self.tags@.len() && (#[trigger] self.tags@[i]).name@ == n
    }

    /// The identifier of the tag with this name.
    pub open spec fn tag_id_of(self, n: Seq<char>) -> int {
        self.tags@[self.tag_idx_by_name(n)].id as int
    }

    /// The set of existing tag names.
    pub open spec fn tag_names(self) -> Set<Seq<char>> {
        Set::new(|n: Seq<char>| self.has_tag_name(n))
    }

    /// A link row from this note to this tag exists.
    pub open spec fn linked(self, nid: int, tid: int) -> bool {
        exists|k: int|
            0 <= k < self.links@.len() && (#[trigger] self.links@[k]).note_id == nid
                && self.links@[k].tag_id == tid
    }

    /// The note carries a tag of this name.
    pub open spec fn note_has_tag(self, nid: int, n: Seq<char>) -> bool {
        self.has_tag_name(n) && self.linked(nid, self.tag_id_of(n))
    }

    /// The set of tag names carried by a note.
    pub open spec fn tags_of(self, nid: int) -> Set<Seq<char>> {
        Set::new(|n: Seq<char>| self.note_has_tag(nid, n))
    }

    /// The tag names carried by at least one note other than `id`.
    pub open spec fn tags_used_except(self, id: int) -> Set<Seq<char>> {
        Set::new(
            |n: Seq<char>|
                exists|m: int| #[trigger]
                    self.has_note(m) && m != id && self.tags_of(m).contains(n),
        )
    }

    /// All notes other than `id` read the same in both states: same rows and
    /// same tag sets.
    pub open spec fn other_notes_unchanged(self, post: Store, id: int) -> bool {
        forall|m: int|
            #![trigger self.has_note(m)]
            #![trigger post.has_note(m)]
            m != id ==> {
                &&& self.has_note(m) == post.has_note(m)
                &&& (self.has_note(m) ==> {
                    &&& post.note_content(m) == self.note_content(m)
                    &&& post.note_created(m) == self.note_created(m)
                    &&& post.note_updated(m) == self.note_updated(m)
                    &&& post.tags_of(m) =~= self.tags_of(m)
                })
            }
    }

    /// The note with a given identifier is unique.
    pub proof fn lemma_note_idx(self, id: int)
        requires
            self.wf_core(),
            self.has_note(id),
        ensures
            0 <= self.note_idx(id) < self.notes@.len(),
            self.notes@[self.note_idx(id)].id == id,
            forall|i: int|
                0 <= i < self.notes@.len() && (#[trigger] self.notes@[i]).id == id ==> i
                    == self.note_idx(id),
    {
        let w = self.note_idx(id);
        assert(0 <= w < self.notes@.len() && self.notes@[w].id == id);
        assert forall|i: int|
            0 <= i < self.notes@.len() && (#[trigger] self.notes@[i]).id == id implies i == w by {
            if i < w {
                assert(self.notes@[i].id < self.notes@[w].id);
            } else if i > w {
                assert(self.notes@[w].id < self.notes@[i].id);
            }
        }
    }

    /// The tag with a given identifier is unique.
    pub proof fn lemma_tag_idx(self, tid: int)
        requires
            self.wf_core(),
            self.has_tag_id(tid),
        ensures
            0 <= self.tag_idx(tid) < self.tags@.len(),
            self.tags@[self.tag_idx(tid)].id == tid,
            forall|i: int|
                0 <= i < self.tags@.len() && (#[trigger] self.tags@[i]).id == tid ==> i
                    == self.tag_idx(tid),
    {
        let w = self.tag_idx(tid);
        assert(0 <= w < self.tags@.len() && self.tags@[w].id == tid);
        assert forall|i: int|
            0 <= i < self.tags@.len() && (#[trigger] self.tags@[i]).id == tid implies i == w by {
            if i < w {
                assert(self.tags@[i].id != self.tags@[w].id);
            } else if i > w {
                assert(self.tags@[w].id != self.tags@[i].id);
            }
        }
    }

    /// The tag with a given name is unique, and name and identifier pick the
    /// same row.
    pub proof fn lemma_tag_idx_by_name(self, n: Seq<char>)
        requires
            self.wf_core(),
            self.has_tag_name(n),
        ensures
            0 <= self.tag_idx_by_name(n) < self.tags@.len(),
            self.tags@[self.tag_idx_by_name(n)].name@ == n,
            forall|i: int|
                0 <= i < self.tags@.len() && (#[trigger] self.tags@[i]).name@ == n ==> i
                    == self.tag_idx_by_name(n),
            self.has_tag_id(self.tag_id_of(n)),
            self.tag_idx(self.tag_id_of(n)) == self.tag_idx_by_name(n),
            self.tag_name(self.tag_id_of(n)) == n,
    {
        let w = self.tag_idx_by_name(n);
        assert(0 <= w < self.tags@.len() && self.tags@[w].name@ == n);
        assert forall|i: int|
            0 <= i < self.tags@.len() && (#[trigger] self.tags@[i]).name@ == n implies i == w by {
            if i < w {
                assert(self.tags@[i].name@ != self.tags@[w].name@);
            } else if i > w {
                assert(self.tags@[w].name@ != self.tags@[i].name@);
            }
        }
        assert(self.has_tag_id(self.tags@[w].id as int));
        self.lemma_tag_idx(self.tags@[w].id as int);
    }

    /// A name attached to some existing tag row is in `tag_names`, and its
    /// row is the one `tag_idx_by_name` picks.
    pub proof fn lemma_tag_row_name(self, i: int)
        requires
            self.wf_core(),
            0 <= i < self.tags@.len(),
        ensures
            self.has_tag_name(self.tags@[i].name@),
            self.tag_idx_by_name(self.tags@[i].name@) == i,
            self.tag_id_of(self.tags@[i].name@) == self.tags@[i].id as int,
    {
        assert(self.has_tag_name(self.tags@[i].name@));
        self.lemma_tag_idx_by_name(self.tags@[i].name@);
    }

    /// A fresh, empty store.
    pub fn new() -> (s: Store)
        ensures
            s.wf(),
            s.notes@.len() == 0,
            s.tags@.len() == 0,
            s.links@.len() == 0,
            s.next_note_id == 1,
            s.next_tag_id == 1,
            s.note_ids() =~= Set::<int>::empty(),
            s.tag_names() =~= Set::<Seq<char>>::empty(),
    {
        Store {
            notes: Vec::new(),
            tags: Vec::new(),
            links: Vec::new(),
            next_note_id: 1,
            next_tag_id: 1,
        }
    }

    /// The row index of the note with this identifier, if any.
    #[verifier::loop_isolation(false)]
    fn find_note(&self, id: i64) -> (r: Option<usize>)
        requires
            self.wf_core(),
        ensures
            r is Some <==> self.has_note(id as int),
            r is Some ==> r->0 == self.note_idx(id as int) && r->0 < self.notes@.len()
                && self.notes@[r->0 as int].id == id,
    {
        let mut i: usize = 0;
        while i < self.notes.len()
            invariant
                i <= self.notes@.len(),
                forall|j: int| 0 <= j < i ==> (#[trigger] self.notes@[j]).id != id,
            decreases self.notes@.len() - i,
        {
            if self.notes[i].id == id {
                proof {
                    self.lemma_note_idx(id as int);
                }
                return Some(i);
            }
            i = i + 1;
        }
        None
    }

    /// The row index of the tag with this identifier, if any.
    #[verifier::loop_isolation(false)]
    fn find_tag_by_id(&self, tid: i64) -> (r: Option<usize>)
        requires
            self.wf_core(),
        ensures
            r is Some <==> self.has_tag_id(tid as int),
            r is Some ==> r->0 == self.tag_idx(tid as int) && r->0 < self.tags@.len()
                && self.tags@[r->0 as int].id == tid,
    {
        let mut i: usize = 0;
        while i < self.tags.len()
            invariant
                i <= self.tags@.len(),
                forall|j: int| 0 <= j < i ==> (#[trigger] self.tags@[j]).id != tid,
            decreases self.tags@.len() - i,
        {
            if self.tags[i].id == tid {
                proof {
                    self.lemma_tag_idx(tid as int);
                }
                return Some(i);
            }
            i = i + 1;
        }
        None
    }

    /// The row index of the tag with this name, if any.
    #[verifier::loop_isolation(false)]
    fn find_tag_by_name(&self, name: &String) -> (r: Option<usize>)
        requires
            self.wf_core(),
        ensures
            r is Some <==> self.has_tag_name(name@),
            r is Some ==> r->0 == self.tag_idx_by_name(name@) && r->0 < self.tags@.len()
                && self.tags@[r->0 as int].name@ == name@,
    {
        let mut i: usize = 0;
        while i < self.tags.len()
            invariant
                i <= self.tags@.len(),
                forall|j: int| 0 <= j < i ==> (#[trigger] self.tags@[j]).name@ != name@,
            decreases self.tags@.len() - i,
        {
            if self.tags[i].name == *name {
                proof {
                    self.lemma_tag_idx_by_name(name@);
                }
                return Some(i);
            }
            i = i + 1;
        }
        None
    }

    /// Whether a link row from this note to this tag exists.
    #[verifier::loop_isolation(false)]
    fn link_exists(&self, nid: i64, tid: i64) -> (r: bool)
        ensures
            r == self.linked(nid as int, tid as int),
    {
        let mut k: usize = 0;
        while k < self.links.len()
            invariant
                k <= self.links@.len(),
                forall|j: int|
                    0 <= j < k ==> !((#[trigger] self.links@[j]).note_id == nid
                        && self.links@[j].tag_id == tid),
            decreases self.links@.len() - k,
        {
            if self.links[k].note_id == nid && self.links[k].tag_id == tid {
                return true;
            }
            k = k + 1;
        }
        false
    }

    /// Whether any link references this tag.
    #[verifier::loop_isolation(false)]
    fn tag_used(&self, tid: i64) -> (r: bool)
        ensures
            r == self.tag_in_use(tid as int),
    {
        let mut k: usize = 0;
        while k < self.links.len()
            invariant
                k <= self.links@.len(),
                forall|j: int| 0 <= j < k ==> (#[trigger] self.links@[j]).tag_id != tid,
            decreases self.links@.len() - k,
        {
            if self.links[k].tag_id == tid {
                return true;
            }
            k = k + 1;
        }
        false
    }

    /// Inserts the link if the pair is not present yet; duplicates collapse.
    #[verifier::loop_isolation(false)]
    fn add_link(&mut self, nid: i64, tid: i64)
        requires
            old(self).wf_core(),
            old(self).has_note(nid as int),
            old(self).has_tag_id(tid as int),
        ensures
            final(self).wf_core(),
            final(self).notes@ == old(self).notes@,
            final(self).tags@ == old(self).tags@,
            final(self).next_note_id == old(self).next_note_id,
            final(self).next_tag_id == old(self).next_tag_id,
            old(self).links@.is_prefix_of(final(self).links@),
            final(self).linked(nid as int, tid as int),
            forall|n2: int, t2: int|
                #![trigger final(self).linked(n2, t2)]
                #![trigger old(self).linked(n2, t2)]
                final(self).linked(n2, t2) <==> (old(self).linked(n2, t2) || (n2 == nid as int && t2
                    == tid as int)),
            forall|t: int| old(self).tag_in_use(t) ==> final(self).tag_in_use(t),
            final(self).tag_in_use(tid as int),
            final(self).tags_of(nid as int) =~= old(self).tags_of(nid as int).insert(
                old(self).tag_name(tid as int),
            ),
            forall|m: int|
                m != nid as int ==> #[trigger] final(self).tags_of(m) =~= old(self).tags_of(m),
    {
        let ghost pre = *self;
        if !self.link_exists(nid, tid) {
            self.links.push(Link { note_id: nid, tag_id: tid });
            proof {
                assert(self.links@[self.links@.len() - 1] == Link { note_id: nid, tag_id: tid });
                assert forall|i: int, j: int| 0 <= i < j < self.links@.len() implies (
                #[trigger] self.links@[i]) != (#[trigger] self.links@[j]) by {
                    if j == self.links@.len() - 1 {
                        assert(!pre.linked(nid as int, tid as int));
                        assert(pre.links@[i].note_id == nid && pre.links@[i].tag_id == tid
                            ==> pre.linked(nid as int, tid as int));
                    }
                }
                assert forall|i: int| 0 <= i < self.links@.len() implies self.has_note(
                    (#[trigger] self.links@[i]).note_id as int,
                ) && self.has_tag_id(self.links@[i].tag_id as int) by {
                    if i < self.links@.len() - 1 {
                        assert(pre.has_note(pre.links@[i].note_id as int));
                        assert(pre.has_tag_id(pre.links@[i].tag_id as int));
                    }
                    let wn = choose|w: int|
                        0 <= w < pre.notes@.len() && (#[trigger] pre.notes@[w]).id
                            == self.links@[i].note_id;
                    let wt = choose|w: int|
                        0 <= w < pre.tags@.len() && (#[trigger] pre.tags@[w]).id
                            == self.links@[i].tag_id;
                    assert(self.notes@[wn].id == self.links@[i].note_id);
                    assert(self.tags@[wt].id == self.links@[i].tag_id);
                }
            }
        }
        proof {
            assert forall|n2: int, t2: int|
                #![trigger self.linked(n2, t2)]
                #![trigger pre.linked(n2, t2)]
                self.linked(n2, t2) <==> (pre.linked(n2, t2) || (n2 == nid as int && t2 == tid
                    as int)) by {
                if pre.linked(n2, t2) {
                    let k = choose|k: int|
                        0 <= k < pre.links@.len() && (#[trigger] pre.links@[k]).note_id == n2
                            && pre.links@[k].tag_id == t2;
                    assert(self.links@[k].note_id == n2 && self.links@[k].tag_id == t2);
                }
                if self.linked(n2, t2) {
                    let k = choose|k: int|
                        0 <= k < self.links@.len() && (#[trigger] self.links@[k]).note_id == n2
                            && self.links@[k].tag_id == t2;
                    if k < pre.links@.len() {
                        assert(pre.linked(n2, t2));
                    }
                }
            }
            assert(self.linked(nid as int, tid as int));
            if !pre.tag_in_use(tid as int) {
                assert(self.links@[self.links@.len() - 1].tag_id == tid);
            }
            assert forall|t: int| pre.tag_in_use(t) implies self.tag_in_use(t) by {
                let k = choose|k: int|
                    0 <= k < pre.links@.len() && (#[trigger] pre.links@[k]).tag_id == t;
                assert(self.links@[k].tag_id == t);
            }
            pre.lemma_tag_idx(tid as int);
            pre.lemma_tag_row_name(pre.tag_idx(tid as int));
            assert forall|m: int, n: Seq<char>|
                #![trigger self.tags_of(m).contains(n)]
                true implies self.tags_of(m).contains(n) == (pre.tags_of(m).contains(n) || (m == nid
                as int && n == pre.tag_name(tid as int))) by {
                if self.tags_of(m).contains(n) {
                    if !(pre.tags_of(m).contains(n)) {
                        assert(self.linked(m, self.tag_id_of(n)));
                        assert(m == nid as int && self.tag_id_of(n) == tid as int);
                        pre.lemma_tag_idx_by_name(n);
                    }
                } else {
                    assert(!pre.tags_of(m).contains(n));
                    if m == nid as int && n == pre.tag_name(tid as int) {
                        assert(pre.tag_id_of(n) == tid as int);
                        assert(self.note_has_tag(m, n));
                    }
                }
            }
            assert(self.tags_of(nid as int) =~= pre.tags_of(nid as int).insert(
                pre.tag_name(tid as int),
            ));
            assert forall|m: int| m != nid as int implies #[trigger] self.tags_of(m)
                =~= pre.tags_of(m) by {}
        }
    }

    /// Deletes every link of this note.
    #[verifier::loop_isolation(false)]
    fn remove_links_of_note(&mut self, nid: i64)
        requires
            old(self).wf_core(),
        ensures
            final(self).wf_core(),
            final(self).notes@ == old(self).notes@,
            final(self).tags@ == old(self).tags@,
            final(self).next_note_id == old(self).next_note_id,
            final(self).next_tag_id == old(self).next_tag_id,
            forall|n2: int, t2: int|
                #![trigger final(self).linked(n2, t2)]
                #![trigger old(self).linked(n2, t2)]
                final(self).linked(n2, t2) <==> (old(self).linked(n2, t2) && n2 != nid as int),
            forall|t: int| final(self).tag_in_use(t) ==> old(self).tag_in_use(t),
            final(self).tags_of(nid as int) =~= Set::<Seq<char>>::empty(),
            forall|m: int|
                m != nid as int ==> #[trigger] final(self).tags_of(m) =~= old(self).tags_of(m),
    {
        let ghost pre = *self;
        let mut kept: Vec<Link> = Vec::new();
        let ghost mut src: Seq<int> = Seq::empty();
        let mut k: usize = 0;
        while k < self.links.len()
            invariant
                k <= self.links@.len(),
                kept@.len() == src.len(),
                forall|p: int| 0 <= p < src.len() ==> 0 <= #[trigger] src[p] < k,
                forall|p: int, q: int| 0 <= p < q < src.len() ==> src[p] < src[q],
                forall|p: int|
                    0 <= p < src.len() ==> (#[trigger] kept@[p]) == self.links@[src[p]]
                        && kept@[p].note_id != nid,
                forall|j: int|
                    0 <= j < k && (#[trigger] self.links@[j]).note_id != nid ==> exists|p: int|
                        0 <= p < src.len() && #[trigger] src[p] == j,
            decreases self.links@.len() - k,
        {
            if self.links[k].note_id != nid {
                kept.push(self.links[k]);
                proof {
                    let src0 = src;
                    src = src.push(k as int);
                    assert forall|j: int|
                        0 <= j < k + 1 && (#[trigger] self.links@[j]).note_id != nid implies exists|
                    p: int| 0 <= p < src.len() && #[trigger] src[p] == j by {
                        if j == k {
                            assert(src[src.len() - 1] == j);
                        } else {
                            let p = choose|p: int| 0 <= p < src0.len() && #[trigger] src0[p] == j;
                            assert(src[p] == j);
                        }
                    }
                }
            }
            k = k + 1;
        }
        self.links = kept;
        proof {
            self.lemma_after_link_filter(pre, src, nid as int);
        }
    }

    /// After `links` was replaced by the rows not touching note `nid`
    /// (listed by source index in `src`), the view-level facts follow.
    proof fn lemma_after_link_filter(self, pre: Store, src: Seq<int>, nid: int)
        requires
            pre.wf_core(),
            self.notes@ == pre.notes@,
            self.tags@ == pre.tags@,
            self.next_note_id == pre.next_note_id,
            self.next_tag_id == pre.next_tag_id,
            self.links@.len() == src.len(),
            forall|p: int| 0 <= p < src.len() ==> 0 <= #[trigger] src[p] < pre.links@.len(),
            forall|p: int, q: int| 0 <= p < q < src.len() ==> src[p] < src[q],
            forall|p: int|
                0 <= p < src.len() ==> (#[trigger] self.links@[p]) == pre.links@[src[p]]
                    && self.links@[p].note_id != nid,
            forall|j: int|
                0 <= j < pre.links@.len() && (#[trigger] pre.links@[j]).note_id != nid ==> exists|
                p: int| 0 <= p < src.len() && #[trigger] src[p] == j,
        ensures
            self.wf_core(),
            forall|n2: int, t2: int|
                #![trigger self.linked(n2, t2)]
                #![trigger pre.linked(n2, t2)]
                self.linked(n2, t2) <==> (pre.linked(n2, t2) && n2 != nid),
            forall|t: int| self.tag_in_use(t) ==> pre.tag_in_use(t),
            self.tags_of(nid) =~= Set::<Seq<char>>::empty(),
            forall|m: int| m != nid ==> #[trigger] self.tags_of(m) =~= pre.tags_of(m),
    {
        assert forall|n2: int, t2: int|
            #![trigger self.linked(n2, t2)]
            #![trigger pre.linked(n2, t2)]
            self.linked(n2, t2) <==> (pre.linked(n2, t2) && n2 != nid) by {
            if self.linked(n2, t2) {
                let p = choose|p: int|
                    0 <= p < self.links@.len() && (#[trigger] self.links@[p]).note_id == n2
                        && self.links@[p].tag_id == t2;
                assert(pre.links@[src[p]].note_id == n2 && pre.links@[src[p]].tag_id == t2);
                assert(pre.linked(n2, t2));
            }
            if pre.linked(n2, t2) && n2 != nid {
                let j = choose|j: int|
                    0 <= j < pre.links@.len() && (#[trigger] pre.links@[j]).note_id == n2
                        && pre.links@[j].tag_id == t2;
                let p = choose|p: int| 0 <= p < src.len() && #[trigger] src[p] == j;
                assert(self.links@[p].note_id == n2 && self.links@[p].tag_id == t2);
            }
        }
        assert forall|t: int| self.tag_in_use(t) implies pre.tag_in_use(t) by {
            let p = choose|p: int|
                0 <= p < self.links@.len() && (#[trigger] self.links@[p]).tag_id == t;
            assert(pre.links@[src[p]].tag_id == t);
        }
        assert forall|i: int, j: int| 0 <= i < j < self.links@.len() implies (
        #[trigger] self.links@[i]) != (#[trigger] self.links@[j]) by {
            assert(src[i] < src[j]);
            assert(pre.links@[src[i]] != pre.links@[src[j]]);
        }
        assert forall|i: int| 0 <= i < self.links@.len() implies self.has_note(
            (#[trigger] self.links@[i]).note_id as int,
        ) && self.has_tag_id(self.links@[i].tag_id as int) by {
            assert(pre.has_note(pre.links@[src[i]].note_id as int));
            assert(pre.has_tag_id(pre.links@[src[i]].tag_id as int));
            let wn = choose|w: int|
                0 <= w < pre.notes@.len() && (#[trigger] pre.notes@[w]).id
                    == self.links@[i].note_id;
            let wt = choose|w: int|
                0 <= w < pre.tags@.len() && (#[trigger] pre.tags@[w]).id == self.links@[i].tag_id;
            assert(self.notes@[wn].id == self.links@[i].note_id);
            assert(self.tags@[wt].id == self.links@[i].tag_id);
        }
        assert forall|m: int, n: Seq<char>|
            #![trigger self.tags_of(m).contains(n)]
            true implies self.tags_of(m).contains(n) == (pre.tags_of(m).contains(n) && m != nid) by {
            if self.has_tag_name(n) {
                pre.lemma_tag_idx_by_name(n);
                assert(self.tag_idx_by_name(n) == pre.tag_idx_by_name(n)) by {
                    let w = choose|i: int|
                        0 <= i < self.tags@.len() && (#[trigger] self.tags@[i]).name@ == n;
                    assert(pre.tags@[self.tag_idx_by_name(n)].name@ == n);
                }
                assert(self.tag_id_of(n) == pre.tag_id_of(n));
            }
            if pre.has_tag_name(n) {
                pre.lemma_tag_idx_by_name(n);
                assert(self.has_tag_name(n)) by {
                    assert(self.tags@[pre.tag_idx_by_name(n)].name@ == n);
                }
            }
        }
        assert(self.tags_of(nid) =~= Set::<Seq<char>>::empty());
        assert forall|m: int| m != nid implies #[trigger] self.tags_of(m) =~= pre.tags_of(m) by {}
    }

    /// Deletes every link that references this tag.
    #[verifier::loop_isolation(false)]
    fn remove_links_of_tag(&mut self, tid: i64)
        requires
            old(self).wf_core(),
            old(self).has_tag_id(tid as int),
        ensures
            final(self).wf_core(),
            final(self).notes@ == old(self).notes@,
            final(self).tags@ == old(self).tags@,
            final(self).next_note_id == old(self).next_note_id,
            final(self).next_tag_id == old(self).next_tag_id,
            forall|n2: int, t2: int|
                #![trigger final(self).linked(n2, t2)]
                #![trigger old(self).linked(n2, t2)]
                final(self).linked(n2, t2) <==> (old(self).linked(n2, t2) && t2 != tid as int),
            forall|t: int| final(self).tag_in_use(t) ==> old(self).tag_in_use(t),
            forall|t: int|
                t != tid as int && old(self).tag_in_use(t) ==> final(self).tag_in_use(t),
            !final(self).tag_in_use(tid as int),
            forall|m: int|
                #[trigger] final(self).tags_of(m) =~= old(self).tags_of(m).remove(
                    old(self).tag_name(tid as int),
                ),
    {
        let ghost pre = *self;
        let mut kept: Vec<Link> = Vec::new();
        let ghost mut src: Seq<int> = Seq::empty();
        let mut k: usize = 0;
        while k < self.links.len()
            invariant
                k <= self.links@.len(),
                kept@.len() == src.len(),
                forall|p: int| 0 <= p < src.len() ==> 0 <= #[trigger] src[p] < k,
                forall|p: int, q: int| 0 <= p < q < src.len() ==> src[p] < src[q],
                forall|p: int|
                    0 <= p < src.len() ==> (#[trigger] kept@[p]) == self.links@[src[p]]
                        && kept@[p].tag_id != tid,
                forall|j: int|
                    0 <= j < k && (#[trigger] self.links@[j]).tag_id != tid ==> exists|p: int|
                        0 <= p < src.len() && #[trigger] src[p] == j,
            decreases self.links@.len() - k,
        {
            if self.links[k].tag_id != tid {
                kept.push(self.links[k]);
                proof {
                    let src0 = src;
                    src = src.push(k as int);
                    assert forall|j: int|
                        0 <= j < k + 1 && (#[trigger] self.links@[j]).tag_id != tid implies exists|
                    p: int| 0 <= p < src.len() && #[trigger] src[p] == j by {
                        if j == k {
                            assert(src[src.len() - 1] == j);
                        } else {
                            let p = choose|p: int| 0 <= p < src0.len() && #[trigger] src0[p] == j;
                            assert(src[p] == j);
                        }
                    }
                }
            }
            k = k + 1;
        }
        self.links = kept;
        proof {
            assert forall|n2: int, t2: int|
                #![trigger self.linked(n2, t2)]
                #![trigger pre.linked(n2, t2)]
                self.linked(n2, t2) <==> (pre.linked(n2, t2) && t2 != tid as int) by {
                if self.linked(n2, t2) {
                    let p = choose|p: int|
                        0 <= p < self.links@.len() && (#[trigger] self.links@[p]).note_id == n2
                            && self.links@[p].tag_id == t2;
                    assert(pre.links@[src[p]].note_id == n2 && pre.links@[src[p]].tag_id == t2);
                    assert(pre.linked(n2, t2));
                }
                if pre.linked(n2, t2) && t2 != tid as int {
                    let j = choose|j: int|
                        0 <= j < pre.links@.len() && (#[trigger] pre.links@[j]).note_id == n2
                            && pre.links@[j].tag_id == t2;
                    let p = choose|p: int| 0 <= p < src.len() && #[trigger] src[p] == j;
                    assert(self.links@[p].note_id == n2 && self.links@[p].tag_id == t2);
                }
            }
            assert forall|t: int| self.tag_in_use(t) implies pre.tag_in_use(t) by {
                let p = choose|p: int|
                    0 <= p < self.links@.len() && (#[trigger] self.links@[p]).tag_id == t;
                assert(pre.links@[src[p]].tag_id == t);
            }
            assert forall|t: int| t != tid as int && pre.tag_in_use(t) implies self.tag_in_use(
                t,
            ) by {
                let j = choose|j: int|
                    0 <= j < pre.links@.len() && (#[trigger] pre.links@[j]).tag_id == t;
                let p = choose|p: int| 0 <= p < src.len() && #[trigger] src[p] == j;
                assert(self.links@[p].tag_id == t);
            }
            assert forall|i: int, j: int| 0 <= i < j < self.links@.len() implies (
            #[trigger] self.links@[i]) != (#[trigger] self.links@[j]) by {
                assert(src[i] < src[j]);
                assert(pre.links@[src[i]] != pre.links@[src[j]]);
            }
            assert forall|i: int| 0 <= i < self.links@.len() implies self.has_note(
                (#[trigger] self.links@[i]).note_id as int,
            ) && self.has_tag_id(self.links@[i].tag_id as int) by {
                assert(pre.has_note(pre.links@[src[i]].note_id as int));
                assert(pre.has_tag_id(pre.links@[src[i]].tag_id as int));
                let wn = choose|w: int|
                    0 <= w < pre.notes@.len() && (#[trigger] pre.notes@[w]).id
                        == self.links@[i].note_id;
                let wt = choose|w: int|
                    0 <= w < pre.tags@.len() && (#[trigger] pre.tags@[w]).id
                        == self.links@[i].tag_id;
                assert(self.notes@[wn].id == self.links@[i].note_id);
                assert(self.tags@[wt].id == self.links@[i].tag_id);
            }
            pre.lemma_tag_idx(tid as int);
            pre.lemma_tag_row_name(pre.tag_idx(tid as int));
            assert forall|m: int, n: Seq<char>|
                #![trigger self.tags_of(m).contains(n)]
                true implies self.tags_of(m).contains(n) == (pre.tags_of(m).contains(n) && n
                != pre.tag_name(tid as int)) by {
                if pre.has_tag_name(n) {
                    pre.lemma_tag_idx_by_name(n);
                    assert(self.has_tag_name(n)) by {
                        assert(self.tags@[pre.tag_idx_by_name(n)].name@ == n);
                    }
                    assert(self.tag_idx_by_name(n) == pre.tag_idx_by_name(n)) by {
                        assert(pre.tags@[self.tag_idx_by_name(n)].name@ == n);
                    }
                    assert(self.tag_id_of(n) == pre.tag_id_of(n));
                    if n == pre.tag_name(tid as int) {
                        assert(pre.tag_id_of(n) == tid as int);
                    } else {
                        assert(pre.tag_id_of(n) != tid as int) by {
                            if pre.tag_id_of(n) == tid as int {
                                assert(pre.tag_idx_by_name(n) == pre.tag_idx(tid as int));
                            }
                        }
                    }
                } else {
                    assert(!self.has_tag_name(n)) by {
                        if self.has_tag_name(n) {
                            let w = choose|i: int|
                                0 <= i < self.tags@.len() && (#[trigger] self.tags@[i]).name@ == n;
                            assert(pre.tags@[w].name@ == n);
                        }
                    }
                }
            }
            assert forall|m: int| true implies #[trigger] self.tags_of(m) =~= pre.tags_of(
                m,
            ).remove(pre.tag_name(tid as int)) by {}
        }
    }

    /// The garbage collector: deletes every tag row that no link references.
    #[verifier::loop_isolation(false)]
    pub fn sweep(&mut self)
        requires
            old(self).wf_core(),
        ensures
            final(self).wf(),
            final(self).notes@ == old(self).notes@,
            final(self).links@ == old(self).links@,
            final(self).next_note_id == old(self).next_note_id,
            final(self).next_tag_id == old(self).next_tag_id,
            forall|tid: int|
                #![trigger final(self).has_tag_id(tid)]
                #![trigger old(self).has_tag_id(tid)]
                final(self).has_tag_id(tid) <==> (old(self).has_tag_id(tid) && old(self).tag_in_use(tid)),
            forall|tid: int|
                final(self).has_tag_id(tid) ==> final(self).tag_name(tid) == old(self).tag_name(
                    tid,
                ),
            forall|n: Seq<char>|
                #![trigger final(self).has_tag_name(n)]
                #![trigger old(self).has_tag_name(n)]
                final(self).has_tag_name(n) <==> (old(self).has_tag_name(n) && old(self).tag_in_use(old(self).tag_id_of(n))),
            forall|m: int| #[trigger] final(self).tags_of(m) =~= old(self).tags_of(m),
    {
        let ghost pre = *self;
        let mut kept: Vec<Tag> = Vec::new();
        let ghost mut src: Seq<int> = Seq::empty();
        let mut j: usize = 0;
        while j < self.tags.len()
            invariant
                j <= self.tags@.len(),
                kept@.len() == src.len(),
                forall|p: int| 0 <= p < src.len() ==> 0 <= #[trigger] src[p] < j,
                forall|p: int, q: int| 0 <= p < q < src.len() ==> src[p] < src[q],
                forall|p: int|
                    0 <= p < src.len() ==> (#[trigger] kept@[p]).id == self.tags@[src[p]].id
                        && kept@[p].name == self.tags@[src[p]].name && self.tag_in_use(
                        kept@[p].id as int,
                    ),
                forall|i: int|
                    0 <= i < j && self.tag_in_use((#[trigger] self.tags@[i]).id as int) ==> exists|
                    p: int| 0 <= p < src.len() && #[trigger] src[p] == i,
            decreases self.tags@.len() - j,
        {
            let used = self.tag_used(self.tags[j].id);
            if used {
                let row = Tag { id: self.tags[j].id, name: self.tags[j].name.clone() };
                kept.push(row);
                proof {
                    let src0 = src;
                    src = src.push(j as int);
                    assert forall|i: int|
                        0 <= i < j + 1 && self.tag_in_use(
                            (#[trigger] self.tags@[i]).id as int,
                        ) implies exists|p: int| 0 <= p < src.len() && #[trigger] src[p] == i by {
                        if i == j {
                            assert(src[src.len() - 1] == i);
                        } else {
                            let p = choose|p: int| 0 <= p < src0.len() && #[trigger] src0[p] == i;
                            assert(src[p] == i);
                        }
                    }
                }
            }
            j = j + 1;
        }
        self.tags = kept;
        proof {
            assert forall|tid: int|
                #![trigger self.has_tag_id(tid)]
                #![trigger pre.has_tag_id(tid)]
                self.has_tag_id(tid) <==> (pre.has_tag_id(tid) && pre.tag_in_use(tid)) by {
                if self.has_tag_id(tid) {
                    let p = choose|p: int|
                        0 <= p < self.tags@.len() && (#[trigger] self.tags@[p]).id == tid;
                    assert(pre.tags@[src[p]].id == tid);
                    assert(pre.has_tag_id(tid));
                }
                if pre.has_tag_id(tid) && pre.tag_in_use(tid) {
                    let i = choose|i: int|
                        0 <= i < pre.tags@.len() && (#[trigger] pre.tags@[i]).id == tid;
                    let p = choose|p: int| 0 <= p < src.len() && #[trigger] src[p] == i;
                    assert(self.tags@[p].id == tid);
                }
            }
            assert forall|i: int, j2: int| 0 <= i < j2 < self.tags@.len() implies (
            #[trigger] self.tags@[i].id) != (#[trigger] self.tags@[j2].id) by {
                assert(src[i] < src[j2]);
                assert(pre.tags@[src[i]].id != pre.tags@[src[j2]].id);
            }
            assert forall|i: int, j2: int| 0 <= i < j2 < self.tags@.len() implies (
            #[trigger] self.tags@[i].name@) != (#[trigger] self.tags@[j2].name@) by {
                assert(src[i] < src[j2]);
                assert(pre.tags@[src[i]].name@ != pre.tags@[src[j2]].name@);
            }
            assert forall|i: int| 0 <= i < self.tags@.len() implies 1 <= (
            #[trigger] self.tags@[i].id) < self.next_tag_id by {
                assert(1 <= pre.tags@[src[i]].id < pre.next_tag_id);
            }
            assert forall|i: int| 0 <= i < self.links@.len() implies self.has_note(
                (#[trigger] self.links@[i]).note_id as int,
            ) && self.has_tag_id(self.links@[i].tag_id as int) by {
                assert(pre.has_note(pre.links@[i].note_id as int));
                let wn = choose|w: int|
                    0 <= w < pre.notes@.len() && (#[trigger] pre.notes@[w]).id
                        == self.links@[i].note_id;
                assert(self.notes@[wn].id == self.links@[i].note_id);
                assert(pre.has_tag_id(pre.links@[i].tag_id as int));
                assert(pre.tag_in_use(pre.links@[i].tag_id as int));
            }
            assert forall|i: int| 0 <= i < self.tags@.len() implies self.tag_in_use(
                (#[trigger] self.tags@[i]).id as int,
            ) by {}
            assert forall|tid: int| self.has_tag_id(tid) implies self.tag_name(tid)
                == pre.tag_name(tid) by {
                self.lemma_tag_idx(tid);
                pre.lemma_tag_idx(tid);
                let p = self.tag_idx(tid);
                assert(pre.tags@[src[p]].id == tid);
                assert(src[p] == pre.tag_idx(tid));
                assert(self.tags@[p].name@ == pre.tags@[src[p]].name@);
            }
            assert forall|n: Seq<char>|
                #![trigger self.has_tag_name(n)]
                #![trigger pre.has_tag_name(n)]
                self.has_tag_name(n) <==> (pre.has_tag_name(n) && pre.tag_in_use(
                    pre.tag_id_of(n),
                )) by {
                if self.has_tag_name(n) {
                    let p = choose|p: int|
                        0 <= p < self.tags@.len() && (#[trigger] self.tags@[p]).name@ == n;
                    assert(pre.tags@[src[p]].name@ == n);
                    assert(pre.has_tag_name(n));
                    pre.lemma_tag_idx_by_name(n);
                    assert(src[p] == pre.tag_idx_by_name(n));
                    assert(pre.tag_in_use(pre.tags@[src[p]].id as int));
                }
                if pre.has_tag_name(n) && pre.tag_in_use(pre.tag_id_of(n)) {
                    pre.lemma_tag_idx_by_name(n);
                    let i = pre.tag_idx_by_name(n);
                    let p = choose|p: int| 0 <= p < src.len() && #[trigger] src[p] == i;
                    assert(self.tags@[p].name@ == n);
                }
            }
            assert forall|m: int, n: Seq<char>|
                #![trigger self.tags_of(m).contains(n)]
                true implies self.tags_of(m).contains(n) == pre.tags_of(m).contains(n) by {
                if pre.tags_of(m).contains(n) {
                    pre.lemma_tag_idx_by_name(n);
                    assert(pre.tag_in_use(pre.tag_id_of(n)));
                    assert(self.has_tag_name(n));
                    self.lemma_tag_idx_by_name(n);
                    assert(pre.tags@[src[self.tag_idx_by_name(n)]].name@ == n);
                    assert(src[self.tag_idx_by_name(n)] == pre.tag_idx_by_name(n));
                    assert(self.tag_id_of(n) == pre.tag_id_of(n));
                    assert(self.note_has_tag(m, n));
                }
                if self.tags_of(m).contains(n) {
                    self.lemma_tag_idx_by_name(n);
                    assert(pre.tags@[src[self.tag_idx_by_name(n)]].name@ == n);
                    assert(pre.has_tag_name(n));
                    pre.lemma_tag_idx_by_name(n);
                    assert(src[self.tag_idx_by_name(n)] == pre.tag_idx_by_name(n));
                    assert(self.tag_id_of(n) == pre.tag_id_of(n));
                    assert(pre.note_has_tag(m, n));
                }
            }
            assert forall|m: int| true implies #[trigger] self.tags_of(m) =~= pre.tags_of(m) by {}
        }
    }

    /// The tag resolver: returns the identifier of the tag with this name,
    /// inserting the row first when the name is new.
    #[verifier::loop_isolation(false)]
    pub fn resolve_tag(&mut self, name: &String) -> (tid: i64)
        requires
            old(self).wf_core(),
            old(self).next_tag_id < i64::MAX,
        ensures
            final(self).wf_core(),
            final(self).notes@ == old(self).notes@,
            final(self).links@ == old(self).links@,
            final(self).next_note_id == old(self).next_note_id,
            old(self).next_tag_id <= final(self).next_tag_id <= old(self).next_tag_id + 1,
            old(self).tags@.is_prefix_of(final(self).tags@),
            final(self).has_tag_name(name@),
            final(self).has_tag_id(tid as int),
            tid as int == final(self).tag_id_of(name@),
            final(self).tag_name(tid as int) == name@,
            final(self).tag_names() =~= old(self).tag_names().insert(name@),
            old(self).has_tag_name(name@) ==> final(self).tags@ == old(self).tags@ && final(self).next_tag_id == old(self).next_tag_id && tid as int == old(self).tag_id_of(name@),
            !old(self).has_tag_name(name@) ==> final(self).tags@.len() == old(self).tags@.len() + 1
                && tid == old(self).next_tag_id && final(self).next_tag_id == old(self).next_tag_id
                + 1 && !old(self).tag_in_use(tid as int),
            forall|n: Seq<char>|
                #[trigger] old(self).has_tag_name(n) ==> final(self).has_tag_name(n) && final(self).tag_id_of(n) == old(self).tag_id_of(n),
            forall|t: int|
                #[trigger] old(self).has_tag_id(t) ==> final(self).has_tag_id(t) && final(self).tag_name(t) == old(self).tag_name(t),
            forall|m: int| #[trigger] final(self).tags_of(m) =~= old(self).tags_of(m),
    {
        let ghost pre = *self;
        let found = self.find_tag_by_name(name);
        match found {
            Some(i) => {
                let tid = self.tags[i].id;
                proof {
                    pre.lemma_tag_idx_by_name(name@);
                    pre.lemma_tag_row_name(i as int);
                    assert(self.tag_names() =~= pre.tag_names().insert(name@));
                    assert forall|m: int| true implies #[trigger] self.tags_of(m) =~= pre.tags_of(
                        m,
                    ) by {}
                }
                tid
            },
            None => {
                let tid = self.next_tag_id;
                self.tags.push(Tag { id: tid, name: name.clone() });
                self.next_tag_id = tid + 1;
                proof {
                    let last = self.tags@.len() - 1;
                    assert(self.tags@[last].id == tid && self.tags@[last].name@ == name@);
                    assert forall|i: int, j2: int| 0 <= i < j2 < self.tags@.len() implies (
                    #[trigger] self.tags@[i].id) != (#[trigger] self.tags@[j2].id) by {
                        if j2 == last {
                            assert(1 <= pre.tags@[i].id < pre.next_tag_id);
                        }
                    }
                    assert forall|i: int, j2: int| 0 <= i < j2 < self.tags@.len() implies (
                    #[trigger] self.tags@[i].name@) != (#[trigger] self.tags@[j2].name@) by {
                        if j2 == last {
                            assert(!pre.has_tag_name(name@));
                            assert(pre.tags@[i].name@ == name@ ==> pre.has_tag_name(name@));
                        }
                    }
                    assert forall|i: int| 0 <= i < self.links@.len() implies self.has_note(
                        (#[trigger] self.links@[i]).note_id as int,
                    ) && self.has_tag_id(self.links@[i].tag_id as int) by {
                        assert(pre.has_note(pre.links@[i].note_id as int));
                        assert(pre.has_tag_id(pre.links@[i].tag_id as int));
                        let wn = choose|w: int|
                            0 <= w < pre.notes@.len() && (#[trigger] pre.notes@[w]).id
                                == self.links@[i].note_id;
                        let wt = choose|w: int|
                            0 <= w < pre.tags@.len() && (#[trigger] pre.tags@[w]).id
                                == self.links@[i].tag_id;
                        assert(self.notes@[wn].id == self.links@[i].note_id);
                        assert(self.tags@[wt].id == self.links@[i].tag_id);
                    }
                    assert(self.has_tag_name(name@) && self.has_tag_id(tid as int));
                    self.lemma_tag_idx_by_name(name@);
                    self.lemma_tag_idx(tid as int);
                    assert(self.tag_idx_by_name(name@) == last);
                    assert(self.tag_id_of(name@) == tid as int);
                    assert(self.tag_name(tid as int) == name@);
                    assert(!pre.tag_in_use(tid as int)) by {
                        if pre.tag_in_use(tid as int) {
                            let k = choose|k: int|
                                0 <= k < pre.links@.len() && (#[trigger] pre.links@[k]).tag_id
                                    == tid;
                            assert(pre.has_tag_id(tid as int));
                            let w = choose|w: int|
                                0 <= w < pre.tags@.len() && (#[trigger] pre.tags@[w]).id == tid;
                            assert(1 <= pre.tags@[w].id < pre.next_tag_id);
                        }
                    }
                    assert forall|n: Seq<char>| #[trigger]
                        pre.has_tag_name(n) implies self.has_tag_name(n) && self.tag_id_of(n)
                        == pre.tag_id_of(n) by {
                        pre.lemma_tag_idx_by_name(n);
                        let i = pre.tag_idx_by_name(n);
                        assert(self.tags@[i].name@ == n);
                        self.lemma_tag_idx_by_name(n);
                        assert(self.tag_idx_by_name(n) == i);
                    }
                    assert forall|t: int| #[trigger]
                        pre.has_tag_id(t) implies self.has_tag_id(t) && self.tag_name(t)
                        == pre.tag_name(t) by {
                        pre.lemma_tag_idx(t);
                        let i = pre.tag_idx(t);
                        assert(self.tags@[i].id == t);
                        self.lemma_tag_idx(t);
                        assert(self.tag_idx(t) == i);
                    }
                    assert(self.tag_names() =~= pre.tag_names().insert(name@)) by {
                        assert forall|n: Seq<char>| #[trigger]
                            self.has_tag_name(n) implies pre.has_tag_name(n) || n == name@ by {
                            let i = choose|i: int|
                                0 <= i < self.tags@.len() && (#[trigger] self.tags@[i]).name@ == n;
                            if i < last {
                                assert(pre.tags@[i].name@ == n);
                            }
                        }
                    }
                    assert forall|m: int, n: Seq<char>|
                        #![trigger self.tags_of(m).contains(n)]
                        true implies self.tags_of(m).contains(n) == pre.tags_of(m).contains(n) by {
                        if pre.tags_of(m).contains(n) {
                            assert(self.note_has_tag(m, n));
                        }
                        if self.tags_of(m).contains(n) {
                            if n == name@ {
                                assert(self.linked(m, tid as int));
                                let k = choose|k: int|
                                    0 <= k < self.links@.len() && (#[trigger] self.links@[k]).note_id
                                        == m && self.links@[k].tag_id == tid;
                                assert(pre.links@[k].tag_id == tid);
                                assert(pre.tag_in_use(tid as int));
                            } else {
                                let i = choose|i: int|
                                    0 <= i < self.tags@.len() && (#[trigger] self.tags@[i]).name@
                                        == n;
                                assert(i < last);
                                assert(pre.has_tag_name(n));
                                assert(pre.note_has_tag(m, n));
                            }
                        }
                    }
                    assert forall|m: int| true implies #[trigger] self.tags_of(m) =~= pre.tags_of(
                        m,
                    ) by {}
                }
                tid
            },
        }
    }

    /// The alphabetically sorted names of the tags linked to a note.
    /// An unknown note identifier yields the empty vector.
    #[verifier::loop_isolation(false)]
    pub fn get_tags_for_note(&self, note_id: i64) -> (r: Vec<String>)
        requires
            self.wf_core(),
        ensures
            tags_listing(*self, note_id as int, r@),
    {
        let ghost nid = note_id as int;
        let mut result: Vec<String> = Vec::new();
        let mut j: usize = 0;
        while j < self.tags.len()
            invariant
                j <= self.tags@.len(),
                sorted_names(result@),
                distinct_names(result@),
                forall|n: Seq<char>|
                    #[trigger] name_in(result@, n) <==> exists|t: int|
                        0 <= t < j && (#[trigger] self.tags@[t]).name@ == n && self.linked(
                            nid,
                            self.tags@[t].id as int,
                        ),
            decreases self.tags@.len() - j,
        {
            let linked_here = self.link_exists(note_id, self.tags[j].id);
            let ghost inv0 = result@;
            if linked_here {
                proof {
                    assert(!name_in(result@, self.tags@[j as int].name@)) by {
                        if name_in(result@, self.tags@[j as int].name@) {
                            let t = choose|t: int|
                                0 <= t < j && (#[trigger] self.tags@[t]).name@
                                    == self.tags@[j as int].name@ && self.linked(
                                    nid,
                                    self.tags@[t].id as int,
                                );
                        }
                    }
                }
                insert_name_sorted(&mut result, self.tags[j].name.clone());
                proof {
                    assert forall|n: Seq<char>| #[trigger]
                        name_in(result@, n) implies exists|t: int|
                        0 <= t < j + 1 && (#[trigger] self.tags@[t]).name@ == n && self.linked(
                            nid,
                            self.tags@[t].id as int,
                        ) by {
                        if n == self.tags@[j as int].name@ {
                            assert(self.tags@[j as int].name@ == n && self.linked(
                                nid,
                                self.tags@[j as int].id as int,
                            ));
                        } else {
                            assert(name_in(inv0, n));
                            let t = choose|t: int|
                                0 <= t < j && (#[trigger] self.tags@[t]).name@ == n && self.linked(
                                    nid,
                                    self.tags@[t].id as int,
                                );
                            assert(0 <= t < j + 1 && self.tags@[t].name@ == n);
                        }
                    }
                    assert forall|n: Seq<char>|
                        (exists|t: int|
                            0 <= t < j + 1 && (#[trigger] self.tags@[t]).name@ == n && self.linked(
                                nid,
                                self.tags@[t].id as int,
                            )) implies #[trigger] name_in(result@, n) by {
                        let t = choose|t: int|
                            0 <= t < j + 1 && (#[trigger] self.tags@[t]).name@ == n && self.linked(
                                nid,
                                self.tags@[t].id as int,
                            );
                        if t < j {
                            assert(name_in(inv0, n));
                        }
                    }
                }
            } else {
                proof {
                    assert forall|n: Seq<char>|
                        (exists|t: int|
                            0 <= t < j + 1 && (#[trigger] self.tags@[t]).name@ == n && self.linked(
                                nid,
                                self.tags@[t].id as int,
                            )) implies #[trigger] name_in(result@, n) by {
                        let t = choose|t: int|
                            0 <= t < j + 1 && (#[trigger] self.tags@[t]).name@ == n && self.linked(
                                nid,
                                self.tags@[t].id as int,
                            );
                        assert(t < j);
                    }
                }
            }
            j = j + 1;
        }
        proof {
            assert forall|n: Seq<char>| #[trigger]
                name_in(result@, n) == self.tags_of(nid).contains(n) by {
                if name_in(result@, n) {
                    let t = choose|t: int|
                        0 <= t < self.tags@.len() && (#[trigger] self.tags@[t]).name@ == n
                            && self.linked(nid, self.tags@[t].id as int);
                    self.lemma_tag_row_name(t);
                    assert(self.note_has_tag(nid, n));
                }
                if self.tags_of(nid).contains(n) {
                    self.lemma_tag_idx_by_name(n);
                    let t = self.tag_idx_by_name(n);
                    assert(self.tags@[t].name@ == n && self.linked(nid, self.tags@[t].id as int));
                }
            }
        }
        result
    }

    /// Renders one stored note row as a `NoteWithTags`.
    fn assemble(&self, i: usize) -> (e: NoteWithTags)
        requires
            self.wf_core(),
            i < self.notes@.len(),
        ensures
            entry_matches(*self, self.notes@[i as int].id as int, e),
    {
        proof {
            self.lemma_note_idx(self.notes@[i as int].id as int);
        }
        let note = &self.notes[i];
        let tags = self.get_tags_for_note(note.id);
        NoteWithTags {
            id: note.id,
            content: note.content.clone(),
            created_at: clone_opt(&note.created_at),
            updated_at: clone_opt(&note.updated_at),
            tags,
        }
    }

    /// Whether a note carries every name of the requested list.
    #[verifier::loop_isolation(false)]
    fn carries_all(&self, nid: i64, req: &Vec<String>) -> (ok: bool)
        requires
            self.wf_core(),
        ensures
            ok == (forall|n: Seq<char>|
                name_in(req@, n) ==> #[trigger] self.tags_of(nid as int).contains(n)),
    {
        let mut q: usize = 0;
        #[verifier::loop_isolation(false)]
        while q < req.len()
            invariant
                q <= req@.len(),
                forall|x: int|
                    0 <= x < q ==> self.tags_of(nid as int).contains(#[trigger] req@[x]@),
            decreases req@.len() - q,
        {
            let found = self.find_tag_by_name(&req[q]);
            match found {
                None => {
                    proof {
                        assert(name_in(req@, req@[q as int]@));
                        assert(!self.tags_of(nid as int).contains(req@[q as int]@));
                    }
                    return false;
                },
                Some(t) => {
                    let present = self.link_exists(nid, self.tags[t].id);
                    if !present {
                        proof {
                            assert(name_in(req@, req@[q as int]@));
                            self.lemma_tag_row_name(t as int);
                            assert(!self.note_has_tag(nid as int, req@[q as int]@));
                            assert(!self.tags_of(nid as int).contains(req@[q as int]@));
                        }
                        return false;
                    }
                    proof {
                        self.lemma_tag_row_name(t as int);
                        assert(self.note_has_tag(nid as int, req@[q as int]@));
                        assert(self.tags_of(nid as int).contains(req@[q as int]@));
                    }
                },
            }
            q = q + 1;
        }
        proof {
            assert forall|n: Seq<char>| name_in(req@, n) implies #[trigger] self.tags_of(
                nid as int,
            ).contains(n) by {
                let x = choose|x: int| 0 <= x < req@.len() && req@[x]@ == n;
                assert(self.tags_of(nid as int).contains(req@[x]@));
            }
        }
        true
    }

    /// Returns the notes carrying every requested tag name, newest first.
    /// The empty request lists every note.
    pub fn search_notes_by_tags(&self, tag_names: &Vec<String>) -> (r: Vec<NoteWithTags>)
        requires
            self.wf_core(),
        ensures
            search_listing(*self, tag_names@, r@),
    {
        let ghost req = tag_names@;
        let mut r: Vec<NoteWithTags> = Vec::new();
        let mut i: usize = self.notes.len();
        #[verifier::loop_isolation(false)]
        while i > 0
            invariant
                i <= self.notes@.len(),
                forall|p: int|
                    0 <= p < r@.len() ==> entry_matches(*self, (#[trigger] r@[p]).id as int, r@[p]),
                forall|p: int, p2: int| 0 <= p < p2 < r@.len() ==> r@[p].id > r@[p2].id,
                forall|p: int|
                    0 <= p < r@.len() ==> qualifies(*self, (#[trigger] r@[p]).id as int, req)
                        && (exists|w: int|
                        i <= w < self.notes@.len() && (#[trigger] self.notes@[w]).id == r@[p].id),
                forall|id: int|
                    #![trigger qualifies(*self, id, req)]
                    qualifies(*self, id, req) && (exists|w: int|
                        i <= w < self.notes@.len() && (#[trigger] self.notes@[w]).id == id)
                        ==> in_listing(r@, id),
            decreases i,
        {
            i = i - 1;
            let note_id = self.notes[i].id;
            let ghost r0 = r@;
            if self.carries_all(note_id, tag_names) {
                proof {
                    assert(self.has_note(note_id as int));
                    assert(qualifies(*self, note_id as int, req));
                    assert forall|p: int| 0 <= p < r0.len() implies (#[trigger] r0[p]).id
                        > note_id by {
                        let w = choose|w: int|
                            i + 1 <= w < self.notes@.len() && (#[trigger] self.notes@[w]).id
                                == r0[p].id;
                        assert(self.notes@[i as int].id < self.notes@[w].id);
                    }
                }
                let e = self.assemble(i);
                r.push(e);
                proof {
                    assert(r@[r@.len() - 1] == e);
                    assert forall|id: int|
                        qualifies(*self, id, req) && (exists|w: int|
                            i <= w < self.notes@.len() && (#[trigger] self.notes@[w]).id
                                == id) implies in_listing(r@, id) by {
                        let w = choose|w: int|
                            i <= w < self.notes@.len() && (#[trigger] self.notes@[w]).id == id;
                        if w == i {
                            assert(r@[r@.len() - 1].id == id);
                        } else {
                            assert(in_listing(r0, id));
                            let p = choose|p: int| 0 <= p < r0.len() && (#[trigger] r0[p]).id == id;
                            assert(r@[p].id == id);
                        }
                    }
                    assert forall|p: int|
                        0 <= p < r@.len() implies qualifies(*self, (#[trigger] r@[p]).id as int, req)
                            && (exists|w: int|
                            i <= w < self.notes@.len() && (#[trigger] self.notes@[w]).id
                                == r@[p].id) by {
                        if p < r0.len() {
                            let w = choose|w: int|
                                i + 1 <= w < self.notes@.len() && (#[trigger] self.notes@[w]).id
                                    == r0[p].id;
                            assert(i <= w < self.notes@.len() && self.notes@[w].id == r@[p].id);
                        } else {
                            assert(self.notes@[i as int].id == r@[p].id);
                        }
                    }
                }
            } else {
                proof {
                    assert forall|id: int|
                        qualifies(*self, id, req) && (exists|w: int|
                            i <= w < self.notes@.len() && (#[trigger] self.notes@[w]).id
                                == id) implies in_listing(r@, id) by {
                        let w = choose|w: int|
                            i <= w < self.notes@.len() && (#[trigger] self.notes@[w]).id == id;
                        if w == i {
                            assert(!(forall|n: Seq<char>|
                                name_in(req, n) ==> #[trigger] self.tags_of(
                                    note_id as int,
                                ).contains(n)));
                            assert(id == note_id as int);
                            assert(!qualifies(*self, id, req));
                        } else {
                            assert(qualifies(*self, id, req) && i + 1 <= w < self.notes@.len()
                                && self.notes@[w].id == id);
                        }
                    }
                    assert forall|p: int|
                        0 <= p < r@.len() implies qualifies(*self, (#[trigger] r@[p]).id as int, req)
                            && (exists|w: int|
                            i <= w < self.notes@.len() && (#[trigger] self.notes@[w]).id
                                == r@[p].id) by {
                        let w = choose|w: int|
                            i + 1 <= w < self.notes@.len() && (#[trigger] self.notes@[w]).id
                                == r@[p].id;
                        assert(i <= w < self.notes@.len() && self.notes@[w].id == r@[p].id);
                    }
                }
            }
        }
        proof {
            assert forall|id: int| #[trigger]
                qualifies(*self, id, req) implies in_listing(r@, id) by {
                let w = choose|w: int|
                    0 <= w < self.notes@.len() && (#[trigger] self.notes@[w]).id == id;
                assert(0 <= w < self.notes@.len() && self.notes@[w].id == id);
            }
            assert forall|id: int|
                in_listing(r@, id) implies #[trigger] qualifies(*self, id, req) by {
                let p = choose|p: int| 0 <= p < r@.len() && (#[trigger] r@[p]).id == id;
                assert(qualifies(*self, r@[p].id as int, req));
            }
        }
        r
    }

    /// Returns every note, newest first.
    pub fn get_all_notes(&self) -> (r: Vec<NoteWithTags>)
        requires
            self.wf_core(),
        ensures
            all_notes_listing(*self, r@),
    {
        let empty: Vec<String> = Vec::new();
        let r = self.search_notes_by_tags(&empty);
        proof {
            assert(empty@ =~= Seq::<String>::empty());
        }
        r
    }

    /// Looks one note up by identifier; absent identifiers give `None`.
    pub fn get_note_by_id(&self, id: i64) -> (r: Option<NoteWithTags>)
        requires
            self.wf_core(),
        ensures
            r is Some <==> self.has_note(id as int),
            r is Some ==> entry_matches(*self, id as int, r->0),
    {
        let found = self.find_note(id);
        match found {
            None => None,
            Some(i) => Some(self.assemble(i)),
        }
    }

    /// Returns every tag row, in alphabetical order of names.
    #[verifier::loop_isolation(false)]
    pub fn get_all_tags(&self) -> (r: Vec<Tag>)
        requires
            self.wf_core(),
        ensures
            r@.len() == self.tags@.len(),
            sorted_tag_names(r@),
            distinct_tag_names(r@),
            forall|tid: int, n: Seq<char>|
                #![trigger tag_row_in(r@, tid, n)]
                tag_row_in(r@, tid, n) <==> (self.has_tag_id(tid) && self.tag_name(tid) == n),
    {
        let mut r: Vec<Tag> = Vec::new();
        let mut j: usize = 0;
        while j < self.tags.len()
            invariant
                j <= self.tags@.len(),
                r@.len() == j,
                sorted_tag_names(r@),
                distinct_tag_names(r@),
                forall|tid: int, n: Seq<char>|
                    #![trigger tag_row_in(r@, tid, n)]
                    tag_row_in(r@, tid, n) <==> exists|i: int|
                        0 <= i < j && (#[trigger] self.tags@[i]).id == tid && self.tags@[i].name@
                            == n,
            decreases self.tags@.len() - j,
        {
            let row = Tag { id: self.tags[j].id, name: self.tags[j].name.clone() };
            let ghost r0 = r@;
            proof {
                assert forall|i: int| 0 <= i < r0.len() implies (#[trigger] r0[i].name@)
                    != row.name@ by {
                    assert(tag_row_in(r0, r0[i].id as int, r0[i].name@));
                    let w = choose|w: int|
                        0 <= w < j && (#[trigger] self.tags@[w]).id == r0[i].id as int
                            && self.tags@[w].name@ == r0[i].name@;
                    assert(self.tags@[w].name@ != self.tags@[j as int].name@);
                }
            }
            insert_tag_sorted(&mut r, row);
            proof {
                assert forall|tid: int, n: Seq<char>|
                    #![trigger tag_row_in(r@, tid, n)]
                    tag_row_in(r@, tid, n) == (exists|i: int|
                        0 <= i < j + 1 && (#[trigger] self.tags@[i]).id == tid
                            && self.tags@[i].name@ == n) by {
                    if tag_row_in(r@, tid, n) {
                        if tag_row_in(r0, tid, n) {
                            let i = choose|i: int|
                                0 <= i < j && (#[trigger] self.tags@[i]).id == tid
                                    && self.tags@[i].name@ == n;
                            assert(0 <= i < j + 1 && self.tags@[i].id == tid && self.tags@[i].name@
                                == n);
                        } else {
                            assert(self.tags@[j as int].id == tid && self.tags@[j as int].name@
                                == n);
                        }
                    }
                    if exists|i: int|
                        0 <= i < j + 1 && (#[trigger] self.tags@[i]).id == tid
                            && self.tags@[i].name@ == n {
                        let i = choose|i: int|
                            0 <= i < j + 1 && (#[trigger] self.tags@[i]).id == tid
                                && self.tags@[i].name@ == n;
                        if i < j {
                            assert(tag_row_in(r0, tid, n));
                        }
                    }
                }
            }
            j = j + 1;
        }
        proof {
            assert forall|tid: int, n: Seq<char>|
                #![trigger tag_row_in(r@, tid, n)]
                tag_row_in(r@, tid, n) == (self.has_tag_id(tid) && self.tag_name(tid) == n) by {
                if tag_row_in(r@, tid, n) {
                    let i = choose|i: int|
                        0 <= i < self.tags@.len() && (#[trigger] self.tags@[i]).id == tid
                            && self.tags@[i].name@ == n;
                    assert(self.has_tag_id(tid));
                    self.lemma_tag_idx(tid);
                    assert(self.tag_idx(tid) == i);
                }
                if self.has_tag_id(tid) && self.tag_name(tid) == n {
                    self.lemma_tag_idx(tid);
                    let i = self.tag_idx(tid);
                    assert(0 <= i < self.tags@.len() && self.tags@[i].id == tid
                        && self.tags@[i].name@ == n);
                }
            }
        }
        r
    }

    /// Creates a note with the given content and tag names; returns the new
    /// note identifier. Tag names resolve to existing rows or create new
    /// ones; duplicate names in the request collapse.
    pub fn create_note(&mut self, request: CreateNoteRequest, now: String) -> (id: i64)
        requires
            old(self).wf(),
            old(self).next_note_id < i64::MAX,
            old(self).next_tag_id + request.tags@.len() <= i64::MAX,
        ensures
            final(self).wf(),
            id == old(self).next_note_id,
            !old(self).has_note(id as int),
            final(self).has_note(id as int),
            final(self).next_note_id == id + 1,
            final(self).note_ids() =~= old(self).note_ids().insert(id as int),
            final(self).note_content(id as int) == request.content@,
            final(self).note_created(id as int) == Some(now@),
            final(self).note_updated(id as int) == Some(now@),
            final(self).tags_of(id as int) =~= names_set(request.tags@),
            final(self).tag_names() =~= old(self).tag_names().union(names_set(request.tags@)),
            old(self).other_notes_unchanged(*final(self), id as int),
    {
        let ghost s0 = *self;
        let id = self.next_note_id;
        proof {
            assert(!s0.has_note(id as int)) by {
                if s0.has_note(id as int) {
                    let w = choose|w: int|
                        0 <= w < s0.notes@.len() && (#[trigger] s0.notes@[w]).id == id;
                }
            }
        }
        let row = Note {
            id,
            content: request.content,
            created_at: Some(now.clone()),
            updated_at: Some(now),
        };
        self.notes.push(row);
        self.next_note_id = id + 1;
        let ghost s1 = *self;
        proof {
            let last = s1.notes@.len() - 1;
            assert(s1.notes@[last].id == id);
            assert(s1.has_note(id as int));
            assert forall|i: int| 0 <= i < s1.links@.len() implies s1.has_note(
                (#[trigger] s1.links@[i]).note_id as int,
            ) && s1.has_tag_id(s1.links@[i].tag_id as int) by {
                assert(s0.has_note(s0.links@[i].note_id as int));
                let wn = choose|w: int|
                    0 <= w < s0.notes@.len() && (#[trigger] s0.notes@[w]).id
                        == s1.links@[i].note_id;
                assert(s1.notes@[wn].id == s1.links@[i].note_id);
                assert(s0.has_tag_id(s0.links@[i].tag_id as int));
                let wt = choose|w: int|
                    0 <= w < s0.tags@.len() && (#[trigger] s0.tags@[w]).id == s1.links@[i].tag_id;
                assert(s1.tags@[wt].id == s1.links@[i].tag_id);
            }
            assert(s1.wf_core());
            s1.lemma_note_idx(id as int);
            assert(s1.note_idx(id as int) == last);
            assert forall|t: int| #[trigger] s1.has_tag_id(t) implies s1.tag_in_use(t) by {
                let w = choose|w: int| 0 <= w < s1.tags@.len() && (#[trigger] s1.tags@[w]).id == t;
                assert(s0.tag_in_use(s0.tags@[w].id as int));
                let k = choose|k: int|
                    0 <= k < s0.links@.len() && (#[trigger] s0.links@[k]).tag_id == t;
                assert(s1.links@[k].tag_id == t);
            }
            assert forall|m: int, n: Seq<char>|
                #![trigger s1.tags_of(m).contains(n)]
                true implies s1.tags_of(m).contains(n) == s0.tags_of(m).contains(n) by {}
            assert(s1.tags_of(id as int) =~= Set::<Seq<char>>::empty()) by {
                if exists|n: Seq<char>| #[trigger] s1.tags_of(id as int).contains(n) {
                    let n = choose|n: Seq<char>| #[trigger] s1.tags_of(id as int).contains(n);
                    assert(s0.tags_of(id as int).contains(n));
                    let k = choose|k: int|
                        0 <= k < s0.links@.len() && (#[trigger] s0.links@[k]).note_id == id
                            && s0.links@[k].tag_id == s0.tag_id_of(n);
                    assert(s0.has_note(id as int));
                }
            }
        }
        let tag_vec = request.tags;
        let mut q: usize = 0;
        #[verifier::loop_isolation(false)]
        while q < tag_vec.len()
            invariant
                q <= tag_vec@.len(),
                self.wf_core(),
                self.notes@ == s1.notes@,
                self.next_note_id == s1.next_note_id,
                self.next_tag_id <= s1.next_tag_id + q,
                s1.links@.is_prefix_of(self.links@),
                self.has_note(id as int),
                forall|t: int| #[trigger] self.has_tag_id(t) ==> self.tag_in_use(t),
                self.tag_names() =~= s1.tag_names().union(names_set(tag_vec@.take(q as int))),
                self.tags_of(id as int) =~= names_set(tag_vec@.take(q as int)),
                forall|m: int|
                    m != id as int ==> #[trigger] self.tags_of(m) =~= s1.tags_of(m),
            decreases tag_vec@.len() - q,
        {
            let ghost sp = *self;
            let tid = self.resolve_tag(&tag_vec[q]);
            let ghost sq = *self;
            proof {
                assert(sq.has_note(id as int));
            }
            self.add_link(id, tid);
            proof {
                assert forall|t: int| #[trigger] self.has_tag_id(t) implies self.tag_in_use(t) by {
                    if sp.has_tag_id(t) {
                        assert(sp.tag_in_use(t));
                        let k = choose|k: int|
                            0 <= k < sp.links@.len() && (#[trigger] sp.links@[k]).tag_id == t;
                        assert(sq.links@[k].tag_id == t);
                        assert(sq.tag_in_use(t));
                    } else {
                        assert(sq.has_tag_id(t));
                        let w = choose|w: int|
                            0 <= w < sq.tags@.len() && (#[trigger] sq.tags@[w]).id == t;
                        if w < sp.tags@.len() {
                            assert(sp.tags@[w].id == t);
                            assert(sp.has_tag_id(t));
                        }
                        assert(!sp.has_tag_name(tag_vec@[q as int]@)) by {
                            if sp.has_tag_name(tag_vec@[q as int]@) {
                                assert(sq.tags@ == sp.tags@);
                            }
                        }
                        assert(w == sp.tags@.len());
                        assert(sq.has_tag_id(tid as int));
                        let w2 = choose|w2: int|
                            0 <= w2 < sq.tags@.len() && (#[trigger] sq.tags@[w2]).id == tid;
                        if w2 < sp.tags@.len() {
                            assert(sp.tags@[w2].id == tid);
                            assert(1 <= sp.tags@[w2].id < sp.next_tag_id);
                        }
                        assert(w2 == sp.tags@.len());
                        assert(t == tid as int);
                    }
                }
                assert(tag_vec@.take(q as int + 1) =~= tag_vec@.take(q as int).push(
                    tag_vec@[q as int],
                ));
                assert forall|n: Seq<char>|
                    name_in(tag_vec@.take(q as int + 1), n) == (name_in(tag_vec@.take(q as int), n)
                        || n == tag_vec@[q as int]@) by {
                    if name_in(tag_vec@.take(q as int + 1), n) {
                        let x = choose|x: int|
                            0 <= x < tag_vec@.take(q as int + 1).len() && (#[trigger] tag_vec@.take(
                                q as int + 1,
                            )[x])@ == n;
                        if x < q {
                            assert(tag_vec@.take(q as int)[x]@ == n);
                        }
                    }
                    if name_in(tag_vec@.take(q as int), n) {
                        let x = choose|x: int|
                            0 <= x < tag_vec@.take(q as int).len() && (#[trigger] tag_vec@.take(
                                q as int,
                            )[x])@ == n;
                        assert(tag_vec@.take(q as int + 1)[x]@ == n);
                    }
                    if n == tag_vec@[q as int]@ {
                        assert(tag_vec@.take(q as int + 1)[q as int]@ == n);
                    }
                }
                assert(sq.tag_name(tid as int) == tag_vec@[q as int]@);
                assert forall|n: Seq<char>|
                    #![trigger names_set(tag_vec@.take(q as int + 1)).contains(n)]
                    #![trigger names_set(tag_vec@.take(q as int)).contains(n)]
                    names_set(tag_vec@.take(q as int + 1)).contains(n) == (names_set(
                    tag_vec@.take(q as int),
                ).contains(n) || n == tag_vec@[q as int]@) by {
                    assert(names_set(tag_vec@.take(q as int + 1)).contains(n) == name_in(
                        tag_vec@.take(q as int + 1),
                        n,
                    ));
                    assert(names_set(tag_vec@.take(q as int)).contains(n) == name_in(
                        tag_vec@.take(q as int),
                        n,
                    ));
                }
                assert(names_set(tag_vec@.take(q as int)).insert(tag_vec@[q as int]@)
                    =~= names_set(tag_vec@.take(q as int + 1)));
                assert(sq.tags_of(id as int) =~= names_set(tag_vec@.take(q as int))) by {
                    assert(sq.tags_of(id as int) =~= sp.tags_of(id as int));
                }
                assert(self.tags_of(id as int) =~= sq.tags_of(id as int).insert(
                    tag_vec@[q as int]@,
                ));
                assert(self.tags_of(id as int) =~= names_set(tag_vec@.take(q as int + 1)));
                assert(self.tag_names() =~= s1.tag_names().union(
                    names_set(tag_vec@.take(q as int + 1)),
                )) by {
                    assert(sq.tag_names() =~= sp.tag_names().insert(tag_vec@[q as int]@));
                    assert(self.tag_names() =~= sq.tag_names());
                }
                assert forall|m: int| m != id as int implies #[trigger] self.tags_of(m)
                    =~= s1.tags_of(m) by {
                    assert(sp.tags_of(m) =~= s1.tags_of(m));
                    assert(sq.tags_of(m) =~= sp.tags_of(m));
                    assert(self.tags_of(m) =~= sq.tags_of(m));
                }
            }
            q = q + 1;
        }
        proof {
            assert(tag_vec@.take(tag_vec@.len() as int) =~= tag_vec@);
            assert forall|i: int| 0 <= i < self.tags@.len() implies self.tag_in_use(
                (#[trigger] self.tags@[i]).id as int,
            ) by {
                assert(self.has_tag_id(self.tags@[i].id as int));
            }
            assert(self.wf());
            assert(self.note_ids() =~= s0.note_ids().insert(id as int)) by {
                assert forall|m: int| #[trigger] self.has_note(m) implies s0.has_note(m) || m == id
                    as int by {
                    let w = choose|w: int|
                        0 <= w < self.notes@.len() && (#[trigger] self.notes@[w]).id == m;
                    if w < s0.notes@.len() {
                        assert(s0.notes@[w].id == m);
                    }
                }
                assert forall|m: int| #[trigger] s0.has_note(m) implies self.has_note(m) by {
                    let w = choose|w: int|
                        0 <= w < s0.notes@.len() && (#[trigger] s0.notes@[w]).id == m;
                    assert(self.notes@[w].id == m);
                }
            }
            self.lemma_note_idx(id as int);
            assert(self.note_idx(id as int) == self.notes@.len() - 1);
            assert(s0.other_notes_unchanged(*self, id as int)) by {
                assert forall|m: int| m != id as int implies s0.has_note(m) == self.has_note(m) && (
                s0.has_note(m) ==> self.note_content(m) == s0.note_content(m) && self.note_created(
                    m,
                ) == s0.note_created(m) && self.note_updated(m) == s0.note_updated(m)
                    && self.tags_of(m) =~= s0.tags_of(m)) by {
                    if s0.has_note(m) {
                        s0.lemma_note_idx(m);
                        let w = s0.note_idx(m);
                        assert(self.notes@[w].id == m);
                        self.lemma_note_idx(m);
                        assert(self.note_idx(m) == w);
                        assert(s1.tags_of(m) =~= s0.tags_of(m));
                    } else {
                        if self.has_note(m) {
                            let w = choose|w: int|
                                0 <= w < self.notes@.len() && (#[trigger] self.notes@[w]).id == m;
                            assert(w == self.notes@.len() - 1);
                        }
                    }
                }
            }
        }
        id
    }

    /// Two states with the same tag and link tables agree on every
    /// tag-related observation.
    proof fn lemma_same_tag_tables(a: Store, b: Store)
        requires
            a.wf_core(),
            b.tags@ == a.tags@,
            b.links@ == a.links@,
        ensures
            forall|n: Seq<char>|
                #![trigger b.has_tag_name(n)]
                #![trigger a.has_tag_name(n)]
                b.has_tag_name(n) == a.has_tag_name(n),
            forall|n: Seq<char>| #[trigger] a.has_tag_name(n) ==> b.tag_id_of(n) == a.tag_id_of(n),
            forall|m: int| #[trigger] b.tags_of(m) =~= a.tags_of(m),
            forall|t: int|
                #![trigger b.tag_in_use(t)]
                #![trigger a.tag_in_use(t)]
                b.tag_in_use(t) == a.tag_in_use(t),
            forall|n2: int, t2: int|
                #![trigger b.linked(n2, t2)]
                #![trigger a.linked(n2, t2)]
                b.linked(n2, t2) == a.linked(n2, t2),
        decreases 0int,
    {
        assert forall|n2: int, t2: int|
            #![trigger b.linked(n2, t2)]
            #![trigger a.linked(n2, t2)]
            b.linked(n2, t2) == a.linked(n2, t2) by {
            if a.linked(n2, t2) {
                let k = choose|k: int|
                    0 <= k < a.links@.len() && (#[trigger] a.links@[k]).note_id == n2
                        && a.links@[k].tag_id == t2;
                assert(b.links@[k].note_id == n2 && b.links@[k].tag_id == t2);
            }
            if b.linked(n2, t2) {
                let k = choose|k: int|
                    0 <= k < b.links@.len() && (#[trigger] b.links@[k]).note_id == n2
                        && b.links@[k].tag_id == t2;
                assert(a.links@[k].note_id == n2 && a.links@[k].tag_id == t2);
            }
        }
        assert forall|t: int|
            #![trigger b.tag_in_use(t)]
            #![trigger a.tag_in_use(t)]
            b.tag_in_use(t) == a.tag_in_use(t) by {
            if a.tag_in_use(t) {
                let k = choose|k: int|
                    0 <= k < a.links@.len() && (#[trigger] a.links@[k]).tag_id == t;
                assert(b.links@[k].tag_id == t);
            }
            if b.tag_in_use(t) {
                let k = choose|k: int|
                    0 <= k < b.links@.len() && (#[trigger] b.links@[k]).tag_id == t;
                assert(a.links@[k].tag_id == t);
            }
        }
        assert forall|n: Seq<char>|
            #![trigger b.has_tag_name(n)]
            #![trigger a.has_tag_name(n)]
            b.has_tag_name(n) == a.has_tag_name(n) by {
            if a.has_tag_name(n) {
                let w = choose|w: int|
                    0 <= w < a.tags@.len() && (#[trigger] a.tags@[w]).name@ == n;
                assert(b.tags@[w].name@ == n);
            }
            if b.has_tag_name(n) {
                let w = choose|w: int|
                    0 <= w < b.tags@.len() && (#[trigger] b.tags@[w]).name@ == n;
                assert(a.tags@[w].name@ == n);
            }
        }
        assert forall|n: Seq<char>| #[trigger] a.has_tag_name(n) implies b.tag_id_of(n)
            == a.tag_id_of(n) by {
            a.lemma_tag_idx_by_name(n);
            let w = b.tag_idx_by_name(n);
            assert(b.tags@[w].name@ == n);
            assert(a.tags@[w].name@ == n);
            assert(w == a.tag_idx_by_name(n));
        }
        assert forall|m: int| true implies #[trigger] b.tags_of(m) =~= a.tags_of(m) by {
            assert forall|n: Seq<char>|
                #![trigger b.tags_of(m).contains(n)]
                true implies b.tags_of(m).contains(n) == a.tags_of(m).contains(n) by {
                if a.has_tag_name(n) {
                    assert(b.tag_id_of(n) == a.tag_id_of(n));
                }
            }
        }
    }

    /// After replacing a note's links and sweeping, the surviving tag names
    /// are those used by other notes plus the newly assigned ones.
    #[verifier::rlimit(60)]
    proof fn lemma_update_names(
        s0: Store,
        s2: Store,
        s3: Store,
        fin: Store,
        id: int,
        new_names: Seq<String>,
    )
        requires
            s0.wf(),
            s2.wf_core(),
            s3.wf_core(),
            s2.tags@ == s0.tags@,
            forall|n2: int, t2: int|
                #![trigger s2.linked(n2, t2)]
                #![trigger s0.linked(n2, t2)]
                s2.linked(n2, t2) <==> (s0.linked(n2, t2) && n2 != id),
            s2.tags@.is_prefix_of(s3.tags@),
            forall|n: Seq<char>|
                #[trigger] s2.has_tag_name(n) ==> s3.has_tag_name(n) && s3.tag_id_of(n)
                    == s2.tag_id_of(n),
            s3.tag_names() =~= s2.tag_names().union(names_set(new_names)),
            s3.tags_of(id) =~= names_set(new_names),
            forall|t: int|
                #![trigger s3.tag_in_use(t)]
                s3.tag_in_use(t) <==> (s2.tag_in_use(t) || s3.linked(id, t)),
            forall|n: Seq<char>|
                #![trigger fin.has_tag_name(n)]
                fin.has_tag_name(n) <==> (s3.has_tag_name(n) && s3.tag_in_use(s3.tag_id_of(n))),
        ensures
            fin.tag_names() =~= s0.tags_used_except(id).union(names_set(new_names)),
    {
        assert forall|n: Seq<char>| #[trigger] fin.has_tag_name(n) implies s0.tags_used_except(
            id,
        ).contains(n) || names_set(new_names).contains(n) by {
            if !names_set(new_names).contains(n) {
                assert(s3.has_tag_name(n) && s3.tag_in_use(s3.tag_id_of(n)));
                assert(s2.has_tag_name(n)) by {
                    assert(s3.tag_names().contains(n));
                }
                s2.lemma_tag_idx_by_name(n);
                s3.lemma_tag_idx_by_name(n);
                let tid = s3.tag_id_of(n);
                assert(tid == s2.tag_id_of(n));
                assert(!s3.linked(id, tid)) by {
                    if s3.linked(id, tid) {
                        assert(s3.note_has_tag(id, n));
                        assert(s3.tags_of(id).contains(n));
                    }
                }
                assert(s2.tag_in_use(tid));
                let k = choose|k: int|
                    0 <= k < s2.links@.len() && (#[trigger] s2.links@[k]).tag_id == tid;
                let m = s2.links@[k].note_id as int;
                assert(s2.linked(m, tid));
                assert(s0.linked(m, tid) && m != id);
                assert(s0.has_tag_name(n)) by {
                    assert(s0.tags@ == s2.tags@);
                }
                s0.lemma_tag_idx_by_name(n);
                assert(s0.tag_id_of(n) == tid) by {
                    assert(s0.tags@[s2.tag_idx_by_name(n)].name@ == n);
                }
                assert(s0.note_has_tag(m, n));
                assert(s0.has_note(m)) by {
                    let k0 = choose|k0: int|
                        0 <= k0 < s0.links@.len() && (#[trigger] s0.links@[k0]).note_id == m
                            && s0.links@[k0].tag_id == tid;
                }
                assert(s0.has_note(m) && m != id && s0.tags_of(m).contains(n));
            }
        }
        assert forall|n: Seq<char>| #[trigger]
            s0.tags_used_except(id).contains(n) implies fin.has_tag_name(n) by {
            let m = choose|m: int| #[trigger]
                s0.has_note(m) && m != id && s0.tags_of(m).contains(n);
            assert(s0.note_has_tag(m, n));
            s0.lemma_tag_idx_by_name(n);
            let tid = s0.tag_id_of(n);
            assert(s0.linked(m, tid));
            assert(s2.has_tag_name(n)) by {
                assert(s2.tags@ == s0.tags@);
            }
            s2.lemma_tag_idx_by_name(n);
            assert(s2.tag_id_of(n) == tid) by {
                assert(s2.tags@[s0.tag_idx_by_name(n)].name@ == n);
            }
            assert(s2.linked(m, tid));
            assert(s2.tag_in_use(tid)) by {
                let k = choose|k: int|
                    0 <= k < s2.links@.len() && (#[trigger] s2.links@[k]).note_id == m
                        && s2.links@[k].tag_id == tid;
            }
            assert(s3.has_tag_name(n) && s3.tag_id_of(n) == tid);
            assert(s3.tag_in_use(tid));
        }
        assert forall|n: Seq<char>| #[trigger]
            names_set(new_names).contains(n) implies fin.has_tag_name(n) by {
            assert(s3.tags_of(id).contains(n));
            assert(s3.note_has_tag(id, n));
            assert(s3.linked(id, s3.tag_id_of(n)));
            assert(s3.tag_in_use(s3.tag_id_of(n)));
        }
    }

    /// Replaces a note's content and its entire tag set, refreshes the
    /// update timestamp, and collects orphaned tags. Updating an absent
    /// identifier is a no-op.
    #[verifier::rlimit(100)]
    pub fn update_note(&mut self, request: UpdateNoteRequest, now: String)
        requires
            old(self).wf(),
            old(self).next_tag_id + request.tags@.len() <= i64::MAX,
        ensures
            final(self).wf(),
            final(self).next_note_id == old(self).next_note_id,
            !old(self).has_note(request.id as int) ==> final(self).notes@ == old(self).notes@
                && final(self).tags@ == old(self).tags@ && final(self).links@ == old(self).links@
                && final(self).next_tag_id == old(self).next_tag_id,
            old(self).has_note(request.id as int) ==> {
                &&& final(self).note_ids() =~= old(self).note_ids()
                &&& final(self).has_note(request.id as int)
                &&& final(self).note_content(request.id as int) == request.content@
                &&& final(self).note_created(request.id as int) == old(self).note_created(
                    request.id as int,
                )
                &&& final(self).note_updated(request.id as int) == Some(now@)
                &&& final(self).tags_of(request.id as int) =~= names_set(request.tags@)
                &&& old(self).other_notes_unchanged(*final(self), request.id as int)
                &&& final(self).tag_names() =~= old(self).tags_used_except(
                    request.id as int,
                ).union(names_set(request.tags@))
            },
    {
        let ghost s0 = *self;
        let id = request.id;
        let found = self.find_note(id);
        let idx = match found {
            None => {
                return ;
            },
            Some(i) => i,
        };
        let created = clone_opt(&self.notes[idx].created_at);
        let row = Note { id, content: request.content, created_at: created, updated_at: Some(now) };
        self.notes.remove(idx);
        self.notes.insert(idx, row);
        let ghost s1 = *self;
        proof {
            s0.lemma_note_idx(id as int);
            assert(s1.notes@ =~= s0.notes@.update(idx as int, row));
            assert(forall|w: int|
                0 <= w < s1.notes@.len() ==> (#[trigger] s1.notes@[w]).id == s0.notes@[w].id);
            assert forall|m: int|
                #![trigger s1.has_note(m)]
                #![trigger s0.has_note(m)]
                s1.has_note(m) == s0.has_note(m) by {
                if s0.has_note(m) {
                    let w = choose|w: int|
                        0 <= w < s0.notes@.len() && (#[trigger] s0.notes@[w]).id == m;
                    assert(s1.notes@[w].id == m);
                }
                if s1.has_note(m) {
                    let w = choose|w: int|
                        0 <= w < s1.notes@.len() && (#[trigger] s1.notes@[w]).id == m;
                    assert(s0.notes@[w].id == m);
                }
            }
            assert forall|i: int| 0 <= i < s1.links@.len() implies s1.has_note(
                (#[trigger] s1.links@[i]).note_id as int,
            ) && s1.has_tag_id(s1.links@[i].tag_id as int) by {
                assert(s0.has_note(s0.links@[i].note_id as int));
                assert(s0.has_tag_id(s0.links@[i].tag_id as int));
                let wt = choose|w: int|
                    0 <= w < s0.tags@.len() && (#[trigger] s0.tags@[w]).id == s1.links@[i].tag_id;
                assert(s1.tags@[wt].id == s1.links@[i].tag_id);
            }
            assert(s1.wf_core());
            s1.lemma_note_idx(id as int);
            assert(s1.note_idx(id as int) == idx);
            Store::lemma_same_tag_tables(s0, s1);
        }
        self.remove_links_of_note(id);
        let ghost s2 = *self;
        proof {
            assert forall|n2: int, t2: int|
                #![trigger s2.linked(n2, t2)]
                #![trigger s0.linked(n2, t2)]
                s2.linked(n2, t2) == (s0.linked(n2, t2) && n2 != id as int) by {
                assert(s2.linked(n2, t2) == (s1.linked(n2, t2) && n2 != id as int));
                assert(s1.linked(n2, t2) == s0.linked(n2, t2));
            }
        }
        let tag_vec = request.tags;
        let mut q: usize = 0;
        #[verifier::loop_isolation(false)]
        while q < tag_vec.len()
            invariant
                q <= tag_vec@.len(),
                self.wf_core(),
                self.notes@ == s2.notes@,
                self.next_note_id == s2.next_note_id,
                self.next_tag_id <= s2.next_tag_id + q,
                s2.tags@.is_prefix_of(self.tags@),
                self.has_note(id as int),
                forall|t: int|
                    #![trigger self.tag_in_use(t)]
                    self.tag_in_use(t) <==> (s2.tag_in_use(t) || self.linked(id as int, t)),
                forall|t: int|
                    #[trigger] self.has_tag_id(t) ==> (s2.has_tag_id(t) || self.linked(
                        id as int,
                        t,
                    )),
                forall|n: Seq<char>|
                    #[trigger] s2.has_tag_name(n) ==> self.has_tag_name(n) && self.tag_id_of(n)
                        == s2.tag_id_of(n),
                self.tag_names() =~= s2.tag_names().union(names_set(tag_vec@.take(q as int))),
                self.tags_of(id as int) =~= names_set(tag_vec@.take(q as int)),
                forall|m: int|
                    m != id as int ==> #[trigger] self.tags_of(m) =~= s2.tags_of(m),
            decreases tag_vec@.len() - q,
        {
            let ghost sp = *self;
            let tid = self.resolve_tag(&tag_vec[q]);
            let ghost sq = *self;
            self.add_link(id, tid);
            proof {
                assert forall|t: int|
                    #![trigger self.tag_in_use(t)]
                    self.tag_in_use(t) == (s2.tag_in_use(t) || self.linked(id as int, t)) by {
                    if self.tag_in_use(t) {
                        let k = choose|k: int|
                            0 <= k < self.links@.len() && (#[trigger] self.links@[k]).tag_id == t;
                        let m2 = self.links@[k].note_id as int;
                        assert(self.linked(m2, t));
                        if m2 == id as int && t == tid as int {
                            assert(self.linked(id as int, t));
                        } else {
                            assert(sq.linked(m2, t));
                            let k2 = choose|k2: int|
                                0 <= k2 < sq.links@.len() && (#[trigger] sq.links@[k2]).note_id
                                    == m2 && sq.links@[k2].tag_id == t;
                            assert(sq.tag_in_use(t));
                            assert(sp.links@[k2].tag_id == t);
                            assert(sp.tag_in_use(t));
                            if !s2.tag_in_use(t) {
                                assert(sp.linked(id as int, t));
                                let k3 = choose|k3: int|
                                    0 <= k3 < sp.links@.len() && (#[trigger] sp.links@[k3]).note_id
                                        == id && sp.links@[k3].tag_id == t;
                                assert(sq.links@[k3].note_id == id && sq.links@[k3].tag_id == t);
                                assert(sq.linked(id as int, t));
                                assert(self.linked(id as int, t));
                            }
                        }
                    }
                    if s2.tag_in_use(t) {
                        assert(sp.tag_in_use(t));
                        let k = choose|k: int|
                            0 <= k < sp.links@.len() && (#[trigger] sp.links@[k]).tag_id == t;
                        assert(self.links@[k].tag_id == t);
                    }
                    if self.linked(id as int, t) {
                        let k = choose|k: int|
                            0 <= k < self.links@.len() && (#[trigger] self.links@[k]).note_id
                                == id && self.links@[k].tag_id == t;
                        assert(self.links@[k].tag_id == t);
                        assert(self.tag_in_use(t));
                    }
                }
                assert forall|t: int| #[trigger]
                    self.has_tag_id(t) implies (s2.has_tag_id(t) || self.linked(
                    id as int,
                    t,
                )) by {
                    if sp.has_tag_id(t) {
                        if !s2.has_tag_id(t) {
                            assert(sp.linked(id as int, t));
                            assert(self.linked(id as int, t));
                        }
                    } else {
                        assert(sq.has_tag_id(t));
                        let w = choose|w: int|
                            0 <= w < sq.tags@.len() && (#[trigger] sq.tags@[w]).id == t;
                        if w < sp.tags@.len() {
                            assert(sp.tags@[w].id == t);
                            assert(sp.has_tag_id(t));
                        }
                        assert(!sp.has_tag_name(tag_vec@[q as int]@)) by {
                            if sp.has_tag_name(tag_vec@[q as int]@) {
                                assert(sq.tags@ == sp.tags@);
                            }
                        }
                        assert(w == sp.tags@.len());
                        assert(sq.has_tag_id(tid as int));
                        let w2 = choose|w2: int|
                            0 <= w2 < sq.tags@.len() && (#[trigger] sq.tags@[w2]).id == tid;
                        if w2 < sp.tags@.len() {
                            assert(sp.tags@[w2].id == tid);
                            assert(1 <= sp.tags@[w2].id < sp.next_tag_id);
                        }
                        assert(w2 == sp.tags@.len());
                        assert(t == tid as int);
                        assert(self.linked(id as int, t));
                    }
                }
                assert forall|n: Seq<char>| #[trigger]
                    s2.has_tag_name(n) implies self.has_tag_name(n) && self.tag_id_of(n)
                    == s2.tag_id_of(n) by {
                    assert(sp.has_tag_name(n) && sp.tag_id_of(n) == s2.tag_id_of(n));
                }
                assert forall|n: Seq<char>|
                    #![trigger names_set(tag_vec@.take(q as int + 1)).contains(n)]
                    #![trigger names_set(tag_vec@.take(q as int)).contains(n)]
                    names_set(tag_vec@.take(q as int + 1)).contains(n) == (names_set(
                    tag_vec@.take(q as int),
                ).contains(n) || n == tag_vec@[q as int]@) by {
                    if name_in(tag_vec@.take(q as int + 1), n) {
                        let x = choose|x: int|
                            0 <= x < tag_vec@.take(q as int + 1).len() && (#[trigger] tag_vec@.take(
                                q as int + 1,
                            )[x])@ == n;
                        if x < q {
                            assert(tag_vec@.take(q as int)[x]@ == n);
                        }
                    }
                    if name_in(tag_vec@.take(q as int), n) {
                        let x = choose|x: int|
                            0 <= x < tag_vec@.take(q as int).len() && (#[trigger] tag_vec@.take(
                                q as int,
                            )[x])@ == n;
                        assert(tag_vec@.take(q as int + 1)[x]@ == n);
                    }
                    if n == tag_vec@[q as int]@ {
                        assert(tag_vec@.take(q as int + 1)[q as int]@ == n);
                    }
                }
                assert(sq.tag_name(tid as int) == tag_vec@[q as int]@);
                assert(sq.tags_of(id as int) =~= names_set(tag_vec@.take(q as int))) by {
                    assert(sq.tags_of(id as int) =~= sp.tags_of(id as int));
                }
                assert(self.tags_of(id as int) =~= sq.tags_of(id as int).insert(
                    tag_vec@[q as int]@,
                ));
                assert(self.tags_of(id as int) =~= names_set(tag_vec@.take(q as int + 1)));
                assert(self.tag_names() =~= s2.tag_names().union(
                    names_set(tag_vec@.take(q as int + 1)),
                )) by {
                    assert(sq.tag_names() =~= sp.tag_names().insert(tag_vec@[q as int]@));
                    assert(self.tag_names() =~= sq.tag_names());
                }
                assert forall|m: int| m != id as int implies #[trigger] self.tags_of(m)
                    =~= s2.tags_of(m) by {
                    assert(sp.tags_of(m) =~= s2.tags_of(m));
                    assert(sq.tags_of(m) =~= sp.tags_of(m));
                    assert(self.tags_of(m) =~= sq.tags_of(m));
                }
            }
            q = q + 1;
        }
        let ghost s3 = *self;
        self.sweep();
        proof {
            let fin = *self;
            assert(tag_vec@.take(tag_vec@.len() as int) =~= tag_vec@);
            assert(s3.tag_names() =~= s2.tag_names().union(names_set(tag_vec@)));
            assert(s3.tags_of(id as int) =~= names_set(tag_vec@));
            Store::lemma_update_names(s0, s2, s3, fin, id as int, tag_vec@);
            assert(fin.tags_of(id as int) =~= names_set(tag_vec@)) by {
                assert(fin.tags_of(id as int) =~= s3.tags_of(id as int));
            }
            assert(fin.note_ids() =~= s0.note_ids()) by {
                assert forall|m: int|
                    #![trigger fin.has_note(m)]
                    #![trigger s0.has_note(m)]
                    fin.has_note(m) == s0.has_note(m) by {
                    if s0.has_note(m) {
                        let w = choose|w: int|
                            0 <= w < s0.notes@.len() && (#[trigger] s0.notes@[w]).id == m;
                        assert(fin.notes@[w].id == m);
                    }
                    if fin.has_note(m) {
                        let w = choose|w: int|
                            0 <= w < fin.notes@.len() && (#[trigger] fin.notes@[w]).id == m;
                        assert(s0.notes@[w].id == m);
                    }
                }
            }
            fin.lemma_note_idx(id as int);
            assert(fin.note_idx(id as int) == idx);
            assert(fin.note_content(id as int) == request.content@);
            assert(fin.note_created(id as int) == s0.note_created(id as int));
            assert(fin.note_updated(id as int) == Some(now@));
            assert(s0.other_notes_unchanged(fin, id as int)) by {
                assert forall|m: int| m != id as int implies s0.has_note(m) == fin.has_note(m) && (
                s0.has_note(m) ==> fin.note_content(m) == s0.note_content(m) && fin.note_created(
                    m,
                ) == s0.note_created(m) && fin.note_updated(m) == s0.note_updated(m)
                    && fin.tags_of(m) =~= s0.tags_of(m)) by {
                    if s0.has_note(m) {
                        s0.lemma_note_idx(m);
                        let w = s0.note_idx(m);
                        assert(fin.notes@[w].id == m);
                        fin.lemma_note_idx(m);
                        assert(fin.note_idx(m) == w);
                        assert(w != idx);
                        assert(fin.tags_of(m) =~= s3.tags_of(m));
                        assert(s3.tags_of(m) =~= s2.tags_of(m));
                        assert(s2.tags_of(m) =~= s1.tags_of(m));
                        assert(s1.tags_of(m) =~= s0.tags_of(m));
                    } else {
                        if fin.has_note(m) {
                            let w = choose|w: int|
                                0 <= w < fin.notes@.len() && (#[trigger] fin.notes@[w]).id == m;
                            assert(s0.notes@[w].id == m);
                        }
                    }
                }
            }
        }
    }

    /// Deletes a note and all its links, then collects orphaned tags.
    /// Deleting an absent identifier is a no-op.
    #[verifier::rlimit(100)]
    pub fn delete_note(&mut self, id: i64)
        requires
            old(self).wf(),
        ensures
            final(self).wf(),
            !final(self).has_note(id as int),
            final(self).note_ids() =~= old(self).note_ids().remove(id as int),
            final(self).next_note_id == old(self).next_note_id,
            final(self).next_tag_id == old(self).next_tag_id,
            old(self).other_notes_unchanged(*final(self), id as int),
            !old(self).has_note(id as int) ==> final(self).notes@ == old(self).notes@ && final(self).tags@ == old(self).tags@ && final(self).links@ == old(self).links@,
            old(self).has_note(id as int) ==> final(self).tag_names() =~= old(self).tags_used_except(id as int),
    {
        let ghost s0 = *self;
        let found = self.find_note(id);
        let idx = match found {
            None => {
                proof {
                    assert(self.note_ids() =~= s0.note_ids().remove(id as int));
                }
                return ;
            },
            Some(i) => i,
        };
        self.remove_links_of_note(id);
        let ghost s2 = *self;
        self.notes.remove(idx);
        let ghost s3 = *self;
        proof {
            assert(s3.notes@ == s2.notes@.remove(idx as int));
            s0.lemma_note_idx(id as int);
            assert forall|w: int| 0 <= w < s3.notes@.len() implies (#[trigger] s3.notes@[w]).id
                != id by {
                if w < idx {
                    assert(s3.notes@[w] == s2.notes@[w]);
                } else {
                    assert(s3.notes@[w] == s2.notes@[w + 1]);
                }
            }
            assert forall|i: int| 0 <= i < s3.links@.len() implies s3.has_note(
                (#[trigger] s3.links@[i]).note_id as int,
            ) && s3.has_tag_id(s3.links@[i].tag_id as int) by {
                assert(s2.linked(s2.links@[i].note_id as int, s2.links@[i].tag_id as int));
                assert(!s0.linked(id as int, s2.links@[i].tag_id as int) || s2.links@[i].note_id
                    != id);
                assert(s2.links@[i].note_id != id) by {
                    assert(s2.linked(s2.links@[i].note_id as int, s2.links@[i].tag_id as int));
                }
                assert(s2.has_note(s2.links@[i].note_id as int));
                let w = choose|w: int|
                    0 <= w < s2.notes@.len() && (#[trigger] s2.notes@[w]).id
                        == s2.links@[i].note_id;
                assert(w != idx);
                if w < idx {
                    assert(s3.notes@[w].id == s3.links@[i].note_id);
                } else {
                    assert(s3.notes@[w - 1].id == s3.links@[i].note_id);
                }
                assert(s2.has_tag_id(s2.links@[i].tag_id as int));
                let wt = choose|w2: int|
                    0 <= w2 < s2.tags@.len() && (#[trigger] s2.tags@[w2]).id
                        == s2.links@[i].tag_id;
                assert(s3.tags@[wt].id == s3.links@[i].tag_id);
            }
            assert(s3.wf_core());
            assert forall|m: int, n: Seq<char>|
                #![trigger s3.tags_of(m).contains(n)]
                true implies s3.tags_of(m).contains(n) == s2.tags_of(m).contains(n) by {}
        }
        self.sweep();
        proof {
            let fin = *self;
            assert forall|m: int| m != id as int implies (s0.has_note(m) == fin.has_note(m)) && (
            s0.has_note(m) ==> fin.note_content(m) == s0.note_content(m) && fin.note_created(m)
                == s0.note_created(m) && fin.note_updated(m) == s0.note_updated(m) && fin.tags_of(
                m,
            ) =~= s0.tags_of(m)) by {
                if s0.has_note(m) {
                    s0.lemma_note_idx(m);
                    let w = s0.note_idx(m);
                    if w < idx {
                        assert(fin.notes@[w].id == m);
                    } else {
                        assert(fin.notes@[w - 1].id == m);
                    }
                    assert(fin.has_note(m));
                    fin.lemma_note_idx(m);
                    assert(fin.tags_of(m) =~= s3.tags_of(m));
                    assert(s2.tags_of(m) =~= s0.tags_of(m));
                } else {
                    if fin.has_note(m) {
                        let w = choose|w: int|
                            0 <= w < fin.notes@.len() && (#[trigger] fin.notes@[w]).id == m;
                        if w < idx {
                            assert(s0.notes@[w].id == m);
                        } else {
                            assert(s0.notes@[w + 1].id == m);
                        }
                    }
                }
            }
            assert(fin.note_ids() =~= s0.note_ids().remove(id as int)) by {
                assert(!fin.has_note(id as int));
            }
            assert(fin.tag_names() =~= s0.tags_used_except(id as int)) by {
                assert forall|n: Seq<char>| #[trigger]
                    fin.has_tag_name(n) implies s0.tags_used_except(id as int).contains(n) by {
                    assert(s3.has_tag_name(n) && s3.tag_in_use(s3.tag_id_of(n)));
                    s3.lemma_tag_idx_by_name(n);
                    let tid = s3.tag_id_of(n);
                    let k = choose|k: int|
                        0 <= k < s3.links@.len() && (#[trigger] s3.links@[k]).tag_id == tid;
                    let m = s3.links@[k].note_id as int;
                    assert(s2.linked(m, tid));
                    assert(s0.linked(m, tid) && m != id as int);
                    assert(s0.has_tag_name(n)) by {
                        assert(s0.tags@ == s3.tags@);
                    }
                    s0.lemma_tag_idx_by_name(n);
                    assert(s0.tag_id_of(n) == tid) by {
                        assert(s0.tags@[s3.tag_idx_by_name(n)].name@ == n);
                    }
                    assert(s0.note_has_tag(m, n));
                    assert(s3.has_note(m));
                    assert(s0.has_note(m)) by {
                        let w = choose|w: int|
                            0 <= w < s3.notes@.len() && (#[trigger] s3.notes@[w]).id == m;
                        if w < idx {
                            assert(s0.notes@[w].id == m);
                        } else {
                            assert(s0.notes@[w + 1].id == m);
                        }
                    }
                    assert(s0.has_note(m) && m != id as int && s0.tags_of(m).contains(n));
                }
                assert forall|n: Seq<char>| #[trigger]
                    s0.tags_used_except(id as int).contains(n) implies fin.has_tag_name(n) by {
                    let m = choose|m: int| #[trigger]
                        s0.has_note(m) && m != id as int && s0.tags_of(m).contains(n);
                    assert(s0.note_has_tag(m, n));
                    s0.lemma_tag_idx_by_name(n);
                    let tid = s0.tag_id_of(n);
                    assert(s0.linked(m, tid));
                    assert(s2.linked(m, tid));
                    assert(s3.has_tag_name(n)) by {
                        assert(s3.tags@ == s0.tags@);
                    }
                    s3.lemma_tag_idx_by_name(n);
                    assert(s3.tag_id_of(n) == tid) by {
                        assert(s3.tags@[s0.tag_idx_by_name(n)].name@ == n);
                    }
                    assert(s3.tag_in_use(tid)) by {
                        let k = choose|k: int|
                            0 <= k < s2.links@.len() && (#[trigger] s2.links@[k]).note_id == m
                                && s2.links@[k].tag_id == tid;
                        assert(s3.links@[k].tag_id == tid);
                    }
                }
            }
        }
    }

    /// Deletes a tag outright: every link to it is force-removed first, then
    /// the row itself. Deleting an absent identifier is a no-op.
    #[verifier::rlimit(100)]
    pub fn delete_tag(&mut self, tag_id: i64)
        requires
            old(self).wf(),
        ensures
            final(self).wf(),
            final(self).notes@ == old(self).notes@,
            final(self).next_note_id == old(self).next_note_id,
            final(self).next_tag_id == old(self).next_tag_id,
            !final(self).has_tag_id(tag_id as int),
            !old(self).has_tag_id(tag_id as int) ==> final(self).tags@ == old(self).tags@ && final(self).links@ == old(self).links@,
            old(self).has_tag_id(tag_id as int) ==> {
                &&& final(self).tag_names() =~= old(self).tag_names().remove(
                    old(self).tag_name(tag_id as int),
                )
                &&& forall|m: int|
                    #[trigger] final(self).tags_of(m) =~= old(self).tags_of(m).remove(
                        old(self).tag_name(tag_id as int),
                    )
            },
    {
        let ghost s0 = *self;
        let found = self.find_tag_by_id(tag_id);
        let idx = match found {
            None => {
                return ;
            },
            Some(i) => i,
        };
        self.remove_links_of_tag(tag_id);
        let ghost s2 = *self;
        self.tags.remove(idx);
        let ghost s3 = *self;
        proof {
            s0.lemma_tag_idx(tag_id as int);
            Store::lemma_delete_tag_rows(s0, s2, s3, tag_id as int, idx as int);
            Store::lemma_delete_tag_sets(s0, s2, s3, tag_id as int, idx as int);
        }
    }

    /// Row-level consequences of removing a tag row after its links.
    #[verifier::rlimit(60)]
    proof fn lemma_delete_tag_rows(s0: Store, s2: Store, s3: Store, tag_id: int, idx: int)
        requires
            s0.wf(),
            s0.has_tag_id(tag_id),
            idx == s0.tag_idx(tag_id),
            s2.wf_core(),
            s2.notes@ == s0.notes@,
            s2.tags@ == s0.tags@,
            s2.next_note_id == s0.next_note_id,
            s2.next_tag_id == s0.next_tag_id,
            forall|n2: int, t2: int|
                #![trigger s2.linked(n2, t2)]
                #![trigger s0.linked(n2, t2)]
                s2.linked(n2, t2) <==> (s0.linked(n2, t2) && t2 != tag_id),
            forall|t: int| t != tag_id && s0.tag_in_use(t) ==> s2.tag_in_use(t),
            !s2.tag_in_use(tag_id),
            s3.notes@ == s2.notes@,
            s3.links@ == s2.links@,
            s3.tags@ == s2.tags@.remove(idx),
            s3.next_note_id == s2.next_note_id,
            s3.next_tag_id == s2.next_tag_id,
        ensures
            s3.wf(),
            !s3.has_tag_id(tag_id),
            s3.tag_names() =~= s0.tag_names().remove(s0.tag_name(tag_id)),
    {
        s0.lemma_tag_idx(tag_id);
        let oldname = s0.tag_name(tag_id);
        assert forall|w: int| 0 <= w < s3.tags@.len() implies (#[trigger] s3.tags@[w]).id != tag_id
            && s3.tags@[w].name@ != oldname by {
            if w < idx {
                assert(s3.tags@[w] == s2.tags@[w]);
            } else {
                assert(s3.tags@[w] == s2.tags@[w + 1]);
            }
        }
        assert forall|i: int| 0 <= i < s3.links@.len() implies s3.has_note(
            (#[trigger] s3.links@[i]).note_id as int,
        ) && s3.has_tag_id(s3.links@[i].tag_id as int) by {
            assert(s2.linked(s2.links@[i].note_id as int, s2.links@[i].tag_id as int));
            assert(s2.links@[i].tag_id != tag_id);
            assert(s2.has_note(s2.links@[i].note_id as int));
            let w = choose|w: int|
                0 <= w < s2.notes@.len() && (#[trigger] s2.notes@[w]).id == s2.links@[i].note_id;
            assert(s3.notes@[w].id == s3.links@[i].note_id);
            assert(s2.has_tag_id(s2.links@[i].tag_id as int));
            let wt = choose|w2: int|
                0 <= w2 < s2.tags@.len() && (#[trigger] s2.tags@[w2]).id == s2.links@[i].tag_id;
            assert(wt != idx);
            if wt < idx {
                assert(s3.tags@[wt].id == s3.links@[i].tag_id);
            } else {
                assert(s3.tags@[wt - 1].id == s3.links@[i].tag_id);
            }
        }
        assert(s3.wf_core());
        assert forall|i: int| 0 <= i < s3.tags@.len() implies s3.tag_in_use(
            (#[trigger] s3.tags@[i]).id as int,
        ) by {
            let w: int = if i < idx { i } else { i + 1 };
            assert(s3.tags@[i] == s2.tags@[w]);
            assert(s0.tag_in_use(s0.tags@[w].id as int));
            assert(s2.tags@[w].id != tag_id);
            assert(s2.tag_in_use(s2.tags@[w].id as int));
        }
        assert(s3.wf());
        assert(s3.tag_names() =~= s0.tag_names().remove(oldname)) by {
            assert forall|n: Seq<char>| #[trigger] s3.has_tag_name(n) implies s0.has_tag_name(n)
                && n != oldname by {
                let w = choose|w: int|
                    0 <= w < s3.tags@.len() && (#[trigger] s3.tags@[w]).name@ == n;
                let w2: int = if w < idx { w } else { w + 1 };
                assert(s0.tags@[w2].name@ == n);
            }
            assert forall|n: Seq<char>|
                #[trigger] s0.has_tag_name(n) && n != oldname implies s3.has_tag_name(n) by {
                s0.lemma_tag_idx_by_name(n);
                let w = s0.tag_idx_by_name(n);
                assert(w != idx) by {
                    assert(s0.tags@[idx].name@ == oldname);
                }
                if w < idx {
                    assert(s3.tags@[w].name@ == n);
                } else {
                    assert(s3.tags@[w - 1].name@ == n);
                }
            }
        }
    }

    /// Every note's tag set loses exactly the deleted tag's name.
    #[verifier::rlimit(60)]
    proof fn lemma_delete_tag_sets(s0: Store, s2: Store, s3: Store, tag_id: int, idx: int)
        requires
            s0.wf(),
            s0.has_tag_id(tag_id),
            idx == s0.tag_idx(tag_id),
            s2.wf_core(),
            s2.tags@ == s0.tags@,
            !s2.tag_in_use(tag_id),
            forall|m: int|
                #[trigger] s2.tags_of(m) =~= s0.tags_of(m).remove(s0.tag_name(tag_id)),
            s3.wf_core(),
            s3.links@ == s2.links@,
            s3.tags@ == s2.tags@.remove(idx),
        ensures
            forall|m: int|
                #[trigger] s3.tags_of(m) =~= s0.tags_of(m).remove(s0.tag_name(tag_id)),
    {
        s0.lemma_tag_idx(tag_id);
        let oldname = s0.tag_name(tag_id);
        assert forall|m: int| true implies #[trigger] s3.tags_of(m) =~= s0.tags_of(m).remove(
            oldname,
        ) by {
            assert(s2.tags_of(m) =~= s0.tags_of(m).remove(oldname));
            assert forall|n: Seq<char>|
                #![trigger s3.tags_of(m).contains(n)]
                true implies s3.tags_of(m).contains(n) == s2.tags_of(m).contains(n) by {
                if s3.tags_of(m).contains(n) {
                    s3.lemma_tag_idx_by_name(n);
                    let w = s3.tag_idx_by_name(n);
                    let w2: int = if w < idx { w } else { w + 1 };
                    assert(s2.tags@[w2].name@ == n);
                    assert(s2.has_tag_name(n));
                    s2.lemma_tag_idx_by_name(n);
                    assert(s2.tag_idx_by_name(n) == w2);
                    assert(s2.tag_id_of(n) == s3.tag_id_of(n));
                    assert(s2.note_has_tag(m, n));
                }
                if s2.tags_of(m).contains(n) {
                    s2.lemma_tag_idx_by_name(n);
                    let w2 = s2.tag_idx_by_name(n);
                    assert(n != oldname) by {
                        assert(s2.linked(m, s2.tag_id_of(n)));
                        if n == oldname {
                            assert(s2.tag_idx_by_name(n) == idx);
                            assert(s2.tag_id_of(n) == tag_id);
                        }
                    }
                    assert(w2 != idx) by {
                        assert(s2.tags@[idx].name@ == oldname);
                    }
                    let w: int = if w2 < idx { w2 } else { w2 - 1 };
                    assert(s3.tags@[w].name@ == n);
                    assert(s3.has_tag_name(n));
                    s3.lemma_tag_idx_by_name(n);
                    assert(s3.tag_idx_by_name(n) == w);
                    assert(s3.tag_id_of(n) == s2.tag_id_of(n));
                    assert(s3.note_has_tag(m, n));
                }
            }
        }
    }

    /// Renames a tag in place; note membership is unaffected.    /// Renames a tag in place; note membership is unaffected. Renaming to a
    /// name that a different tag already carries is rejected. Renaming an
    /// absent identifier is a no-op.
    pub fn rename_tag(&mut self, tag_id: i64, new_name: String) -> (r: Result<(), StoreError>)
        requires
            old(self).wf(),
        ensures
            final(self).wf(),
            final(self).notes@ == old(self).notes@,
            final(self).links@ == old(self).links@,
            final(self).next_note_id == old(self).next_note_id,
            final(self).next_tag_id == old(self).next_tag_id,
            !old(self).has_tag_id(tag_id as int) ==> r is Ok && final(self).tags@ == old(self).tags@,
            old(self).has_tag_id(tag_id as int) && old(self).has_tag_name(new_name@) && old(self).tag_id_of(new_name@) != tag_id as int ==> r == Result::<(), StoreError>::Err(
                StoreError::DuplicateTagName,
            ) && final(self).tags@ == old(self).tags@,
            old(self).has_tag_id(tag_id as int) && (!old(self).has_tag_name(new_name@) || old(self).tag_id_of(new_name@) == tag_id as int) ==> {
                &&& r is Ok
                &&& final(self).has_tag_id(tag_id as int)
                &&& final(self).tag_name(tag_id as int) == new_name@
                &&& final(self).tag_names() =~= old(self).tag_names().remove(
                    old(self).tag_name(tag_id as int),
                ).insert(new_name@)
                &&& forall|m: int|
                    #[trigger] final(self).tags_of(m) =~= (if old(self).tags_of(m).contains(
                        old(self).tag_name(tag_id as int),
                    ) {
                        old(self).tags_of(m).remove(old(self).tag_name(tag_id as int)).insert(
                            new_name@,
                        )
                    } else {
                        old(self).tags_of(m)
                    })
            },
    {
        let ghost s0 = *self;
        let found = self.find_tag_by_id(tag_id);
        let idx = match found {
            None => {
                return Ok(());
            },
            Some(i) => i,
        };
        let clash = self.find_tag_by_name(&new_name);
        match clash {
            Some(j) => {
                if self.tags[j].id != tag_id {
                    proof {
                        s0.lemma_tag_idx_by_name(new_name@);
                    }
                    return Err(StoreError::DuplicateTagName);
                }
            },
            None => {},
        }
        proof {
            s0.lemma_tag_idx(tag_id as int);
            if s0.has_tag_name(new_name@) {
                s0.lemma_tag_idx_by_name(new_name@);
            }
        }
        self.tags.remove(idx);
        self.tags.insert(idx, Tag { id: tag_id, name: new_name });
        proof {
            let fin = *self;
            let oldname = s0.tag_name(tag_id as int);
            let newname = fin.tags@[idx as int].name@;
            assert(s0.tag_idx(tag_id as int) == idx);
            assert(fin.tags@ =~= s0.tags@.update(idx as int, fin.tags@[idx as int]));
            assert(forall|w: int|
                0 <= w < fin.tags@.len() && w != idx ==> (#[trigger] fin.tags@[w])
                    == s0.tags@[w]);
            assert(forall|w: int|
                0 <= w < fin.tags@.len() ==> (#[trigger] fin.tags@[w]).id == s0.tags@[w].id);
            assert forall|w: int|
                0 <= w < fin.tags@.len() && w != idx implies (#[trigger] fin.tags@[w]).name@
                    != newname by {
                if s0.has_tag_name(newname) {
                    assert(s0.tag_idx_by_name(newname) == idx);
                    assert(s0.tags@[w].name@ != s0.tags@[idx as int].name@);
                }
            }
            assert forall|i: int, j2: int| 0 <= i < j2 < fin.tags@.len() implies (
            #[trigger] fin.tags@[i].name@) != (#[trigger] fin.tags@[j2].name@) by {
                if i != idx && j2 != idx {
                    assert(s0.tags@[i].name@ != s0.tags@[j2].name@);
                }
            }
            assert forall|i: int| 0 <= i < fin.links@.len() implies fin.has_note(
                (#[trigger] fin.links@[i]).note_id as int,
            ) && fin.has_tag_id(fin.links@[i].tag_id as int) by {
                assert(s0.has_note(s0.links@[i].note_id as int));
                assert(s0.has_tag_id(s0.links@[i].tag_id as int));
                let wn = choose|w: int|
                    0 <= w < s0.notes@.len() && (#[trigger] s0.notes@[w]).id
                        == fin.links@[i].note_id;
                assert(fin.notes@[wn].id == fin.links@[i].note_id);
                let wt = choose|w: int|
                    0 <= w < s0.tags@.len() && (#[trigger] s0.tags@[w]).id == fin.links@[i].tag_id;
                assert(fin.tags@[wt].id == fin.links@[i].tag_id);
            }
            assert(fin.wf_core());
            assert forall|i: int| 0 <= i < fin.tags@.len() implies fin.tag_in_use(
                (#[trigger] fin.tags@[i]).id as int,
            ) by {
                assert(s0.tag_in_use(s0.tags@[i].id as int));
            }
            assert(fin.wf());
            assert(fin.has_tag_id(tag_id as int)) by {
                assert(fin.tags@[idx as int].id == tag_id);
            }
            fin.lemma_tag_idx(tag_id as int);
            assert(fin.tag_idx(tag_id as int) == idx);
            assert(fin.tag_name(tag_id as int) == newname);
            assert(fin.tag_names() =~= s0.tag_names().remove(oldname).insert(newname)) by {
                assert forall|n: Seq<char>| #[trigger]
                    fin.has_tag_name(n) implies (s0.has_tag_name(n) && n != oldname) || n
                    == newname by {
                    let w = choose|w: int|
                        0 <= w < fin.tags@.len() && (#[trigger] fin.tags@[w]).name@ == n;
                    if w != idx {
                        assert(s0.tags@[w].name@ == n);
                        assert(n != oldname) by {
                            if n == oldname {
                                s0.lemma_tag_idx_by_name(n);
                                assert(w == idx);
                            }
                        }
                    }
                }
                assert forall|n: Seq<char>|
                    #[trigger] s0.has_tag_name(n) && n != oldname implies fin.has_tag_name(n) by {
                    s0.lemma_tag_idx_by_name(n);
                    let w = s0.tag_idx_by_name(n);
                    assert(w != idx) by {
                        assert(s0.tags@[idx as int].name@ == oldname);
                    }
                    assert(fin.tags@[w].name@ == n);
                }
                assert(fin.has_tag_name(newname)) by {
                    assert(fin.tags@[idx as int].name@ == newname);
                }
            }
            assert forall|m: int| true implies #[trigger] fin.tags_of(m) =~= (if s0.tags_of(
                m,
            ).contains(oldname) {
                s0.tags_of(m).remove(oldname).insert(newname)
            } else {
                s0.tags_of(m)
            }) by {
                assert forall|n: Seq<char>|
                    #![trigger fin.tags_of(m).contains(n)]
                    true implies fin.tags_of(m).contains(n) == (if n == newname {
                    s0.tags_of(m).contains(oldname) || (oldname == newname && s0.tags_of(
                        m,
                    ).contains(oldname))
                } else if n == oldname {
                    false
                } else {
                    s0.tags_of(m).contains(n)
                }) by {
                    if n == newname {
                        fin.lemma_tag_idx_by_name(n);
                        assert(fin.tag_idx_by_name(n) == idx) by {
                            assert(fin.tags@[idx as int].name@ == newname);
                        }
                        assert(fin.tag_id_of(n) == tag_id as int);
                        s0.lemma_tag_row_name(idx as int);
                        assert(s0.tag_id_of(oldname) == tag_id as int);
                        assert(fin.tags_of(m).contains(n) == fin.linked(m, tag_id as int));
                        assert(s0.tags_of(m).contains(oldname) == s0.linked(m, tag_id as int));
                    } else if n == oldname {
                        assert(!fin.has_tag_name(n)) by {
                            if fin.has_tag_name(n) {
                                let w = choose|w: int|
                                    0 <= w < fin.tags@.len() && (#[trigger] fin.tags@[w]).name@
                                        == n;
                                assert(w != idx);
                                assert(s0.tags@[w].name@ == oldname);
                                s0.lemma_tag_idx_by_name(oldname);
                                assert(w == idx);
                            }
                        }
                    } else {
                        if s0.has_tag_name(n) {
                            s0.lemma_tag_idx_by_name(n);
                            let w = s0.tag_idx_by_name(n);
                            assert(w != idx) by {
                                assert(s0.tags@[idx as int].name@ == oldname);
                            }
                            assert(fin.tags@[w].name@ == n);
                            fin.lemma_tag_idx_by_name(n);
                            assert(fin.tag_idx_by_name(n) == w);
                            assert(fin.tag_id_of(n) == s0.tag_id_of(n));
                        } else {
                            assert(!fin.has_tag_name(n)) by {
                                if fin.has_tag_name(n) {
                                    let w = choose|w: int|
                                        0 <= w < fin.tags@.len() && (#[trigger] fin.tags@[w]).name@
                                            == n;
                                    assert(w != idx);
                                    assert(s0.tags@[w].name@ == n);
                                }
                            }
                        }
                    }
                }
            }
        }
        Ok(())
    }
}

/// A rendered note entry agrees with the store: same identifier, content and
/// timestamps as the stored row, and its tag list is the note's tag set in
/// alphabetical order without duplicates.
pub open spec fn entry_matches(s: Store, id: int, e: NoteWithTags) -> bool {
    &&& e.id as int == id
    &&& s.has_note(id)
    &&& e.content@ == s.note_content(id)
    &&& crate::models::opt_view(e.created_at) == s.note_created(id)
    &&& crate::models::opt_view(e.updated_at) == s.note_updated(id)
    &&& tags_listing(s, id, e.tags@)
}

/// The vector is the note's tag-name set, alphabetically sorted, without
/// duplicates.
pub open spec fn tags_listing(s: Store, id: int, r: Seq<String>) -> bool {
    &&& sorted_names(r)
    &&& distinct_names(r)
    &&& forall|n: Seq<char>| #[trigger] name_in(r, n) <==> s.tags_of(id).contains(n)
}

/// The note exists and carries every requested tag name.
pub open spec fn qualifies(s: Store, id: int, req: Seq<String>) -> bool {
    s.has_note(id) && forall|n: Seq<char>| name_in(req, n) ==> #[trigger] s.tags_of(id).contains(n)
}

/// Some entry of the listing has this note identifier.
pub open spec fn in_listing(r: Seq<NoteWithTags>, id: int) -> bool {
    exists|p: int| 0 <= p < r.len() && (#[trigger] r[p]).id == id
}

/// The result of a tag search: entries for exactly the qualifying notes, in
/// strictly descending identifier order (newest first), each rendered
/// faithfully.
pub open spec fn search_listing(s: Store, req: Seq<String>, r: Seq<NoteWithTags>) -> bool {
    &&& forall|p: int| 0 <= p < r.len() ==> entry_matches(s, (#[trigger] r[p]).id as int, r[p])
    &&& forall|p: int, q: int| 0 <= p < q < r.len() ==> r[p].id > r[q].id
    &&& forall|id: int|
        #![trigger qualifies(s, id, req)]
        #![trigger in_listing(r, id)]
        qualifies(s, id, req) <==> in_listing(r, id)
}

/// The result of listing all notes: a search with nothing requested.
pub open spec fn all_notes_listing(s: Store, r: Seq<NoteWithTags>) -> bool {
    search_listing(s, Seq::<String>::empty(), r)
}

/// The listing has a row with this tag identifier and name.
pub open spec fn tag_row_in(v: Seq<Tag>, tid: int, n: Seq<char>) -> bool {
    exists|i: int| 0 <= i < v.len() && (#[trigger] v[i]).id == tid && v[i].name@ == n
}

/// Tag rows in (non-strict) alphabetical order of their names.
pub open spec fn sorted_tag_names(v: Seq<Tag>) -> bool {
    forall|i: int, j: int|
        0 <= i < j < v.len() ==> lex_le(#[trigger] v[i].name@, #[trigger] v[j].name@)
}

/// No two rows carry the same name.
pub open spec fn distinct_tag_names(v: Seq<Tag>) -> bool {
    forall|i: int, j: int| 0 <= i < j < v.len() ==> (#[trigger] v[i].name@) != (#[trigger] v[j].name@)
}

/// Inserts a tag row with a fresh name into a vector sorted by name.
fn insert_tag_sorted(v: &mut Vec<Tag>, x: Tag)
    requires
        sorted_tag_names(old(v)@),
        distinct_tag_names(old(v)@),
        forall|i: int| 0 <= i < old(v)@.len() ==> (#[trigger] old(v)@[i].name@) != x.name@,
    ensures
        sorted_tag_names(final(v)@),
        distinct_tag_names(final(v)@),
        final(v)@.len() == old(v)@.len() + 1,
        forall|tid: int, n: Seq<char>|
            #![trigger tag_row_in(final(v)@, tid, n)]
            #![trigger tag_row_in(old(v)@, tid, n)]
            tag_row_in(final(v)@, tid, n) <==> (tag_row_in(old(v)@, tid, n) || (tid == x.id as int
                && n == x.name@)),
{
    let mut k: usize = 0;
    #[verifier::loop_isolation(false)]
    while k < v.len()
        invariant
            k <= v@.len(),
            forall|i: int| 0 <= i < k ==> lex_le(#[trigger] v@[i].name@, x.name@),
        decreases v@.len() - k,
    {
        if !crate::order::str_le(v[k].name.as_str(), x.name.as_str()) {
            break;
        }
        k = k + 1;
    }
    proof {
        if k < v@.len() {
            crate::order::lemma_lex_le_total(v@[k as int].name@, x.name@);
            assert forall|j: int| k <= j < v@.len() implies lex_le(x.name@, #[trigger] v@[j].name@) by {
                if j > k {
                    crate::order::lemma_lex_le_trans(x.name@, v@[k as int].name@, v@[j].name@);
                }
            }
        }
    }
    let ghost before = v@;
    v.insert(k, x);
    proof {
        assert(forall|i: int| 0 <= i < k ==> v@[i] == before[i]);
        assert(v@[k as int] == x);
        assert(forall|i: int| k < i < v@.len() ==> v@[i] == before[i - 1]);
        assert forall|i: int, j: int| 0 <= i < j < v@.len() implies lex_le(
            #[trigger] v@[i].name@,
            #[trigger] v@[j].name@,
        ) by {
            if i == k {
                assert(lex_le(x.name@, before[j - 1].name@));
            } else if j == k {
                assert(lex_le(before[i].name@, x.name@));
            } else if i < k && j > k {
                assert(lex_le(before[i].name@, before[j - 1].name@));
            }
        }
        assert forall|i: int, j: int| 0 <= i < j < v@.len() implies (#[trigger] v@[i].name@) != (
        #[trigger] v@[j].name@) by {
            if i == k {
                assert(before[j - 1].name@ != x.name@);
            } else if j == k {
                assert(before[i].name@ != x.name@);
            }
        }
        assert forall|tid: int, n: Seq<char>|
            #![trigger tag_row_in(v@, tid, n)]
            #![trigger tag_row_in(before, tid, n)]
            tag_row_in(v@, tid, n) == (tag_row_in(before, tid, n) || (tid == x.id as int && n
                == x.name@)) by {
            if tag_row_in(v@, tid, n) {
                let i = choose|i: int|
                    0 <= i < v@.len() && (#[trigger] v@[i]).id == tid && v@[i].name@ == n;
                if i < k {
                    assert(before[i].id == tid && before[i].name@ == n);
                } else if i > k {
                    assert(before[i - 1].id == tid && before[i - 1].name@ == n);
                }
            }
            if tag_row_in(before, tid, n) {
                let i = choose|i: int|
                    0 <= i < before.len() && (#[trigger] before[i]).id == tid && before[i].name@
                        == n;
                if i < k {
                    assert(v@[i].id == tid && v@[i].name@ == n);
                } else {
                    assert(v@[i + 1].id == tid && v@[i + 1].name@ == n);
                }
            }
            if tid == x.id as int && n == x.name@ {
                assert(v@[k as int].id == tid && v@[k as int].name@ == n);
            }
        }
    }
}

/// Clones an optional string.
fn clone_opt(o: &Option<String>) -> (r: Option<String>)
    ensures
        r == *o,
{
    match o {
        Some(s) => Some(s.clone()),
        None => None,
    }
}

} // verus!
