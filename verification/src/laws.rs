//! Engine-wide laws: consequences of the operation contracts, stated and
//! proved once for every state they can reach.

use vstd::prelude::*;

use crate::models::NoteWithTags;
use crate::order::{name_in, names_set};
use crate::store::{entry_matches, in_listing, qualifies, search_listing, tags_listing, Store};

verus! {

/// No two tag rows of a well-formed store carry the same name: resolving or
/// creating with a name that already exists can never duplicate its row.
pub proof fn tag_names_unique(s: Store, i: int, j: int)
    requires
        s.wf(),
        0 <= i < j < s.tags@.len(),
    ensures
        s.tags@[i].name@ != s.tags@[j].name@,
{
}

/// Resolving a name that is already present leaves the set of tag names as
/// it was: repeated resolution is idempotent on the tag table.
pub proof fn resolve_present_adds_nothing(s1: Store, s2: Store, n: Seq<char>)
    requires
        s1.has_tag_name(n),
        s2.tag_names() =~= s1.tag_names().insert(n),
    ensures
        s2.tag_names() =~= s1.tag_names(),
{
}

/// A note read back right after its creation shows the content and exactly
/// the tag-name set that were handed to `create_note`.
pub proof fn created_note_reads_back(
    s1: Store,
    content: Seq<char>,
    names: Seq<String>,
    id: int,
    e: NoteWithTags,
)
    requires
        s1.has_note(id),
        s1.note_content(id) == content,
        s1.tags_of(id) =~= names_set(names),
        entry_matches(s1, id, e),
    ensures
        e.content@ == content,
        names_set(e.tags@) =~= names_set(names),
{
    assert forall|n: Seq<char>|
        #![trigger names_set(e.tags@).contains(n)]
        #![trigger names_set(names).contains(n)]
        names_set(e.tags@).contains(n) == names_set(names).contains(n) by {
        assert(names_set(e.tags@).contains(n) == name_in(e.tags@, n));
        assert(name_in(e.tags@, n) == s1.tags_of(id).contains(n));
    }
}

/// After a note is deleted, a tag that no other note carried is gone from
/// the tag table.
pub proof fn delete_collects_exclusive_tag(s0: Store, s1: Store, id: int, n: Seq<char>)
    requires
        s1.tag_names() =~= s0.tags_used_except(id),
        forall|m: int| m != id ==> !(#[trigger] s0.tags_of(m).contains(n)),
    ensures
        !s1.tag_names().contains(n),
{
    if s1.tag_names().contains(n) {
        let m = choose|m: int| #[trigger]
            s0.has_note(m) && m != id && s0.tags_of(m).contains(n);
        assert(!s0.tags_of(m).contains(n));
    }
}

/// After a note's tag set is replaced by the empty set, its tag listing is
/// empty, and a tag that only this note carried is collected.
pub proof fn update_to_no_tags_clears(
    s0: Store,
    s1: Store,
    id: int,
    n: Seq<char>,
    listed: Seq<String>,
)
    requires
        s1.tags_of(id) =~= names_set(Seq::<String>::empty()),
        tags_listing(s1, id, listed),
        s1.tag_names() =~= s0.tags_used_except(id).union(names_set(Seq::<String>::empty())),
        forall|m: int| m != id ==> !(#[trigger] s0.tags_of(m).contains(n)),
    ensures
        listed.len() == 0,
        !s1.tag_names().contains(n),
{
    assert(listed.len() == 0) by {
        if listed.len() > 0 {
            assert(name_in(listed, listed[0]@));
            assert(s1.tags_of(id).contains(listed[0]@));
            assert(names_set(Seq::<String>::empty()).contains(listed[0]@));
            assert(name_in(Seq::<String>::empty(), listed[0]@));
            let x = choose|x: int|
                0 <= x < Seq::<String>::empty().len() && Seq::<String>::empty()[x]@ == listed[0]@;
        }
    }
    if s1.tag_names().contains(n) {
        if s0.tags_used_except(id).contains(n) {
            let m = choose|m: int| #[trigger]
                s0.has_note(m) && m != id && s0.tags_of(m).contains(n);
            assert(!s0.tags_of(m).contains(n));
        } else {
            assert(names_set(Seq::<String>::empty()).contains(n));
            let x = choose|x: int|
                0 <= x < Seq::<String>::empty().len() && Seq::<String>::empty()[x]@ == n;
        }
    }
}

/// Two listings that satisfy the same search characterization are the same
/// note sequence: searching with no tag names returns exactly the notes that
/// listing all notes returns, in the same order.
pub proof fn same_listing_same_ids(r1: Seq<NoteWithTags>, r2: Seq<NoteWithTags>)
    requires
        forall|p: int, q: int| 0 <= p < q < r1.len() ==> r1[p].id > r1[q].id,
        forall|p: int, q: int| 0 <= p < q < r2.len() ==> r2[p].id > r2[q].id,
        forall|id: int|
            #![trigger in_listing(r1, id)]
            #![trigger in_listing(r2, id)]
            in_listing(r1, id) == in_listing(r2, id),
    ensures
        r1.len() == r2.len(),
        forall|p: int| 0 <= p < r1.len() ==> r1[p].id == r2[p].id,
    decreases r1.len(),
{
    if r1.len() == 0 {
        if r2.len() > 0 {
            assert(in_listing(r2, r2[0].id as int));
            assert(in_listing(r1, r2[0].id as int));
            let p = choose|p: int| 0 <= p < r1.len() && (#[trigger] r1[p]).id == r2[0].id;
        }
    } else {
        assert(in_listing(r1, r1[0].id as int));
        assert(in_listing(r2, r1[0].id as int));
        let p2 = choose|p: int| 0 <= p < r2.len() && (#[trigger] r2[p]).id == r1[0].id;
        assert(in_listing(r2, r2[0].id as int));
        assert(in_listing(r1, r2[0].id as int));
        let p1 = choose|p: int| 0 <= p < r1.len() && (#[trigger] r1[p]).id == r2[0].id;
        assert(r1[0].id == r2[0].id) by {
            if p2 > 0 {
                assert(r2[0].id > r2[p2].id);
                assert(r1[0].id >= r2[0].id || p1 > 0);
                if p1 > 0 {
                    assert(r1[0].id > r1[p1].id);
                }
            }
        }
        let t1 = r1.drop_first();
        let t2 = r2.drop_first();
        assert forall|id: int|
            #![trigger in_listing(t1, id)]
            #![trigger in_listing(t2, id)]
            in_listing(t1, id) == in_listing(t2, id) by {
            if in_listing(t1, id) {
                let p = choose|p: int| 0 <= p < t1.len() && (#[trigger] t1[p]).id == id;
                assert(r1[p + 1].id == id);
                assert(in_listing(r1, id));
                assert(id < r1[0].id);
                let q = choose|q: int| 0 <= q < r2.len() && (#[trigger] r2[q]).id == id;
                assert(q != 0);
                assert(t2[q - 1].id == id);
            }
            if in_listing(t2, id) {
                let p = choose|p: int| 0 <= p < t2.len() && (#[trigger] t2[p]).id == id;
                assert(r2[p + 1].id == id);
                assert(in_listing(r2, id));
                assert(id < r2[0].id);
                let q = choose|q: int| 0 <= q < r1.len() && (#[trigger] r1[q]).id == id;
                assert(q != 0);
                assert(t1[q - 1].id == id);
            }
        }
        same_listing_same_ids(t1, t2);
        assert forall|p: int| 0 <= p < r1.len() implies r1[p].id == r2[p].id by {
            if p > 0 {
                assert(t1[p - 1].id == t2[p - 1].id);
            }
        }
    }
}

/// A note is in a search result exactly when it carries every requested
/// name: one linked to all of them is included, one missing any is not.
pub proof fn search_is_intersection(s: Store, req: Seq<String>, r: Seq<NoteWithTags>, id: int)
    requires
        search_listing(s, req, r),
        s.has_note(id),
    ensures
        in_listing(r, id) == (forall|n: Seq<char>|
            name_in(req, n) ==> #[trigger] s.tags_of(id).contains(n)),
{
    assert(qualifies(s, id, req) == in_listing(r, id));
}

} // verus!
