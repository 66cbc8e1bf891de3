//! Properties that relate several operations of the store, stated over the
//! models that the operations' own contracts use.
use vstd::prelude::*;
use crate::model::{Attachment, Note, NoteState, Notebook};
use crate::store::{
    Store, active_in, attachment_key, attachment_not_of, attachment_outside, has_attachment, has_note,
    has_note_in, has_notebook, in_trash, note_key, note_other_than, note_outside, notebook_key,
    notebook_other_than, next_stamp, replace_note,
};

verus! {

broadcast use vstd::seq_lib::group_filter_ensures;

/// A notebook added by `create_notebook` has a non-empty id that no notebook
/// had before, and `list_notebooks` lists it afterwards.
pub proof fn created_notebook_is_new_and_listed(before: Store, after: Store, nb: Notebook, listed: Seq<Notebook>)
    requires
        before.wf(),
        after.wf(),
        after.notebooks() == before.notebooks().push(nb),
        listed == after.notebooks(),
    ensures
        nb.id@.len() > 0,
        !has_notebook(before.notebooks(), nb.id@),
        listed.contains(nb),
{
    let s = after.notebooks();
    let last = s.len() - 1;
    assert(s[last] == nb);
    assert(s[last].id@.len() > 0);
    if has_notebook(before.notebooks(), nb.id@) {
        let k = choose|k: int| 0 <= k < before.notebooks().len() && (#[trigger] before.notebooks()[k]).id@ == nb.id@;
        assert(s[k] == before.notebooks()[k]);
        assert(notebook_key()(s[k]) != notebook_key()(s[last]));
    }
}

/// After `delete_notebook(id)` the notebook is gone (so `list_notes(id)` fails
/// with `NotFound`), and so is every note it held and every attachment of those
/// notes (so `get_attachment` on any of them fails with `NotFound`).
pub proof fn deleted_notebook_leaves_nothing(before: Store, after: Store, id: Seq<char>)
    requires
        before.wf(),
        after.notebooks() == before.notebooks().filter(notebook_other_than(id)),
        after.notes() == before.notes().filter(note_outside(id)),
        after.attachments() == before.attachments().filter(attachment_outside(before.notes(), id)),
    ensures
        !has_notebook(after.notebooks(), id),
        forall|i: int|
            0 <= i < before.notes().len() && (#[trigger] before.notes()[i]).notebook_id@ == id
                ==> !has_note(after.notes(), before.notes()[i].id@),
        forall|i: int|
            0 <= i < before.attachments().len() && crate::store::note_in_notebook(
                before.notes(),
                (#[trigger] before.attachments()[i]).note_id@,
                id,
            ) ==> !has_attachment(after.attachments(), before.attachments()[i].id@),
{
    let nbs2 = after.notebooks();
    let ns = before.notes();
    let ns2 = after.notes();
    let ats = before.attachments();
    let ats2 = after.attachments();
    if has_notebook(nbs2, id) {
        let k = choose|k: int| 0 <= k < nbs2.len() && (#[trigger] nbs2[k]).id@ == id;
        assert(notebook_other_than(id)(nbs2[k]));
    }
    assert forall|i: int| 0 <= i < ns.len() && (#[trigger] ns[i]).notebook_id@ == id implies !has_note(ns2, ns[i].id@) by {
        if has_note(ns2, ns[i].id@) {
            let k = choose|k: int| 0 <= k < ns2.len() && (#[trigger] ns2[k]).id@ == ns[i].id@;
            assert(note_outside(id)(ns2[k]));
            assert(ns2.contains(ns2[k]));
            ns.lemma_filter_contains_rev(note_outside(id), ns2[k]);
            let m = choose|m: int| 0 <= m < ns.len() && ns[m] == ns2[k];
            if m != i {
                assert(note_key()(ns[m]) != note_key()(ns[i]));
            }
        }
    }
    assert forall|i: int|
        0 <= i < ats.len() && crate::store::note_in_notebook(ns, (#[trigger] ats[i]).note_id@, id)
            implies !has_attachment(ats2, ats[i].id@) by {
        if has_attachment(ats2, ats[i].id@) {
            let k = choose|k: int| 0 <= k < ats2.len() && (#[trigger] ats2[k]).id@ == ats[i].id@;
            assert(attachment_outside(ns, id)(ats2[k]));
            assert(ats2.contains(ats2[k]));
            ats.lemma_filter_contains_rev(attachment_outside(ns, id), ats2[k]);
            let m = choose|m: int| 0 <= m < ats.len() && ats[m] == ats2[k];
            if m != i {
                assert(attachment_key()(ats[m]) != attachment_key()(ats[i]));
            }
        }
    }
}

/// After `soft_delete_note(id)` the note is in no notebook's active listing
/// and is in the trash listing.
pub proof fn trashed_note_moves_to_trash(before: Store, after: Store, id: Seq<char>, t: i64)
    requires
        before.wf(),
        has_note_in(before.notes(), id, NoteState::Active),
        after.notes() == replace_note(
            before.notes(),
            id,
            |n: Note| (Note { state: NoteState::Trashed, updated_at: t, ..n }),
        ),
    ensures
        forall|notebook_id: Seq<char>| !has_note(#[trigger] after.notes().filter(active_in(notebook_id)), id),
        has_note(after.notes().filter(in_trash()), id),
{
    let ns = before.notes();
    let ns2 = after.notes();
    let k = choose|k: int| 0 <= k < ns.len() && (#[trigger] ns[k]).id@ == id && ns[k].state == NoteState::Active;
    assert(ns2[k].id@ == id && ns2[k].state == NoteState::Trashed);
    assert(in_trash()(ns2[k]));
    let f = ns2.filter(in_trash());
    assert(f.contains(ns2[k]));
    let j = choose|j: int| 0 <= j < f.len() && f[j] == ns2[k];
    assert(f[j].id@ == id);
    assert forall|notebook_id: Seq<char>| !has_note(#[trigger] ns2.filter(active_in(notebook_id)), id) by {
        let g = ns2.filter(active_in(notebook_id));
        if has_note(g, id) {
            let m = choose|m: int| 0 <= m < g.len() && (#[trigger] g[m]).id@ == id;
            assert(active_in(notebook_id)(g[m]));
            assert(g.contains(g[m]));
            ns2.lemma_filter_contains_rev(active_in(notebook_id), g[m]);
            let q = choose|q: int| 0 <= q < ns2.len() && ns2[q] == g[m];
            assert(ns2[q].state == NoteState::Trashed);
        }
    }
}

/// `restore_note` undoes `soft_delete_note` exactly: the notes are as before the
/// two calls but for the restored note's `updated_at`.
pub proof fn restore_undoes_trash(before: Store, id: Seq<char>, t1: i64, t2: i64)
    requires
        before.wf(),
        has_note_in(before.notes(), id, NoteState::Active),
    ensures
        replace_note(
            replace_note(before.notes(), id, |n: Note| (Note { state: NoteState::Trashed, updated_at: t1, ..n })),
            id,
            |n: Note| (Note { state: NoteState::Active, updated_at: t2, ..n }),
        ) == replace_note(before.notes(), id, |n: Note| (Note { updated_at: t2, ..n })),
{
    let ns = before.notes();
    let lhs = replace_note(
        replace_note(ns, id, |n: Note| (Note { state: NoteState::Trashed, updated_at: t1, ..n })),
        id,
        |n: Note| (Note { state: NoteState::Active, updated_at: t2, ..n }),
    );
    let rhs = replace_note(ns, id, |n: Note| (Note { updated_at: t2, ..n }));
    let k = choose|k: int| 0 <= k < ns.len() && (#[trigger] ns[k]).id@ == id && ns[k].state == NoteState::Active;
    assert forall|i: int| 0 <= i < ns.len() implies lhs[i] == rhs[i] by {
        if ns[i].id@ == id {
            if i != k {
                assert(note_key()(ns[i]) != note_key()(ns[k]));
            }
        }
    }
    assert(lhs =~= rhs);
}

/// A change stamped at `now` leaves the note with a later `updated_at` than it
/// had, as long as the clock's range is not exhausted.
pub proof fn change_refreshes_updated_at(before: Store, n: Note, now: i64)
    requires
        before.wf(),
        before.notes().contains(n),
        before.clock() < i64::MAX,
    ensures
        next_stamp(before.clock(), now) > n.updated_at,
{
}

/// After `purge_note(id)`, from either lifecycle state, the note cannot be
/// found or restored, and none of its attachments remains.
pub proof fn purged_note_is_gone(before: Store, after: Store, id: Seq<char>)
    requires
        before.wf(),
        after.notes() == before.notes().filter(note_other_than(id)),
        after.attachments() == before.attachments().filter(attachment_not_of(id)),
    ensures
        !has_note(after.notes(), id),
        !has_note_in(after.notes(), id, NoteState::Trashed),
        forall|i: int|
            0 <= i < after.attachments().len() ==> (#[trigger] after.attachments()[i]).note_id@ != id,
{
    let ns2 = after.notes();
    if has_note(ns2, id) {
        let k = choose|k: int| 0 <= k < ns2.len() && (#[trigger] ns2[k]).id@ == id;
        assert(note_other_than(id)(ns2[k]));
    }
    assert forall|i: int| 0 <= i < after.attachments().len() implies (#[trigger] after.attachments()[i]).note_id@ != id by {
        assert(attachment_not_of(id)(after.attachments()[i]));
    }
}

/// An attachment added by `save_attachment` is the one that `get_attachment`
/// and `get_attachment_metadata` find under its id: same payload, byte for
/// byte, and `size` equal to the payload's length.
pub proof fn saved_attachment_reads_back(before: Store, after: Store, a: Attachment)
    requires
        after.wf(),
        after.attachments() == before.attachments().push(a),
    ensures
        forall|k: int|
            0 <= k < after.attachments().len() && (#[trigger] after.attachments()[k]).id@ == a.id@
                ==> after.attachments()[k] == a,
        a.size == a.data@.len(),
{
    let s = after.attachments();
    let last = s.len() - 1;
    assert(s[last] == a);
    assert forall|k: int| 0 <= k < s.len() && (#[trigger] s[k]).id@ == a.id@ implies s[k] == a by {
        if k != last {
            assert(attachment_key()(s[k]) != attachment_key()(s[last]));
        }
    }
}

} // verus!
