//! The storage core: notebooks, notes and attachments held together under
//! referential integrity, with the note trash lifecycle and cascading deletes.
//!
//! Identifiers and the current time are handed in by the caller, so every
//! operation here is a function of the store and its arguments.
use vstd::prelude::*;
use crate::model::{Attachment, AttachmentInfo, Note, NoteState, Notebook, StoreError, MAX_ATTACHMENT_SIZE, copy_bytes, info_of};
use crate::order::{sort_by_title, sorted_by_title};

verus! {

broadcast use vstd::seq_lib::group_filter_ensures, vstd::seq_lib::group_to_multiset_ensures;

pub open spec fn has_notebook(s: Seq<Notebook>, id: Seq<char>) -> bool {
    exists|i: int| 0 <= i < s.len() && (#[trigger] s[i]).id@ == id
}

pub open spec fn has_note(s: Seq<Note>, id: Seq<char>) -> bool {
    exists|i: int| 0 <= i < s.len() && (#[trigger] s[i]).id@ == id
}

pub open spec fn has_attachment(s: Seq<Attachment>, id: Seq<char>) -> bool {
    exists|i: int| 0 <= i < s.len() && (#[trigger] s[i]).id@ == id
}

/// The note `note_id` is stored and belongs to notebook `notebook_id`.
pub open spec fn note_in_notebook(s: Seq<Note>, note_id: Seq<char>, notebook_id: Seq<char>) -> bool {
    exists|i: int| 0 <= i < s.len() && (#[trigger] s[i]).id@ == note_id && s[i].notebook_id@ == notebook_id
}

pub open spec fn notebook_other_than(id: Seq<char>) -> spec_fn(Notebook) -> bool {
    |b: Notebook| b.id@ != id
}

pub open spec fn note_other_than(id: Seq<char>) -> spec_fn(Note) -> bool {
    |n: Note| n.id@ != id
}

pub open spec fn note_outside(notebook_id: Seq<char>) -> spec_fn(Note) -> bool {
    |n: Note| n.notebook_id@ != notebook_id
}

pub open spec fn attachment_not_of(note_id: Seq<char>) -> spec_fn(Attachment) -> bool {
    |a: Attachment| a.note_id@ != note_id
}

pub open spec fn attachment_outside(notes: Seq<Note>, notebook_id: Seq<char>) -> spec_fn(Attachment) -> bool {
    |a: Attachment| !note_in_notebook(notes, a.note_id@, notebook_id)
}

/// Notes of the notebook that are not in the trash.
pub open spec fn active_in(notebook_id: Seq<char>) -> spec_fn(Note) -> bool {
    |n: Note| n.notebook_id@ == notebook_id && n.state == NoteState::Active
}

pub open spec fn in_trash() -> spec_fn(Note) -> bool {
    |n: Note| n.state == NoteState::Trashed
}

/// `s` with the note whose id is `id` replaced by `f` of it.
pub open spec fn replace_note(s: Seq<Note>, id: Seq<char>, f: spec_fn(Note) -> Note) -> Seq<Note> {
    s.map_values(|n: Note| if n.id@ == id { f(n) } else { n })
}

/// The time stamp given to a change made at `now` when the latest stamp so far is
/// `clock`: `now` itself if it is later, else one microsecond after `clock`, so that
/// stamps strictly increase until the clock's range is exhausted.
pub open spec fn next_stamp(clock: i64, now: i64) -> i64 {
    if now > clock {
        now
    } else if clock < i64::MAX {
        (clock + 1) as i64
    } else {
        clock
    }
}

/// No two records of `s` share a key.
pub open spec fn keys_distinct<A>(s: Seq<A>, key: spec_fn(A) -> Seq<char>) -> bool {
    forall|i: int, j: int|
        0 <= i < s.len() && 0 <= j < s.len() && i != j ==> key(#[trigger] s[i]) != key(#[trigger] s[j])
}

pub open spec fn notebook_key() -> spec_fn(Notebook) -> Seq<char> {
    |b: Notebook| b.id@
}

pub open spec fn note_key() -> spec_fn(Note) -> Seq<char> {
    |n: Note| n.id@
}

pub open spec fn attachment_key() -> spec_fn(Attachment) -> Seq<char> {
    |a: Attachment| a.id@
}

/// `id` is among the identifiers `s` records as given out.
pub open spec fn is_issued(s: Seq<String>, id: Seq<char>) -> bool {
    exists|i: int| 0 <= i < s.len() && (#[trigger] s[i])@ == id
}

/// Referential integrity, the limits on each record, and every live
/// identifier recorded as given out.
pub open spec fn store_wf(
    nbs: Seq<Notebook>,
    ns: Seq<Note>,
    ats: Seq<Attachment>,
    iss: Seq<String>,
    clock: i64,
) -> bool {
    &&& forall|i: int| 0 <= i < nbs.len() ==> (#[trigger] nbs[i]).id@.len() > 0 && is_issued(iss, nbs[i].id@)
    &&& keys_distinct(nbs, notebook_key())
    &&& forall|i: int|
        0 <= i < ns.len() ==> {
            &&& (#[trigger] ns[i]).id@.len() > 0
            &&& is_issued(iss, ns[i].id@)
            &&& has_notebook(nbs, ns[i].notebook_id@)
            &&& ns[i].created_at <= ns[i].updated_at <= clock
        }
    &&& keys_distinct(ns, note_key())
    &&& forall|i: int|
        0 <= i < ats.len() ==> {
            &&& (#[trigger] ats[i]).id@.len() > 0
            &&& is_issued(iss, ats[i].id@)
            &&& has_note(ns, ats[i].note_id@)
            &&& ats[i].size == ats[i].data@.len()
            &&& ats[i].size <= MAX_ATTACHMENT_SIZE
            &&& ats[i].created_at <= clock
        }
    &&& keys_distinct(ats, attachment_key())
}

proof fn lemma_filter_skip<A>(s: Seq<A>, i: int, p: spec_fn(A) -> bool)
    requires
        0 <= i < s.len(),
    ensures
        s.skip(i).filter(p) == (if p(s[i]) { seq![s[i]] } else { Seq::empty() }) + s.skip(i + 1).filter(p),
{
    assert(s.skip(i) =~= seq![s[i]] + s.skip(i + 1));
    s.skip(i + 1).lemma_filter_prepend(s[i], p);
}

proof fn lemma_filter_empty<A>(s: Seq<A>, p: spec_fn(A) -> bool)
    requires
        s.len() == 0,
    ensures
        s.filter(p) == Seq::<A>::empty(),
{
    assert(s.filter(p) =~= Seq::<A>::empty());
}

proof fn lemma_filter_keys_distinct<A>(s: Seq<A>, p: spec_fn(A) -> bool, key: spec_fn(A) -> Seq<char>)
    requires
        keys_distinct(s, key),
    ensures
        keys_distinct(s.filter(p), key),
        forall|k: int| 0 <= k < s.filter(p).len() ==> s.contains(#[trigger] s.filter(p)[k]),
    decreases s.len(),
{
    reveal(Seq::filter);
    if s.len() > 0 {
        let r = s.drop_last();
        assert forall|i: int, j: int| 0 <= i < r.len() && 0 <= j < r.len() && i != j implies key(
            #[trigger] r[i],
        ) != key(#[trigger] r[j]) by {
            assert(r[i] == s[i] && r[j] == s[j]);
        }
        lemma_filter_keys_distinct(r, p, key);
        let f = r.filter(p);
        assert forall|k: int| 0 <= k < f.len() implies key(#[trigger] f[k]) != key(s.last()) && s.contains(f[k]) by {
            assert(r.contains(f[k]));
            let m = choose|m: int| 0 <= m < r.len() && r[m] == f[k];
            assert(s[m] == r[m]);
        }
        if p(s.last()) {
            let g = f.push(s.last());
            assert(s.filter(p) == g);
            assert forall|i: int, j: int| 0 <= i < g.len() && 0 <= j < g.len() && i != j implies key(
                #[trigger] g[i],
            ) != key(#[trigger] g[j]) by {
                if i < f.len() && j < f.len() {
                    assert(g[i] == f[i] && g[j] == f[j]);
                } else if i < f.len() {
                    assert(g[i] == f[i]);
                } else if j < f.len() {
                    assert(g[j] == f[j]);
                }
            }
            assert forall|k: int| 0 <= k < g.len() implies s.contains(#[trigger] g[k]) by {
                if k < f.len() {
                    assert(g[k] == f[k]);
                } else {
                    assert(s[s.len() - 1] == g[k]);
                }
            }
        }
    }
}

/// Position of the notebook `id`, if stored.
fn notebook_position(v: &Vec<Notebook>, id: &String) -> (r: Option<usize>)
    ensures
        match r {
            Some(k) => k < v@.len() && v@[k as int].id@ == id@,
            None => !has_notebook(v@, id@),
        },
{
    let mut k: usize = 0;
    while k < v.len()
        invariant
            k <= v@.len(),
            forall|j: int| 0 <= j < k ==> v@[j].id@ != id@,
        decreases v.len() - k,
    {
        if v[k].id == *id {
            return Some(k);
        }
        k = k + 1;
    }
    None
}

/// Position of the note `id`, if stored.
fn note_position(v: &Vec<Note>, id: &String) -> (r: Option<usize>)
    ensures
        match r {
            Some(k) => k < v@.len() && v@[k as int].id@ == id@,
            None => !has_note(v@, id@),
        },
{
    let mut k: usize = 0;
    while k < v.len()
        invariant
            k <= v@.len(),
            forall|j: int| 0 <= j < k ==> v@[j].id@ != id@,
        decreases v.len() - k,
    {
        if v[k].id == *id {
            return Some(k);
        }
        k = k + 1;
    }
    None
}

/// Position of the attachment `id`, if stored.
fn attachment_position(v: &Vec<Attachment>, id: &String) -> (r: Option<usize>)
    ensures
        match r {
            Some(k) => k < v@.len() && v@[k as int].id@ == id@,
            None => !has_attachment(v@, id@),
        },
{
    let mut k: usize = 0;
    while k < v.len()
        invariant
            k <= v@.len(),
            forall|j: int| 0 <= j < k ==> v@[j].id@ != id@,
        decreases v.len() - k,
    {
        if v[k].id == *id {
            return Some(k);
        }
        k = k + 1;
    }
    None
}

/// Keeps the elements of `v` for which `keep` holds, in order; `keep` decides
/// as `p` does.
fn retain<A, F: Fn(&A) -> bool>(v: &mut Vec<A>, keep: F, Ghost(p): Ghost<spec_fn(A) -> bool>)
    requires
        forall|x: &A| #[trigger] keep.requires((x,)),
        forall|x: &A, b: bool| keep.ensures((x,), b) ==> b == p(*x),
    ensures
        final(v)@ == old(v)@.filter(p),
{
    let ghost s = v@;
    let mut i: usize = v.len();
    proof {
        lemma_filter_empty(s.skip(s.len() as int), p);
        assert(s.take(s.len() as int) =~= s);
    }
    while i > 0
        invariant
            i <= s.len(),
            v@ =~= s.take(i as int) + s.skip(i as int).filter(p),
            forall|x: &A| #[trigger] keep.requires((x,)),
            forall|x: &A, b: bool| keep.ensures((x,), b) ==> b == p(*x),
        decreases i,
    {
        let ghost prev = v@;
        i = i - 1;
        proof {
            lemma_filter_skip(s, i as int, p);
            assert(s.take(i + 1) =~= s.take(i as int).push(s[i as int]));
            assert(prev[i as int] == s[i as int]);
        }
        let kept = keep(&v[i]);
        if kept {
            assert(v@ =~= s.take(i as int) + (seq![s[i as int]] + s.skip(i + 1).filter(p)));
        } else {
            v.remove(i);
            assert(v@ =~= s.take(i as int) + s.skip(i + 1).filter(p));
        }
    }
    assert(s.skip(0) =~= s);
}

proof fn lemma_push_keys_distinct<A>(s: Seq<A>, x: A, key: spec_fn(A) -> Seq<char>)
    requires
        keys_distinct(s, key),
        forall|i: int| 0 <= i < s.len() ==> key(#[trigger] s[i]) != key(x),
    ensures
        keys_distinct(s.push(x), key),
{
    let t = s.push(x);
    assert forall|i: int, j: int| 0 <= i < t.len() && 0 <= j < t.len() && i != j implies key(#[trigger] t[i])
        != key(#[trigger] t[j]) by {
        if i < s.len() && j < s.len() {
            assert(t[i] == s[i] && t[j] == s[j]);
        } else if i < s.len() {
            assert(t[i] == s[i]);
        } else {
            assert(t[j] == s[j]);
        }
    }
}

/// The note `id` is stored and in state `state`.
pub open spec fn has_note_in(s: Seq<Note>, id: Seq<char>, state: NoteState) -> bool {
    exists|i: int| 0 <= i < s.len() && (#[trigger] s[i]).id@ == id && s[i].state == state
}

/// A note created as `id` in notebook `notebook_id`, titled `title`, at time `t`.
pub open spec fn is_new_note(n: Note, id: String, notebook_id: String, title: String, t: i64) -> bool {
    &&& n.id == id
    &&& n.notebook_id == notebook_id
    &&& n.title == title
    &&& n.content@ == Seq::<char>::empty()
    &&& n.created_at == t
    &&& n.updated_at == t
    &&& n.state == NoteState::Active
}

proof fn lemma_replace_at(s: Seq<Note>, k: int, f: spec_fn(Note) -> Note)
    requires
        keys_distinct(s, note_key()),
        0 <= k < s.len(),
    ensures
        replace_note(s, s[k].id@, f) == s.update(k, f(s[k])),
{
    let r = replace_note(s, s[k].id@, f);
    assert forall|i: int| 0 <= i < s.len() && i != k implies s[i].id@ != s[k].id@ by {
        assert(note_key()(s[i]) != note_key()(s[k]));
    }
    assert(r =~= s.update(k, f(s[k])));
}

/// The notes of `v` for which `active_in(notebook_id@)` holds, in order.
fn collect_active(v: &Vec<Note>, notebook_id: &String) -> (r: Vec<Note>)
    ensures
        r@ == v@.filter(active_in(notebook_id@)),
{
    let ghost p = active_in(notebook_id@);
    let mut r: Vec<Note> = Vec::new();
    let mut i: usize = 0;
    proof {
        lemma_filter_empty(v@.take(0), p);
    }
    while i < v.len()
        invariant
            i <= v@.len(),
            r@ == v@.take(i as int).filter(p),
            p == active_in(notebook_id@),
        decreases v.len() - i,
    {
        proof {
            assert(v@.take(i + 1) =~= v@.take(i as int).push(v@[i as int]));
            v@.take(i as int).lemma_filter_push(v@[i as int], p);
        }
        if v[i].notebook_id == *notebook_id && v[i].state == NoteState::Active {
            r.push(v[i].duplicate());
        }
        i = i + 1;
    }
    assert(v@.take(i as int) =~= v@);
    r
}

/// The notes of `v` that are in the trash, in order.
fn collect_trashed(v: &Vec<Note>) -> (r: Vec<Note>)
    ensures
        r@ == v@.filter(in_trash()),
{
    let ghost p = in_trash();
    let mut r: Vec<Note> = Vec::new();
    let mut i: usize = 0;
    proof {
        lemma_filter_empty(v@.take(0), p);
    }
    while i < v.len()
        invariant
            i <= v@.len(),
            r@ == v@.take(i as int).filter(p),
            p == in_trash(),
        decreases v.len() - i,
    {
        proof {
            assert(v@.take(i + 1) =~= v@.take(i as int).push(v@[i as int]));
            v@.take(i as int).lemma_filter_push(v@[i as int], p);
        }
        if v[i].state == NoteState::Trashed {
            r.push(v[i].duplicate());
        }
        i = i + 1;
    }
    assert(v@.take(i as int) =~= v@);
    r
}

/// The store: every notebook, note and attachment, and the latest time stamp
/// given out.
pub struct Store {
    notebooks: Vec<Notebook>,
    notes: Vec<Note>,
    attachments: Vec<Attachment>,
    issued: Vec<String>,
    clock: i64,
}

impl Store {
    /// The notebooks, in order of creation.
    pub closed spec fn notebooks(&self) -> Seq<Notebook> {
        self.notebooks@
    }

    /// The notes, active and trashed, in order of creation.
    pub closed spec fn notes(&self) -> Seq<Note> {
        self.notes@
    }

    /// The attachments, in order of creation.
    pub closed spec fn attachments(&self) -> Seq<Attachment> {
        self.attachments@
    }

    /// Every identifier the store has accepted, in order, including those of
    /// records deleted since; none is accepted twice.
    pub closed spec fn issued(&self) -> Seq<String> {
        self.issued@
    }

    /// The latest time stamp given to a change.
    pub closed spec fn clock(&self) -> i64 {
        self.clock
    }

    pub open spec fn wf(&self) -> bool {
        store_wf(self.notebooks(), self.notes(), self.attachments(), self.issued(), self.clock())
    }

    /// An empty store.
    pub fn new() -> (r: Store)
        ensures
            r.wf(),
            r.notebooks() == Seq::<Notebook>::empty(),
            r.notes() == Seq::<Note>::empty(),
            r.attachments() == Seq::<Attachment>::empty(),
            r.issued() == Seq::<String>::empty(),
            r.clock() == 0,
    {
        Store { notebooks: Vec::new(), notes: Vec::new(), attachments: Vec::new(), issued: Vec::new(), clock: 0 }
    }

    /// Whether `id` was ever accepted.
    fn was_issued(&self, id: &String) -> (r: bool)
        ensures
            r == is_issued(self.issued(), id@),
    {
        let mut k: usize = 0;
        while k < self.issued.len()
            invariant
                k <= self.issued@.len(),
                forall|j: int| 0 <= j < k ==> self.issued@[j]@ != id@,
            decreases self.issued.len() - k,
        {
            if self.issued[k] == *id {
                return true;
            }
            k = k + 1;
        }
        false
    }

    /// Records `id` as given out.
    fn issue(&mut self, id: &String)
        requires
            old(self).wf(),
        ensures
            final(self).wf(),
            final(self).issued() == old(self).issued().push(*id),
            final(self).notebooks() == old(self).notebooks(),
            final(self).notes() == old(self).notes(),
            final(self).attachments() == old(self).attachments(),
            final(self).clock() == old(self).clock(),
            forall|x: Seq<char>| is_issued(old(self).issued(), x) ==> is_issued(final(self).issued(), x),
            is_issued(final(self).issued(), id@),
    {
        let ghost before = self.issued@;
        self.issued.push(id.clone());
        proof {
            let s = self.issued@;
            assert(s[before.len() as int] == *id);
            assert forall|x: Seq<char>| is_issued(before, x) implies is_issued(s, x) by {
                let k = choose|k: int| 0 <= k < before.len() && (#[trigger] before[k])@ == x;
                assert(s[k] == before[k]);
            }
        }
    }

    /// All notebooks, in order of creation.
    pub fn list_notebooks(&self) -> (r: Vec<Notebook>)
        ensures
            r@ == self.notebooks(),
            self.wf() ==> keys_distinct(r@, notebook_key()),
            self.wf() ==> forall|i: int| 0 <= i < r@.len() ==> (#[trigger] r@[i]).id@.len() > 0,
    {
        let mut r: Vec<Notebook> = Vec::new();
        let mut i: usize = 0;
        while i < self.notebooks.len()
            invariant
                i <= self.notebooks@.len(),
                r@ == self.notebooks@.take(i as int),
            decreases self.notebooks.len() - i,
        {
            r.push(self.notebooks[i].duplicate());
            i = i + 1;
            assert(r@ =~= self.notebooks@.take(i as int));
        }
        assert(self.notebooks@.take(i as int) =~= self.notebooks@);
        r
    }

    /// Adds the notebook `id` titled `title`.
    pub fn create_notebook(&mut self, id: String, title: String) -> (r: Result<Notebook, StoreError>)
        requires
            old(self).wf(),
        ensures
            final(self).wf(),
            title@.len() == 0 ==> r == Err::<Notebook, StoreError>(StoreError::Validation),
            title@.len() > 0 && (id@.len() == 0 || is_issued(old(self).issued(), id@)) ==> r
                == Err::<Notebook, StoreError>(StoreError::Constraint),
            title@.len() > 0 && id@.len() > 0 && !is_issued(old(self).issued(), id@) ==> r
                == Ok::<Notebook, StoreError>((Notebook { id: id, title: title })),
            r is Ok ==> r->Ok_0.id@.len() > 0 && !is_issued(old(self).issued(), r->Ok_0.id@),
            r is Ok ==> final(self).issued() == old(self).issued().push(id),
            r is Ok ==> final(self).notebooks() == old(self).notebooks().push(r->Ok_0)
                && final(self).notes() == old(self).notes()
                && final(self).attachments() == old(self).attachments()
                && final(self).clock() == old(self).clock(),
            r is Err ==> *final(self) == *old(self),
    {
        if title.as_str().is_empty() {
            return Err(StoreError::Validation);
        }
        if id.as_str().is_empty() || self.was_issued(&id) {
            return Err(StoreError::Constraint);
        }
        let ghost iss0 = self.issued@;
        self.issue(&id);
        let nb = Notebook { id, title };
        let out = nb.duplicate();
        let ghost before = self.notebooks@;
        self.notebooks.push(nb);
        proof {
            let s = self.notebooks@;
            assert forall|i: int| 0 <= i < before.len() implies (#[trigger] s[i]) == before[i] by {}
            assert forall|i: int| 0 <= i < before.len() implies notebook_key()(#[trigger] before[i]) != notebook_key()(
                s[before.len() as int],
            ) by {
                assert(is_issued(iss0, before[i].id@));
            }
            assert(s =~= before.push(s[before.len() as int]));
            lemma_push_keys_distinct(before, s[before.len() as int], notebook_key());
            assert forall|i: int| 0 <= i < self.notes@.len() implies has_notebook(s, (#[trigger] self.notes@[i]).notebook_id@) by {
                let k = choose|k: int| 0 <= k < before.len() && (#[trigger] before[k]).id@ == self.notes@[i].notebook_id@;
                assert(s[k] == before[k]);
            }
        }
        Ok(out)
    }

    /// Deletes the notebook `id` together with its notes and their attachments.
    pub fn delete_notebook(&mut self, id: &String) -> (r: Result<(), StoreError>)
        requires
            old(self).wf(),
        ensures
            final(self).wf(),
            final(self).issued() == old(self).issued(),
            !has_notebook(old(self).notebooks(), id@) ==> r == Err::<(), StoreError>(StoreError::NotFound)
                && *final(self) == *old(self),
            has_notebook(old(self).notebooks(), id@) ==> r == Ok::<(), StoreError>(())
                && final(self).notebooks() == old(self).notebooks().filter(notebook_other_than(id@))
                && final(self).notes() == old(self).notes().filter(note_outside(id@))
                && final(self).attachments() == old(self).attachments().filter(
                    attachment_outside(old(self).notes(), id@),
                )
                && final(self).clock() == old(self).clock(),
    {
        if notebook_position(&self.notebooks, id).is_none() {
            return Err(StoreError::NotFound);
        }
        let ghost nbs = self.notebooks@;
        let ghost ns = self.notes@;
        let ghost ats = self.attachments@;
        let notes = &self.notes;
        retain(
            &mut self.attachments,
            (|a: &Attachment| -> (keep: bool)
                requires
                    keys_distinct(notes@, note_key()),
                ensures
                    keep == !note_in_notebook(notes@, a.note_id@, id@),
                {
                    match note_position(notes, &a.note_id) {
                        Some(k) => !(notes[k].notebook_id == *id),
                        None => true,
                    }
                }),
            Ghost(attachment_outside(ns, id@)),
        );
        retain(
            &mut self.notes,
            (|n: &Note| -> (keep: bool)
                ensures
                    keep == (n.notebook_id@ != id@),
                { !(n.notebook_id == *id) }),
            Ghost(note_outside(id@)),
        );
        retain(
            &mut self.notebooks,
            (|b: &Notebook| -> (keep: bool)
                ensures
                    keep == (b.id@ != id@),
                { !(b.id == *id) }),
            Ghost(notebook_other_than(id@)),
        );
        proof {
            lemma_filter_keys_distinct(nbs, notebook_other_than(id@), notebook_key());
            lemma_filter_keys_distinct(ns, note_outside(id@), note_key());
            lemma_filter_keys_distinct(ats, attachment_outside(ns, id@), attachment_key());
            let nbs2 = self.notebooks@;
            let ns2 = self.notes@;
            let ats2 = self.attachments@;
            assert forall|i: int| 0 <= i < nbs2.len() implies (#[trigger] nbs2[i]).id@.len() > 0 by {
                assert(nbs.contains(nbs2[i]));
            }
            assert forall|i: int| 0 <= i < ns2.len() implies {
                &&& (#[trigger] ns2[i]).id@.len() > 0
                &&& has_notebook(nbs2, ns2[i].notebook_id@)
                &&& ns2[i].created_at <= ns2[i].updated_at <= self.clock
            } by {
                assert(ns.contains(ns2[i]));
                assert(note_outside(id@)(ns2[i]));
                let k = choose|k: int| 0 <= k < nbs.len() && (#[trigger] nbs[k]).id@ == ns2[i].notebook_id@;
                assert(notebook_other_than(id@)(nbs[k]));
                assert(nbs2.contains(nbs[k]));
            }
            assert forall|i: int| 0 <= i < ats2.len() implies {
                &&& (#[trigger] ats2[i]).id@.len() > 0
                &&& has_note(ns2, ats2[i].note_id@)
                &&& ats2[i].size == ats2[i].data@.len()
                &&& ats2[i].size <= MAX_ATTACHMENT_SIZE
                &&& ats2[i].created_at <= self.clock
            } by {
                assert(ats.contains(ats2[i]));
                assert(attachment_outside(ns, id@)(ats2[i]));
                let k = choose|k: int| 0 <= k < ns.len() && (#[trigger] ns[k]).id@ == ats2[i].note_id@;
                assert(note_outside(id@)(ns[k]));
                assert(ns2.contains(ns[k]));
            }
        }
        Ok(())
    }

    /// Gives out the time stamp for a change made at `now`.
    fn stamp(&mut self, now: i64) -> (t: i64)
        requires
            old(self).wf(),
        ensures
            t == next_stamp(old(self).clock(), now),
            t >= old(self).clock(),
            final(self).clock() == t,
            final(self).issued() == old(self).issued(),
            final(self).notebooks() == old(self).notebooks(),
            final(self).notes() == old(self).notes(),
            final(self).attachments() == old(self).attachments(),
            final(self).wf(),
    {
        let t = if now > self.clock {
            now
        } else if self.clock < i64::MAX {
            self.clock + 1
        } else {
            self.clock
        };
        self.clock = t;
        t
    }

    /// Puts `n` at position `k` of the notes, in place of the note with the same id.
    fn replace_note_at(&mut self, k: usize, n: Note)
        requires
            old(self).wf(),
            k < old(self).notes().len(),
            n.id@ == old(self).notes()[k as int].id@,
            has_notebook(old(self).notebooks(), n.notebook_id@),
            n.created_at <= n.updated_at <= old(self).clock(),
        ensures
            final(self).wf(),
            final(self).notes() == old(self).notes().update(k as int, n),
            final(self).issued() == old(self).issued(),
            final(self).notebooks() == old(self).notebooks(),
            final(self).attachments() == old(self).attachments(),
            final(self).clock() == old(self).clock(),
    {
        let ghost before = self.notes@;
        self.notes.set(k, n);
        proof {
            let s = self.notes@;
            assert forall|i: int| 0 <= i < s.len() && i != k implies (#[trigger] s[i]) == before[i] by {}
            assert forall|i: int, j: int| 0 <= i < s.len() && 0 <= j < s.len() && i != j implies
                note_key()(#[trigger] s[i]) != note_key()(#[trigger] s[j]) by {
                assert(note_key()(s[i]) == note_key()(before[i]));
                assert(note_key()(s[j]) == note_key()(before[j]));
            }
            assert forall|i: int| 0 <= i < self.attachments@.len() implies has_note(s, (#[trigger] self.attachments@[i]).note_id@) by {
                let m = choose|m: int| 0 <= m < before.len() && (#[trigger] before[m]).id@ == self.attachments@[i].note_id@;
                assert(s[m].id@ == before[m].id@);
            }
        }
    }

    /// Adds the note `id`, with empty content, to notebook `notebook_id`.
    pub fn create_note(&mut self, id: String, notebook_id: String, title: String, now: i64) -> (r: Result<Note, StoreError>)
        requires
            old(self).wf(),
        ensures
            final(self).wf(),
            !has_notebook(old(self).notebooks(), notebook_id@) ==> r == Err::<Note, StoreError>(StoreError::NotFound),
            has_notebook(old(self).notebooks(), notebook_id@) && (id@.len() == 0 || is_issued(old(self).issued(), id@))
                ==> r == Err::<Note, StoreError>(StoreError::Constraint),
            has_notebook(old(self).notebooks(), notebook_id@) && id@.len() > 0 && !is_issued(old(self).issued(), id@)
                ==> r is Ok,
            r is Ok ==> r->Ok_0.id@.len() > 0 && !is_issued(old(self).issued(), r->Ok_0.id@),
            r is Ok ==> final(self).issued() == old(self).issued().push(id),
            r is Ok ==> is_new_note(r->Ok_0, id, notebook_id, title, next_stamp(old(self).clock(), now))
                && final(self).notes() == old(self).notes().push(r->Ok_0)
                && final(self).notebooks() == old(self).notebooks()
                && final(self).attachments() == old(self).attachments()
                && final(self).clock() == next_stamp(old(self).clock(), now),
            r is Err ==> *final(self) == *old(self),
    {
        if notebook_position(&self.notebooks, &notebook_id).is_none() {
            return Err(StoreError::NotFound);
        }
        if id.as_str().is_empty() || self.was_issued(&id) {
            return Err(StoreError::Constraint);
        }
        let ghost iss0 = self.issued@;
        self.issue(&id);
        let t = self.stamp(now);
        let note = Note {
            id,
            notebook_id,
            title,
            content: String::new(),
            created_at: t,
            updated_at: t,
            state: NoteState::Active,
        };
        let out = note.duplicate();
        let ghost before = self.notes@;
        self.notes.push(note);
        proof {
            let s = self.notes@;
            assert forall|i: int| 0 <= i < before.len() implies (#[trigger] s[i]) == before[i] by {}
            assert forall|i: int| 0 <= i < before.len() implies note_key()(#[trigger] before[i]) != note_key()(
                s[before.len() as int],
            ) by {
                assert(is_issued(iss0, before[i].id@));
            }
            assert(s =~= before.push(s[before.len() as int]));
            lemma_push_keys_distinct(before, s[before.len() as int], note_key());
            assert forall|i: int| 0 <= i < self.attachments@.len() implies has_note(s, (#[trigger] self.attachments@[i]).note_id@) by {
                let m = choose|m: int| 0 <= m < before.len() && (#[trigger] before[m]).id@ == self.attachments@[i].note_id@;
                assert(s[m] == before[m]);
            }
        }
        Ok(out)
    }

    /// The notes of notebook `notebook_id` that are not in the trash, in
    /// case-insensitive title order.
    pub fn list_notes(&self, notebook_id: &String) -> (r: Result<Vec<Note>, StoreError>)
        ensures
            !has_notebook(self.notebooks(), notebook_id@) ==> r == Err::<Vec<Note>, StoreError>(StoreError::NotFound),
            has_notebook(self.notebooks(), notebook_id@) ==> r is Ok,
            r is Ok ==> sorted_by_title(r->Ok_0@)
                && r->Ok_0@.to_multiset() == self.notes().filter(active_in(notebook_id@)).to_multiset(),
            r is Ok ==> forall|i: int|
                0 <= i < r->Ok_0@.len() ==> (#[trigger] r->Ok_0@[i]).notebook_id@ == notebook_id@
                    && r->Ok_0@[i].state == NoteState::Active,
    {
        if notebook_position(&self.notebooks, notebook_id).is_none() {
            return Err(StoreError::NotFound);
        }
        let f = collect_active(&self.notes, notebook_id);
        let r = sort_by_title(f);
        proof {
            assert forall|i: int| 0 <= i < r@.len() implies (#[trigger] r@[i]).notebook_id@ == notebook_id@
                && r@[i].state == NoteState::Active by {
                assert(r@.contains(r@[i]));
                assert(r@.to_multiset().count(r@[i]) > 0);
                assert(f@.to_multiset().count(r@[i]) > 0);
                assert(f@.contains(r@[i]));
                let k = choose|k: int| 0 <= k < f@.len() && f@[k] == r@[i];
                assert(active_in(notebook_id@)(f@[k]));
            }
        }
        Ok(r)
    }

    /// The note `id`, active or in the trash.
    pub fn get_note(&self, id: &String) -> (r: Result<Note, StoreError>)
        ensures
            !has_note(self.notes(), id@) ==> r == Err::<Note, StoreError>(StoreError::NotFound),
            has_note(self.notes(), id@) ==> r is Ok,
            r is Ok ==> exists|k: int|
                0 <= k < self.notes().len() && (#[trigger] self.notes()[k]).id@ == id@ && r->Ok_0
                    == self.notes()[k],
    {
        match note_position(&self.notes, id) {
            Some(k) => {
                let n = self.notes[k].duplicate();
                assert(self.notes()[k as int].id@ == id@);
                Ok(n)
            },
            None => Err(StoreError::NotFound),
        }
    }

    /// The notes in the trash, in order of creation.
    pub fn list_trash(&self) -> (r: Vec<Note>)
        ensures
            r@ == self.notes().filter(in_trash()),
            forall|i: int| 0 <= i < r@.len() ==> (#[trigger] r@[i]).state == NoteState::Trashed,
            self.wf() ==> keys_distinct(r@, note_key()),
    {
        let r = collect_trashed(&self.notes);
        proof {
            if self.wf() {
                lemma_filter_keys_distinct(self.notes@, in_trash(), note_key());
            }
            assert forall|i: int| 0 <= i < r@.len() implies (#[trigger] r@[i]).state == NoteState::Trashed by {
                assert(in_trash()(r@[i]));
            }
        }
        r
    }

    /// Replaces the content of note `id`.
    pub fn update_note_content(&mut self, id: &String, content: String, now: i64) -> (r: Result<(), StoreError>)
        requires
            old(self).wf(),
        ensures
            final(self).wf(),
            final(self).issued() == old(self).issued(),
            !(has_note(old(self).notes(), id@)) ==> r == Err::<(), StoreError>(StoreError::NotFound) && *final(self) == *old(self),
            has_note(old(self).notes(), id@) ==> r == Ok::<(), StoreError>(())
                && final(self).notes() == replace_note(
                    old(self).notes(),
                    id@,
                    |n: Note| (Note { content: content, updated_at: next_stamp(old(self).clock(), now), ..n }),
                )
                && final(self).notebooks() == old(self).notebooks()
                && final(self).attachments() == old(self).attachments()
                && final(self).clock() == next_stamp(old(self).clock(), now),
    {
        let k = match note_position(&self.notes, id) {
            Some(k) => k,
            None => return Err(StoreError::NotFound),
        };
        let t = self.stamp(now);
        let mut n = self.notes[k].duplicate();
        n.content = content;
        n.updated_at = t;
        proof {
            lemma_replace_at(
                self.notes@,
                k as int,
                |n: Note| (Note { content: content, updated_at: t, ..n }),
            );
        }
        self.replace_note_at(k, n);
        Ok(())
    }

    /// Replaces the title of note `id`.
    pub fn update_note_title(&mut self, id: &String, title: String, now: i64) -> (r: Result<(), StoreError>)
        requires
            old(self).wf(),
        ensures
            final(self).wf(),
            final(self).issued() == old(self).issued(),
            !(has_note(old(self).notes(), id@)) ==> r == Err::<(), StoreError>(StoreError::NotFound) && *final(self) == *old(self),
            has_note(old(self).notes(), id@) ==> r == Ok::<(), StoreError>(())
                && final(self).notes() == replace_note(
                    old(self).notes(),
                    id@,
                    |n: Note| (Note { title: title, updated_at: next_stamp(old(self).clock(), now), ..n }),
                )
                && final(self).notebooks() == old(self).notebooks()
                && final(self).attachments() == old(self).attachments()
                && final(self).clock() == next_stamp(old(self).clock(), now),
    {
        let k = match note_position(&self.notes, id) {
            Some(k) => k,
            None => return Err(StoreError::NotFound),
        };
        let t = self.stamp(now);
        let mut n = self.notes[k].duplicate();
        n.title = title;
        n.updated_at = t;
        proof {
            lemma_replace_at(
                self.notes@,
                k as int,
                |n: Note| (Note { title: title, updated_at: t, ..n }),
            );
        }
        self.replace_note_at(k, n);
        Ok(())
    }

    /// Moves note `id` to notebook `notebook_id`.
    pub fn move_note(&mut self, id: &String, notebook_id: String, now: i64) -> (r: Result<(), StoreError>)
        requires
            old(self).wf(),
        ensures
            final(self).wf(),
            final(self).issued() == old(self).issued(),
            !(has_note(old(self).notes(), id@) && has_notebook(old(self).notebooks(), notebook_id@)) ==> r == Err::<(), StoreError>(StoreError::NotFound) && *final(self) == *old(self),
            has_note(old(self).notes(), id@) && has_notebook(old(self).notebooks(), notebook_id@) ==> r == Ok::<(), StoreError>(())
                && final(self).notes() == replace_note(
                    old(self).notes(),
                    id@,
                    |n: Note| (Note { notebook_id: notebook_id, updated_at: next_stamp(old(self).clock(), now), ..n }),
                )
                && final(self).notebooks() == old(self).notebooks()
                && final(self).attachments() == old(self).attachments()
                && final(self).clock() == next_stamp(old(self).clock(), now),
    {
        let k = match note_position(&self.notes, id) {
            Some(k) => k,
            None => return Err(StoreError::NotFound),
        };
        if notebook_position(&self.notebooks, &notebook_id).is_none() {
            return Err(StoreError::NotFound);
        }
        let t = self.stamp(now);
        let mut n = self.notes[k].duplicate();
        n.notebook_id = notebook_id;
        n.updated_at = t;
        proof {
            lemma_replace_at(
                self.notes@,
                k as int,
                |n: Note| (Note { notebook_id: notebook_id, updated_at: t, ..n }),
            );
        }
        self.replace_note_at(k, n);
        Ok(())
    }

    /// Moves the active note `id` to the trash; its attachments stay.
    pub fn soft_delete_note(&mut self, id: &String, now: i64) -> (r: Result<(), StoreError>)
        requires
            old(self).wf(),
        ensures
            final(self).wf(),
            final(self).issued() == old(self).issued(),
            !(has_note_in(old(self).notes(), id@, NoteState::Active)) ==> r == Err::<(), StoreError>(StoreError::NotFound) && *final(self) == *old(self),
            has_note_in(old(self).notes(), id@, NoteState::Active) ==> r == Ok::<(), StoreError>(())
                && final(self).notes() == replace_note(
                    old(self).notes(),
                    id@,
                    |n: Note| (Note { state: NoteState::Trashed, updated_at: next_stamp(old(self).clock(), now), ..n }),
                )
                && final(self).notebooks() == old(self).notebooks()
                && final(self).attachments() == old(self).attachments()
                && final(self).clock() == next_stamp(old(self).clock(), now),
    {
        let k = match note_position(&self.notes, id) {
            Some(k) => k,
            None => return Err(StoreError::NotFound),
        };
        if self.notes[k].state != NoteState::Active {
            return Err(StoreError::NotFound);
        }
        let t = self.stamp(now);
        let mut n = self.notes[k].duplicate();
        n.state = NoteState::Trashed;
        n.updated_at = t;
        proof {
            lemma_replace_at(
                self.notes@,
                k as int,
                |n: Note| (Note { state: NoteState::Trashed, updated_at: t, ..n }),
            );
        }
        self.replace_note_at(k, n);
        Ok(())
    }

    /// Takes the note `id` back out of the trash.
    pub fn restore_note(&mut self, id: &String, now: i64) -> (r: Result<(), StoreError>)
        requires
            old(self).wf(),
        ensures
            final(self).wf(),
            final(self).issued() == old(self).issued(),
            !(has_note_in(old(self).notes(), id@, NoteState::Trashed)) ==> r == Err::<(), StoreError>(StoreError::NotFound) && *final(self) == *old(self),
            has_note_in(old(self).notes(), id@, NoteState::Trashed) ==> r == Ok::<(), StoreError>(())
                && final(self).notes() == replace_note(
                    old(self).notes(),
                    id@,
                    |n: Note| (Note { state: NoteState::Active, updated_at: next_stamp(old(self).clock(), now), ..n }),
                )
                && final(self).notebooks() == old(self).notebooks()
                && final(self).attachments() == old(self).attachments()
                && final(self).clock() == next_stamp(old(self).clock(), now),
    {
        let k = match note_position(&self.notes, id) {
            Some(k) => k,
            None => return Err(StoreError::NotFound),
        };
        if self.notes[k].state != NoteState::Trashed {
            return Err(StoreError::NotFound);
        }
        let t = self.stamp(now);
        let mut n = self.notes[k].duplicate();
        n.state = NoteState::Active;
        n.updated_at = t;
        proof {
            lemma_replace_at(
                self.notes@,
                k as int,
                |n: Note| (Note { state: NoteState::Active, updated_at: t, ..n }),
            );
        }
        self.replace_note_at(k, n);
        Ok(())
    }

    /// Deletes the note `id` for good, with its attachments, whether it is
    /// active or in the trash.
    pub fn purge_note(&mut self, id: &String) -> (r: Result<(), StoreError>)
        requires
            old(self).wf(),
        ensures
            final(self).wf(),
            final(self).issued() == old(self).issued(),
            !has_note(old(self).notes(), id@) ==> r == Err::<(), StoreError>(StoreError::NotFound)
                && *final(self) == *old(self),
            has_note(old(self).notes(), id@) ==> r == Ok::<(), StoreError>(())
                && final(self).notes() == old(self).notes().filter(note_other_than(id@))
                && final(self).attachments() == old(self).attachments().filter(attachment_not_of(id@))
                && final(self).notebooks() == old(self).notebooks()
                && final(self).clock() == old(self).clock(),
    {
        if note_position(&self.notes, id).is_none() {
            return Err(StoreError::NotFound);
        }
        let ghost ns = self.notes@;
        let ghost ats = self.attachments@;
        retain(
            &mut self.attachments,
            (|a: &Attachment| -> (keep: bool)
                ensures
                    keep == (a.note_id@ != id@),
                { !(a.note_id == *id) }),
            Ghost(attachment_not_of(id@)),
        );
        retain(
            &mut self.notes,
            (|n: &Note| -> (keep: bool)
                ensures
                    keep == (n.id@ != id@),
                { !(n.id == *id) }),
            Ghost(note_other_than(id@)),
        );
        proof {
            lemma_filter_keys_distinct(ns, note_other_than(id@), note_key());
            lemma_filter_keys_distinct(ats, attachment_not_of(id@), attachment_key());
            let ns2 = self.notes@;
            let ats2 = self.attachments@;
            assert forall|i: int| 0 <= i < ns2.len() implies {
                &&& (#[trigger] ns2[i]).id@.len() > 0
                &&& has_notebook(self.notebooks@, ns2[i].notebook_id@)
                &&& ns2[i].created_at <= ns2[i].updated_at <= self.clock
            } by {
                assert(ns.contains(ns2[i]));
            }
            assert forall|i: int| 0 <= i < ats2.len() implies {
                &&& (#[trigger] ats2[i]).id@.len() > 0
                &&& has_note(ns2, ats2[i].note_id@)
                &&& ats2[i].size == ats2[i].data@.len()
                &&& ats2[i].size <= MAX_ATTACHMENT_SIZE
                &&& ats2[i].created_at <= self.clock
            } by {
                assert(ats.contains(ats2[i]));
                assert(attachment_not_of(id@)(ats2[i]));
                let k = choose|k: int| 0 <= k < ns.len() && (#[trigger] ns[k]).id@ == ats2[i].note_id@;
                assert(note_other_than(id@)(ns[k]));
                assert(ns2.contains(ns[k]));
            }
        }
        Ok(())
    }

    /// Adds `a` at the end of the attachments.
    fn push_attachment(&mut self, a: Attachment)
        requires
            old(self).wf(),
            a.id@.len() > 0,
            !is_issued(old(self).issued(), a.id@),
            has_note(old(self).notes(), a.note_id@),
            a.size == a.data@.len(),
            a.size <= MAX_ATTACHMENT_SIZE,
            a.created_at <= old(self).clock(),
        ensures
            final(self).wf(),
            final(self).attachments() == old(self).attachments().push(a),
            final(self).issued() == old(self).issued().push(a.id),
            final(self).notebooks() == old(self).notebooks(),
            final(self).notes() == old(self).notes(),
            final(self).clock() == old(self).clock(),
    {
        let ghost iss0 = self.issued@;
        self.issue(&a.id);
        let ghost before = self.attachments@;
        self.attachments.push(a);
        proof {
            let s = self.attachments@;
            assert forall|i: int| 0 <= i < before.len() implies (#[trigger] s[i]) == before[i] by {}
            assert forall|i: int| 0 <= i < before.len() implies attachment_key()(#[trigger] before[i]) != attachment_key()(
                s[before.len() as int],
            ) by {
                assert(is_issued(iss0, before[i].id@));
            }
            assert(s =~= before.push(s[before.len() as int]));
            lemma_push_keys_distinct(before, s[before.len() as int], attachment_key());
        }
    }

    /// Attaches `data` to note `note_id` as attachment `id`.
    pub fn save_attachment(
        &mut self,
        id: String,
        note_id: String,
        data: Vec<u8>,
        filename: String,
        mime_type: String,
        now: i64,
    ) -> (r: Result<AttachmentInfo, StoreError>)
        requires
            old(self).wf(),
        ensures
            final(self).wf(),
            data@.len() > MAX_ATTACHMENT_SIZE ==> r == Err::<AttachmentInfo, StoreError>(StoreError::PayloadTooLarge),
            data@.len() <= MAX_ATTACHMENT_SIZE && !has_note(old(self).notes(), note_id@)
                ==> r == Err::<AttachmentInfo, StoreError>(StoreError::NotFound),
            data@.len() <= MAX_ATTACHMENT_SIZE && has_note(old(self).notes(), note_id@)
                && (id@.len() == 0 || is_issued(old(self).issued(), id@))
                ==> r == Err::<AttachmentInfo, StoreError>(StoreError::Constraint),
            data@.len() <= MAX_ATTACHMENT_SIZE && has_note(old(self).notes(), note_id@) && id@.len() > 0
                && !is_issued(old(self).issued(), id@) ==> r is Ok,
            r is Ok ==> {
                let a = (Attachment {
                    id: id,
                    note_id: note_id,
                    data: data,
                    filename: filename,
                    mime_type: mime_type,
                    size: data@.len() as usize,
                    created_at: next_stamp(old(self).clock(), now),
                });
                &&& r->Ok_0 == info_of(a)
                &&& a.id@.len() > 0 && !is_issued(old(self).issued(), a.id@)
                &&& final(self).attachments() == old(self).attachments().push(a)
                &&& final(self).issued() == old(self).issued().push(id)
                &&& final(self).notebooks() == old(self).notebooks()
                &&& final(self).notes() == old(self).notes()
                &&& final(self).clock() == next_stamp(old(self).clock(), now)
            },
            r is Err ==> *final(self) == *old(self),
    {
        if data.len() > MAX_ATTACHMENT_SIZE {
            return Err(StoreError::PayloadTooLarge);
        }
        if note_position(&self.notes, &note_id).is_none() {
            return Err(StoreError::NotFound);
        }
        if id.as_str().is_empty() || self.was_issued(&id) {
            return Err(StoreError::Constraint);
        }
        let t = self.stamp(now);
        let size = data.len();
        let a = Attachment { id, note_id, data, filename, mime_type, size, created_at: t };
        let info = a.info();
        self.push_attachment(a);
        Ok(info)
    }

    /// The payload of attachment `id`.
    pub fn get_attachment(&self, id: &String) -> (r: Result<Vec<u8>, StoreError>)
        ensures
            !has_attachment(self.attachments(), id@) ==> r == Err::<Vec<u8>, StoreError>(StoreError::NotFound),
            has_attachment(self.attachments(), id@) ==> r is Ok,
            r is Ok ==> exists|k: int|
                0 <= k < self.attachments().len() && (#[trigger] self.attachments()[k]).id@ == id@
                    && r->Ok_0@ == self.attachments()[k].data@,
    {
        match attachment_position(&self.attachments, id) {
            Some(k) => {
                let bytes = copy_bytes(&self.attachments[k].data);
                assert(self.attachments()[k as int].id@ == id@);
                Ok(bytes)
            },
            None => Err(StoreError::NotFound),
        }
    }

    /// The metadata of attachment `id`.
    pub fn get_attachment_metadata(&self, id: &String) -> (r: Result<AttachmentInfo, StoreError>)
        ensures
            !has_attachment(self.attachments(), id@) ==> r == Err::<AttachmentInfo, StoreError>(StoreError::NotFound),
            has_attachment(self.attachments(), id@) ==> r is Ok,
            r is Ok ==> exists|k: int|
                0 <= k < self.attachments().len() && (#[trigger] self.attachments()[k]).id@ == id@
                    && r->Ok_0 == info_of(self.attachments()[k]),
    {
        match attachment_position(&self.attachments, id) {
            Some(k) => {
                let info = self.attachments[k].info();
                assert(self.attachments()[k as int].id@ == id@);
                Ok(info)
            },
            None => Err(StoreError::NotFound),
        }
    }

    /// Records `id` as given out without adding a record, so that it is never
    /// accepted again (an identifier of a record deleted in an earlier run).
    pub fn reserve_id(&mut self, id: String) -> (r: Result<(), StoreError>)
        requires
            old(self).wf(),
        ensures
            final(self).wf(),
            id@.len() == 0 || is_issued(old(self).issued(), id@) ==> r == Err::<(), StoreError>(StoreError::Constraint)
                && *final(self) == *old(self),
            id@.len() > 0 && !is_issued(old(self).issued(), id@) ==> r == Ok::<(), StoreError>(())
                && final(self).issued() == old(self).issued().push(id)
                && final(self).notebooks() == old(self).notebooks()
                && final(self).notes() == old(self).notes()
                && final(self).attachments() == old(self).attachments()
                && final(self).clock() == old(self).clock(),
    {
        if id.as_str().is_empty() || self.was_issued(&id) {
            return Err(StoreError::Constraint);
        }
        self.issue(&id);
        Ok(())
    }

    /// Takes in a note read back from storage, as it was saved. The clock moves
    /// on to the note's `updated_at` if that is later.
    pub fn load_note(&mut self, note: Note) -> (r: Result<(), StoreError>)
        requires
            old(self).wf(),
        ensures
            final(self).wf(),
            !has_notebook(old(self).notebooks(), note.notebook_id@) ==> r == Err::<(), StoreError>(StoreError::NotFound),
            has_notebook(old(self).notebooks(), note.notebook_id@) && (note.id@.len() == 0 || is_issued(old(self).issued(), note.id@)) ==> r == Err::<(), StoreError>(StoreError::Constraint),
            has_notebook(old(self).notebooks(), note.notebook_id@) && note.id@.len() > 0 && !is_issued(old(self).issued(), note.id@) && note.created_at > note.updated_at ==> r == Err::<(), StoreError>(StoreError::Validation),
            r is Ok <==> has_notebook(old(self).notebooks(), note.notebook_id@) && note.id@.len() > 0
                && !is_issued(old(self).issued(), note.id@) && note.created_at <= note.updated_at,
            r is Ok ==> final(self).issued() == old(self).issued().push(note.id),
            r is Ok ==> final(self).notes() == old(self).notes().push(note)
                && final(self).notebooks() == old(self).notebooks()
                && final(self).attachments() == old(self).attachments()
                && final(self).clock() == (if note.updated_at > old(self).clock() {
                    note.updated_at
                } else {
                    old(self).clock()
                }),
            r is Err ==> *final(self) == *old(self),
    {
        if notebook_position(&self.notebooks, &note.notebook_id).is_none() {
            return Err(StoreError::NotFound);
        }
        if note.id.as_str().is_empty() || self.was_issued(&note.id) {
            return Err(StoreError::Constraint);
        }
        if note.created_at > note.updated_at {
            return Err(StoreError::Validation);
        }
        if note.updated_at > self.clock {
            self.clock = note.updated_at;
        }
        let ghost iss0 = self.issued@;
        self.issue(&note.id);
        let ghost before = self.notes@;
        self.notes.push(note);
        proof {
            let s = self.notes@;
            assert forall|i: int| 0 <= i < before.len() implies (#[trigger] s[i]) == before[i] by {}
            assert forall|i: int| 0 <= i < before.len() implies note_key()(#[trigger] before[i]) != note_key()(
                s[before.len() as int],
            ) by {
                assert(is_issued(iss0, before[i].id@));
            }
            assert(s =~= before.push(s[before.len() as int]));
            lemma_push_keys_distinct(before, s[before.len() as int], note_key());
            assert forall|i: int| 0 <= i < self.attachments@.len() implies has_note(s, (#[trigger] self.attachments@[i]).note_id@) by {
                let m = choose|m: int| 0 <= m < before.len() && (#[trigger] before[m]).id@ == self.attachments@[i].note_id@;
                assert(s[m] == before[m]);
            }
        }
        Ok(())
    }

    /// Takes in an attachment read back from storage, as it was saved. The
    /// clock moves on to its `created_at` if that is later.
    pub fn load_attachment(&mut self, a: Attachment) -> (r: Result<(), StoreError>)
        requires
            old(self).wf(),
        ensures
            final(self).wf(),
            a.data@.len() > MAX_ATTACHMENT_SIZE ==> r == Err::<(), StoreError>(StoreError::PayloadTooLarge),
            a.data@.len() <= MAX_ATTACHMENT_SIZE && a.size != a.data@.len() ==> r == Err::<(), StoreError>(
                StoreError::Validation,
            ),
            a.data@.len() <= MAX_ATTACHMENT_SIZE && a.size == a.data@.len() && !has_note(old(self).notes(), a.note_id@)
                ==> r == Err::<(), StoreError>(StoreError::NotFound),
            a.data@.len() <= MAX_ATTACHMENT_SIZE && a.size == a.data@.len() && has_note(old(self).notes(), a.note_id@)
                && (a.id@.len() == 0 || is_issued(old(self).issued(), a.id@))
                ==> r == Err::<(), StoreError>(StoreError::Constraint),
            r is Ok <==> a.data@.len() <= MAX_ATTACHMENT_SIZE && a.size == a.data@.len() && has_note(
                old(self).notes(),
                a.note_id@,
            ) && a.id@.len() > 0 && !is_issued(old(self).issued(), a.id@),
            r is Ok ==> final(self).issued() == old(self).issued().push(a.id),
            r is Ok ==> final(self).attachments() == old(self).attachments().push(a)
                && final(self).notebooks() == old(self).notebooks()
                && final(self).notes() == old(self).notes()
                && final(self).clock() == (if a.created_at > old(self).clock() {
                    a.created_at
                } else {
                    old(self).clock()
                }),
            r is Err ==> *final(self) == *old(self),
    {
        if a.data.len() > MAX_ATTACHMENT_SIZE {
            return Err(StoreError::PayloadTooLarge);
        }
        if a.size != a.data.len() {
            return Err(StoreError::Validation);
        }
        if note_position(&self.notes, &a.note_id).is_none() {
            return Err(StoreError::NotFound);
        }
        if a.id.as_str().is_empty() || self.was_issued(&a.id) {
            return Err(StoreError::Constraint);
        }
        if a.created_at > self.clock {
            self.clock = a.created_at;
        }
        self.push_attachment(a);
        Ok(())
    }
}

} // verus!
