//! Exclusive access to one store from many callers. Every operation, reads
//! included, takes the store's lock for its whole duration and hands the store
//! back before it returns, on error paths as well. Fresh identifiers and the
//! current time are obtained here and passed to the store.
use vstd::prelude::*;
use vstd::rwlock::{RwLock, RwLockPredicate};
use crate::model::{AttachmentInfo, MAX_ATTACHMENT_SIZE, Note, NoteState, Notebook, StoreError};
use crate::order::sorted_by_title;
use crate::store::{Store, keys_distinct, note_key, notebook_key};

verus! {

/// What the lock guarantees of the store it holds: it is well formed.
pub struct WellFormedStore;

impl RwLockPredicate<Store> for WellFormedStore {
    open spec fn inv(self, s: Store) -> bool {
        s.wf()
    }
}

/// Relies on `getrandom::fill`: fills the buffer from the operating system's
/// random source, or returns an error when that source fails.
#[verifier::external_body]
fn random_bytes() -> (r: Option<[u8; 16]>) {
    let mut buf = [0u8; 16];
    match getrandom::fill(&mut buf) {
        Ok(()) => Some(buf),
        Err(_) => None,
    }
}

/// Relies on `uuid::Builder::from_random_bytes`, which sets the version and
/// variant bits of a random (version 4) identifier, and on uuid's `Display`,
/// which writes the 36-character hyphenated form.
#[verifier::external_body]
fn uuid_from_bytes(bytes: [u8; 16]) -> (r: String)
    ensures
        r@.len() == 36,
{
    uuid::Builder::from_random_bytes(bytes).into_uuid().to_string()
}

/// Relies on `std::time::SystemTime::now` and `duration_since` for the time
/// since the Unix epoch (an error before it), and on
/// `chrono::DateTime::from_timestamp` and `timestamp_micros` for that time in
/// microseconds (`None` outside chrono's range). Nothing is promised of the
/// value.
#[verifier::external_body]
fn now_micros() -> (r: Option<i64>) {
    let since = match std::time::SystemTime::now().duration_since(std::time::UNIX_EPOCH) {
        Ok(d) => d,
        Err(_) => return None,
    };
    let secs = i64::try_from(since.as_secs()).ok()?;
    chrono::DateTime::from_timestamp(secs, since.subsec_nanos()).map(|t| t.timestamp_micros())
}

/// A new random identifier; empty when the random source failed, which the
/// store refuses with `Constraint`.
fn fresh_id() -> (r: String)
    ensures
        r@.len() == 36 || r@.len() == 0,
{
    match random_bytes() {
        Some(bytes) => uuid_from_bytes(bytes),
        None => String::new(),
    }
}

/// The current time in microseconds since the epoch. When the system clock
/// cannot be read, the earliest time is used, so that the store stamps the
/// change one microsecond after its latest stamp.
fn current_time() -> (r: i64) {
    match now_micros() {
        Some(t) => t,
        None => i64::MIN,
    }
}

/// A store shared between callers, one operation at a time.
pub struct Notes {
    lock: RwLock<Store, WellFormedStore>,
}

impl Notes {
    /// Shares an empty store.
    pub fn new() -> (r: Notes) {
        Notes::from_store(Store::new())
    }

    /// Shares `store`.
    pub fn from_store(store: Store) -> (r: Notes)
        requires
            store.wf(),
    {
        Notes { lock: RwLock::new(store, Ghost(WellFormedStore)) }
    }

    /// Creates a notebook titled `title` under a fresh identifier. `Constraint`
    /// comes when no identifier could be drawn, or when the one drawn was
    /// given out before.
    pub fn create_notebook(&self, title: String) -> (r: Result<Notebook, StoreError>)
        ensures
            title@.len() == 0 ==> r == Err::<Notebook, StoreError>(StoreError::Validation),
            title@.len() > 0 ==> r is Ok || r == Err::<Notebook, StoreError>(StoreError::Constraint),
            r is Ok ==> r->Ok_0.title == title && r->Ok_0.id@.len() == 36,
    {
        let id = fresh_id();
        let (mut store, handle) = self.lock.acquire_write();
        let r = store.create_notebook(id, title);
        handle.release_write(store);
        r
    }

    /// All notebooks, in order of creation.
    pub fn list_notebooks(&self) -> (r: Vec<Notebook>)
        ensures
            forall|i: int| 0 <= i < r@.len() ==> (#[trigger] r@[i]).id@.len() > 0,
            keys_distinct(r@, notebook_key()),
    {
        let (store, handle) = self.lock.acquire_write();
        let r = store.list_notebooks();
        handle.release_write(store);
        r
    }

    /// Deletes notebook `id` with its notes and their attachments.
    pub fn delete_notebook(&self, id: &String) -> (r: Result<(), StoreError>)
        ensures
            r is Ok || r == Err::<(), StoreError>(StoreError::NotFound),
    {
        let (mut store, handle) = self.lock.acquire_write();
        let r = store.delete_notebook(id);
        handle.release_write(store);
        r
    }

    /// Creates an empty note titled `title` in notebook `notebook_id`.
    pub fn create_note(&self, notebook_id: String, title: String) -> (r: Result<Note, StoreError>)
        ensures
            r is Ok || r == Err::<Note, StoreError>(StoreError::NotFound) || r == Err::<Note, StoreError>(
                StoreError::Constraint,
            ),
            r is Ok ==> r->Ok_0.notebook_id == notebook_id && r->Ok_0.title == title
                && r->Ok_0.content@.len() == 0 && r->Ok_0.id@.len() == 36
                && r->Ok_0.created_at == r->Ok_0.updated_at,
    {
        let id = fresh_id();
        let (mut store, handle) = self.lock.acquire_write();
        let now = current_time();
        let r = store.create_note(id, notebook_id, title, now);
        handle.release_write(store);
        r
    }

    /// The active notes of notebook `notebook_id`, in case-insensitive title order.
    pub fn list_notes(&self, notebook_id: &String) -> (r: Result<Vec<Note>, StoreError>)
        ensures
            r is Ok || r == Err::<Vec<Note>, StoreError>(StoreError::NotFound),
            r is Ok ==> sorted_by_title(r->Ok_0@),
            r is Ok ==> forall|i: int|
                0 <= i < r->Ok_0@.len() ==> (#[trigger] r->Ok_0@[i]).notebook_id@ == notebook_id@
                    && r->Ok_0@[i].state == NoteState::Active,
    {
        let (store, handle) = self.lock.acquire_write();
        let r = store.list_notes(notebook_id);
        handle.release_write(store);
        r
    }

    /// The note `id`, active or in the trash.
    pub fn get_note(&self, id: &String) -> (r: Result<Note, StoreError>)
        ensures
            r is Ok || r == Err::<Note, StoreError>(StoreError::NotFound),
            r is Ok ==> r->Ok_0.id@ == id@,
    {
        let (store, handle) = self.lock.acquire_write();
        let r = store.get_note(id);
        handle.release_write(store);
        r
    }

    /// The notes in the trash.
    pub fn list_trash(&self) -> (r: Vec<Note>)
        ensures
            forall|i: int| 0 <= i < r@.len() ==> (#[trigger] r@[i]).state == NoteState::Trashed,
            keys_distinct(r@, note_key()),
    {
        let (store, handle) = self.lock.acquire_write();
        let r = store.list_trash();
        handle.release_write(store);
        r
    }

    /// Replaces the content of note `id`.
    pub fn update_note_content(&self, id: &String, content: String) -> (r: Result<(), StoreError>)
        ensures
            r is Ok || r == Err::<(), StoreError>(StoreError::NotFound),
    {
        let (mut store, handle) = self.lock.acquire_write();
        let now = current_time();
        let r = store.update_note_content(id, content, now);
        handle.release_write(store);
        r
    }

    /// Replaces the title of note `id`.
    pub fn update_note_title(&self, id: &String, title: String) -> (r: Result<(), StoreError>)
        ensures
            r is Ok || r == Err::<(), StoreError>(StoreError::NotFound),
    {
        let (mut store, handle) = self.lock.acquire_write();
        let now = current_time();
        let r = store.update_note_title(id, title, now);
        handle.release_write(store);
        r
    }

    /// Moves note `id` to notebook `notebook_id`.
    pub fn move_note(&self, id: &String, notebook_id: String) -> (r: Result<(), StoreError>)
        ensures
            r is Ok || r == Err::<(), StoreError>(StoreError::NotFound),
    {
        let (mut store, handle) = self.lock.acquire_write();
        let now = current_time();
        let r = store.move_note(id, notebook_id, now);
        handle.release_write(store);
        r
    }

    /// Puts the active note `id` in the trash.
    pub fn soft_delete_note(&self, id: &String) -> (r: Result<(), StoreError>)
        ensures
            r is Ok || r == Err::<(), StoreError>(StoreError::NotFound),
    {
        let (mut store, handle) = self.lock.acquire_write();
        let now = current_time();
        let r = store.soft_delete_note(id, now);
        handle.release_write(store);
        r
    }

    /// Takes note `id` out of the trash.
    pub fn restore_note(&self, id: &String) -> (r: Result<(), StoreError>)
        ensures
            r is Ok || r == Err::<(), StoreError>(StoreError::NotFound),
    {
        let (mut store, handle) = self.lock.acquire_write();
        let now = current_time();
        let r = store.restore_note(id, now);
        handle.release_write(store);
        r
    }

    /// Deletes note `id` and its attachments for good.
    pub fn purge_note(&self, id: &String) -> (r: Result<(), StoreError>)
        ensures
            r is Ok || r == Err::<(), StoreError>(StoreError::NotFound),
    {
        let (mut store, handle) = self.lock.acquire_write();
        let r = store.purge_note(id);
        handle.release_write(store);
        r
    }

    /// Attaches `data` to note `note_id` under a fresh identifier.
    pub fn save_attachment(&self, note_id: String, data: Vec<u8>, filename: String, mime_type: String) -> (r:
        Result<AttachmentInfo, StoreError>)
        ensures
            r == Err::<AttachmentInfo, StoreError>(StoreError::PayloadTooLarge) <==> data@.len() > MAX_ATTACHMENT_SIZE,
            r is Ok ==> r->Ok_0.note_id == note_id && r->Ok_0.filename == filename
                && r->Ok_0.mime_type == mime_type && r->Ok_0.size == data@.len() && r->Ok_0.id@.len() == 36,
    {
        let id = fresh_id();
        let (mut store, handle) = self.lock.acquire_write();
        let now = current_time();
        let r = store.save_attachment(id, note_id, data, filename, mime_type, now);
        handle.release_write(store);
        r
    }

    /// The payload of attachment `id`.
    pub fn get_attachment(&self, id: &String) -> (r: Result<Vec<u8>, StoreError>)
        ensures
            r is Ok || r == Err::<Vec<u8>, StoreError>(StoreError::NotFound),
            r is Ok ==> r->Ok_0@.len() <= MAX_ATTACHMENT_SIZE,
    {
        let (store, handle) = self.lock.acquire_write();
        let r = store.get_attachment(id);
        handle.release_write(store);
        r
    }

    /// The metadata of attachment `id`.
    pub fn get_attachment_metadata(&self, id: &String) -> (r: Result<AttachmentInfo, StoreError>)
        ensures
            r is Ok || r == Err::<AttachmentInfo, StoreError>(StoreError::NotFound),
            r is Ok ==> r->Ok_0.id@ == id@,
    {
        let (store, handle) = self.lock.acquire_write();
        let r = store.get_attachment_metadata(id);
        handle.release_write(store);
        r
    }
}

} // verus!
