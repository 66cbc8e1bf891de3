//! Records held by the note store and the errors its operations report.
use vstd::prelude::*;

verus! {

/// Largest attachment payload accepted, in bytes (2 MiB).
pub const MAX_ATTACHMENT_SIZE: usize = 2097152;

/// A named container of notes.
#[derive(Debug, Clone, PartialEq, Eq)]
pub struct Notebook {
    pub id: String,
    pub title: String,
}

/// Where a stored note stands in its deletion lifecycle. A note that has been
/// purged is no longer stored at all.
#[derive(Debug, Clone, Copy, PartialEq, Eq, Structural)]
pub enum NoteState {
    Active,
    Trashed,
}

/// A note; `created_at` and `updated_at` are microseconds since the Unix epoch.
#[derive(Debug, Clone, PartialEq, Eq)]
pub struct Note {
    pub id: String,
    pub notebook_id: String,
    pub title: String,
    pub content: String,
    pub created_at: i64,
    pub updated_at: i64,
    pub state: NoteState,
}

/// A binary payload (an image) owned by a note.
#[derive(Debug, Clone, PartialEq, Eq)]
pub struct Attachment {
    pub id: String,
    pub note_id: String,
    pub data: Vec<u8>,
    pub filename: String,
    pub mime_type: String,
    pub size: usize,
    pub created_at: i64,
}

/// What is known of an attachment besides its payload.
#[derive(Debug, Clone, PartialEq, Eq)]
pub struct AttachmentInfo {
    pub id: String,
    pub note_id: String,
    pub filename: String,
    pub mime_type: String,
    pub size: usize,
    pub created_at: i64,
}

/// The kinds of failure an operation of the store reports.
#[derive(Debug, Clone, Copy, PartialEq, Eq, Structural)]
pub enum StoreError {
    /// Malformed input, such as an empty notebook title.
    Validation,
    /// A referenced notebook, note or attachment does not exist.
    NotFound,
    /// The change would break a relational invariant (a duplicate or empty id).
    Constraint,
    /// An attachment payload exceeds the size limit.
    PayloadTooLarge,
    /// The backing storage could not be created or opened.
    Schema,
    /// The backing storage failed to run a statement.
    Statement,
}

impl Notebook {
    /// A field-by-field copy.
    pub fn duplicate(&self) -> (r: Notebook)
        ensures
            r == *self,
    {
        Notebook { id: self.id.clone(), title: self.title.clone() }
    }
}

impl Note {
    /// A field-by-field copy.
    pub fn duplicate(&self) -> (r: Note)
        ensures
            r == *self,
    {
        Note {
            id: self.id.clone(),
            notebook_id: self.notebook_id.clone(),
            title: self.title.clone(),
            content: self.content.clone(),
            created_at: self.created_at,
            updated_at: self.updated_at,
            state: self.state,
        }
    }

    pub open spec fn is_active(self) -> bool {
        self.state == NoteState::Active
    }

    pub open spec fn is_trashed(self) -> bool {
        self.state == NoteState::Trashed
    }
}

/// The metadata of an attachment: every field but the payload.
pub open spec fn info_of(a: Attachment) -> AttachmentInfo {
    AttachmentInfo {
        id: a.id,
        note_id: a.note_id,
        filename: a.filename,
        mime_type: a.mime_type,
        size: a.size,
        created_at: a.created_at,
    }
}

impl Attachment {
    /// The attachment's metadata, copied.
    pub fn info(&self) -> (r: AttachmentInfo)
        ensures
            r == info_of(*self),
    {
        AttachmentInfo {
            id: self.id.clone(),
            note_id: self.note_id.clone(),
            filename: self.filename.clone(),
            mime_type: self.mime_type.clone(),
            size: self.size,
            created_at: self.created_at,
        }
    }
}

/// A copy of a byte buffer.
pub fn copy_bytes(v: &Vec<u8>) -> (r: Vec<u8>)
    ensures
        r@ == v@,
{
    let mut r: Vec<u8> = Vec::new();
    let mut i: usize = 0;
    while i < v.len()
        invariant
            i <= v.len(),
            r@ == v@.take(i as int),
        decreases v.len() - i,
    {
        r.push(v[i]);
        i = i + 1;
        assert(r@ =~= v@.take(i as int));
    }
    assert(r@ =~= v@);
    r
}

} // verus!
