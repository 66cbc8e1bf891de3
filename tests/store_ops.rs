use notestore::model::{Attachment, Note, NoteState, StoreError, MAX_ATTACHMENT_SIZE};
use notestore::store::Store;

fn s(x: &str) -> String {
    x.to_string()
}

fn store_with_notebook(id: &str, title: &str) -> Store {
    let mut st = Store::new();
    st.create_notebook(s(id), s(title)).unwrap();
    st
}

#[test]
fn create_notebook_is_listed() {
    let mut st = Store::new();
    let nb = st.create_notebook(s("nb-1"), s("Work")).unwrap();
    assert_eq!(nb.id, "nb-1");
    assert_eq!(nb.title, "Work");
    let listed = st.list_notebooks();
    assert_eq!(listed.len(), 1);
    assert_eq!(listed[0], nb);
}

#[test]
fn create_notebook_empty_title_is_rejected() {
    let mut st = Store::new();
    assert_eq!(st.create_notebook(s("nb-1"), s("")), Err(StoreError::Validation));
    assert!(st.list_notebooks().is_empty());
}

#[test]
fn create_notebook_reused_or_empty_id_is_rejected() {
    let mut st = store_with_notebook("nb-1", "Work");
    assert_eq!(st.create_notebook(s("nb-1"), s("Home")), Err(StoreError::Constraint));
    assert_eq!(st.create_notebook(s(""), s("Home")), Err(StoreError::Constraint));
    assert_eq!(st.list_notebooks().len(), 1);
}

#[test]
fn delete_notebook_cascades_to_notes_and_attachments() {
    let mut st = store_with_notebook("nb-1", "Work");
    st.create_notebook(s("nb-2"), s("Home")).unwrap();
    st.create_note(s("n-1"), s("nb-1"), s("Plan"), 10).unwrap();
    st.create_note(s("n-2"), s("nb-2"), s("Groceries"), 11).unwrap();
    st.save_attachment(s("a-1"), s("n-1"), vec![1, 2, 3], s("x.png"), s("image/png"), 12).unwrap();
    st.save_attachment(s("a-2"), s("n-2"), vec![4], s("y.png"), s("image/png"), 13).unwrap();
    assert_eq!(st.delete_notebook(&s("nb-1")), Ok(()));
    assert_eq!(st.list_notes(&s("nb-1")), Err(StoreError::NotFound));
    assert_eq!(st.get_attachment(&s("a-1")), Err(StoreError::NotFound));
    assert_eq!(st.get_attachment_metadata(&s("a-1")), Err(StoreError::NotFound));
    assert_eq!(st.update_note_title(&s("n-1"), s("x"), 20), Err(StoreError::NotFound));
    // the other notebook is untouched
    assert_eq!(st.list_notes(&s("nb-2")).unwrap().len(), 1);
    assert_eq!(st.get_attachment(&s("a-2")), Ok(vec![4]));
    assert_eq!(st.list_notebooks().len(), 1);
}

#[test]
fn delete_missing_notebook_is_not_found() {
    let mut st = store_with_notebook("nb-1", "Work");
    assert_eq!(st.delete_notebook(&s("nb-9")), Err(StoreError::NotFound));
    assert_eq!(st.list_notebooks().len(), 1);
}

#[test]
fn soft_delete_restore_and_purge() {
    let mut st = store_with_notebook("nb-1", "Work");
    st.create_note(s("n-1"), s("nb-1"), s("Plan"), 10).unwrap();
    st.save_attachment(s("a-1"), s("n-1"), vec![9, 9], s("x.png"), s("image/png"), 11).unwrap();

    assert_eq!(st.soft_delete_note(&s("n-1"), 12), Ok(()));
    assert!(st.list_notes(&s("nb-1")).unwrap().is_empty());
    let trash = st.list_trash();
    assert_eq!(trash.len(), 1);
    assert_eq!(trash[0].id, "n-1");
    assert_eq!(trash[0].state, NoteState::Trashed);
    // attachments stay while the note is in the trash
    assert_eq!(st.get_attachment(&s("a-1")), Ok(vec![9, 9]));

    assert_eq!(st.restore_note(&s("n-1"), 13), Ok(()));
    assert!(st.list_trash().is_empty());
    let active = st.list_notes(&s("nb-1")).unwrap();
    assert_eq!(active.len(), 1);
    assert_eq!(active[0].title, "Plan");
    assert_eq!(active[0].state, NoteState::Active);

    assert_eq!(st.soft_delete_note(&s("n-1"), 14), Ok(()));
    assert_eq!(st.purge_note(&s("n-1")), Ok(()));
    assert!(st.list_trash().is_empty());
    assert!(st.list_notes(&s("nb-1")).unwrap().is_empty());
    assert_eq!(st.restore_note(&s("n-1"), 15), Err(StoreError::NotFound));
    assert_eq!(st.get_attachment(&s("a-1")), Err(StoreError::NotFound));
}

#[test]
fn purge_active_note_removes_attachments() {
    let mut st = store_with_notebook("nb-1", "Work");
    st.create_note(s("n-1"), s("nb-1"), s("Plan"), 10).unwrap();
    st.save_attachment(s("a-1"), s("n-1"), vec![1], s("x.png"), s("image/png"), 11).unwrap();
    assert_eq!(st.purge_note(&s("n-1")), Ok(()));
    assert_eq!(st.get_attachment_metadata(&s("a-1")), Err(StoreError::NotFound));
    assert_eq!(st.purge_note(&s("n-1")), Err(StoreError::NotFound));
}

#[test]
fn lifecycle_transitions_out_of_state_are_not_found() {
    let mut st = store_with_notebook("nb-1", "Work");
    st.create_note(s("n-1"), s("nb-1"), s("Plan"), 10).unwrap();
    assert_eq!(st.restore_note(&s("n-1"), 11), Err(StoreError::NotFound));
    assert_eq!(st.soft_delete_note(&s("n-1"), 12), Ok(()));
    assert_eq!(st.soft_delete_note(&s("n-1"), 13), Err(StoreError::NotFound));
    assert_eq!(st.soft_delete_note(&s("n-9"), 13), Err(StoreError::NotFound));
}

#[test]
fn oversized_payload_is_rejected() {
    let mut st = store_with_notebook("nb-1", "Work");
    st.create_note(s("n-1"), s("nb-1"), s("Plan"), 10).unwrap();
    let big = vec![0u8; MAX_ATTACHMENT_SIZE + 1];
    assert_eq!(
        st.save_attachment(s("a-1"), s("n-1"), big, s("big.png"), s("image/png"), 11),
        Err(StoreError::PayloadTooLarge)
    );
    assert_eq!(st.get_attachment(&s("a-1")), Err(StoreError::NotFound));
    // the size check comes first, even for a missing note
    let big = vec![0u8; MAX_ATTACHMENT_SIZE + 1];
    assert_eq!(
        st.save_attachment(s("a-2"), s("n-9"), big, s("big.png"), s("image/png"), 11),
        Err(StoreError::PayloadTooLarge)
    );
}

#[test]
fn payload_at_the_limit_is_accepted() {
    let mut st = store_with_notebook("nb-1", "Work");
    st.create_note(s("n-1"), s("nb-1"), s("Plan"), 10).unwrap();
    let data = vec![7u8; MAX_ATTACHMENT_SIZE];
    let info = st.save_attachment(s("a-1"), s("n-1"), data, s("ok.png"), s("image/png"), 11).unwrap();
    assert_eq!(info.size, 2 * 1024 * 1024);
}

#[test]
fn attachment_round_trip() {
    let mut st = store_with_notebook("nb-1", "Work");
    st.create_note(s("n-1"), s("nb-1"), s("Plan"), 10).unwrap();
    let data: Vec<u8> = (0..=255u8).collect();
    let info = st.save_attachment(s("a-1"), s("n-1"), data.clone(), s("pic.png"), s("image/png"), 11).unwrap();
    assert_eq!(info.id, "a-1");
    assert_eq!(info.note_id, "n-1");
    assert_eq!(info.size, 256);
    assert_eq!(st.get_attachment(&s("a-1")), Ok(data));
    let meta = st.get_attachment_metadata(&s("a-1")).unwrap();
    assert_eq!(meta, info);
    assert_eq!(meta.filename, "pic.png");
    assert_eq!(meta.mime_type, "image/png");
    assert_eq!(meta.created_at, 11);
}

#[test]
fn attachment_errors() {
    let mut st = store_with_notebook("nb-1", "Work");
    st.create_note(s("n-1"), s("nb-1"), s("Plan"), 10).unwrap();
    assert_eq!(
        st.save_attachment(s("a-1"), s("n-9"), vec![1], s("x"), s("image/png"), 11),
        Err(StoreError::NotFound)
    );
    st.save_attachment(s("a-1"), s("n-1"), vec![1], s("x"), s("image/png"), 11).unwrap();
    assert_eq!(
        st.save_attachment(s("a-1"), s("n-1"), vec![2], s("y"), s("image/png"), 12),
        Err(StoreError::Constraint)
    );
    assert_eq!(st.get_attachment(&s("a-1")), Ok(vec![1]));
}

#[test]
fn work_plan_scenario() {
    let mut st = Store::new();
    st.create_notebook(s("nb-work"), s("Work")).unwrap();
    let note = st.create_note(s("n-plan"), s("nb-work"), s("Plan"), 1_000).unwrap();
    assert_eq!(note.content, "");
    assert_eq!(note.created_at, 1_000);
    assert_eq!(note.updated_at, 1_000);
    assert_eq!(st.update_note_content(&s("n-plan"), s("draft v2"), 1_000), Ok(()));
    assert_eq!(st.soft_delete_note(&s("n-plan"), 1_000), Ok(()));
    let trash = st.list_trash();
    assert_eq!(trash.len(), 1);
    assert_eq!(trash[0].content, "draft v2");
    assert!(st.list_notes(&s("nb-work")).unwrap().is_empty());
    assert_eq!(st.restore_note(&s("n-plan"), 1_000), Ok(()));
    let active = st.list_notes(&s("nb-work")).unwrap();
    assert_eq!(active.len(), 1);
    assert_eq!(active[0].content, "draft v2");
    // the clock did not move, yet each change got a later stamp
    assert_eq!(active[0].updated_at, 1_003);
    assert!(active[0].updated_at > note.updated_at);
    assert_eq!(active[0].created_at, 1_000);
}

#[test]
fn note_under_missing_notebook_is_not_found() {
    let mut st = store_with_notebook("nb-1", "Work");
    assert_eq!(st.create_note(s("n-1"), s("missing"), s("Plan"), 10), Err(StoreError::NotFound));
    assert!(st.list_trash().is_empty());
    assert!(st.list_notes(&s("nb-1")).unwrap().is_empty());
    assert_eq!(st.update_note_content(&s("n-1"), s("x"), 11), Err(StoreError::NotFound));
}

#[test]
fn create_note_with_taken_id_is_rejected() {
    let mut st = store_with_notebook("nb-1", "Work");
    st.create_note(s("n-1"), s("nb-1"), s("Plan"), 10).unwrap();
    assert_eq!(st.create_note(s("n-1"), s("nb-1"), s("Other"), 11), Err(StoreError::Constraint));
    assert_eq!(st.create_note(s(""), s("nb-1"), s("Other"), 11), Err(StoreError::Constraint));
}

#[test]
fn notes_are_listed_by_title_ignoring_case() {
    let mut st = store_with_notebook("nb-1", "Work");
    st.create_note(s("n-1"), s("nb-1"), s("banana"), 10).unwrap();
    st.create_note(s("n-2"), s("nb-1"), s("Cherry"), 11).unwrap();
    st.create_note(s("n-3"), s("nb-1"), s("apple"), 12).unwrap();
    st.create_note(s("n-4"), s("nb-1"), s("Apple"), 13).unwrap();
    let titles: Vec<String> = st.list_notes(&s("nb-1")).unwrap().into_iter().map(|n| n.title).collect();
    // equal titles keep their order of creation
    assert_eq!(titles, vec![s("apple"), s("Apple"), s("banana"), s("Cherry")]);
}

#[test]
fn update_title_and_move_note() {
    let mut st = store_with_notebook("nb-1", "Work");
    st.create_notebook(s("nb-2"), s("Home")).unwrap();
    st.create_note(s("n-1"), s("nb-1"), s("Plan"), 10).unwrap();
    assert_eq!(st.update_note_title(&s("n-1"), s("Roadmap"), 20), Ok(()));
    assert_eq!(st.move_note(&s("n-1"), s("nb-9"), 21), Err(StoreError::NotFound));
    assert_eq!(st.move_note(&s("n-1"), s("nb-2"), 22), Ok(()));
    assert!(st.list_notes(&s("nb-1")).unwrap().is_empty());
    let moved = st.list_notes(&s("nb-2")).unwrap();
    assert_eq!(moved.len(), 1);
    assert_eq!(moved[0].title, "Roadmap");
    assert_eq!(moved[0].notebook_id, "nb-2");
    assert_eq!(moved[0].updated_at, 22);
    assert_eq!(st.move_note(&s("n-9"), s("nb-2"), 23), Err(StoreError::NotFound));
}

#[test]
fn loaded_rows_are_checked() {
    let mut st = store_with_notebook("nb-1", "Work");
    let note = Note {
        id: s("n-1"),
        notebook_id: s("nb-1"),
        title: s("Old"),
        content: s("text"),
        created_at: 5,
        updated_at: 50,
        state: NoteState::Trashed,
    };
    let mut bad = note.clone();
    bad.created_at = 60;
    assert_eq!(st.load_note(bad), Err(StoreError::Validation));
    let mut orphan = note.clone();
    orphan.notebook_id = s("nb-9");
    assert_eq!(st.load_note(orphan), Err(StoreError::NotFound));
    assert_eq!(st.load_note(note.clone()), Ok(()));
    assert_eq!(st.load_note(note), Err(StoreError::Constraint));
    assert_eq!(st.list_trash().len(), 1);

    let att = Attachment {
        id: s("a-1"),
        note_id: s("n-1"),
        data: vec![1, 2],
        filename: s("x.png"),
        mime_type: s("image/png"),
        size: 3,
        created_at: 70,
    };
    assert_eq!(st.load_attachment(att.clone()), Err(StoreError::Validation));
    let mut good = att.clone();
    good.size = 2;
    assert_eq!(st.load_attachment(good), Ok(()));
    assert_eq!(st.get_attachment(&s("a-1")), Ok(vec![1, 2]));
    // the clock moved past the loaded stamps
    st.update_note_title(&s("n-1"), s("New"), 0).unwrap();
    assert_eq!(st.list_trash()[0].updated_at, 71);
}

#[test]
fn identifiers_are_never_accepted_twice() {
    let mut st = store_with_notebook("nb-1", "Work");
    st.create_note(s("n-1"), s("nb-1"), s("Plan"), 10).unwrap();
    st.save_attachment(s("a-1"), s("n-1"), vec![1], s("x.png"), s("image/png"), 11).unwrap();
    st.delete_notebook(&s("nb-1")).unwrap();
    // ids of deleted records stay taken
    assert_eq!(st.create_notebook(s("nb-1"), s("Work")), Err(StoreError::Constraint));
    st.create_notebook(s("nb-2"), s("Home")).unwrap();
    assert_eq!(st.create_note(s("n-1"), s("nb-2"), s("Plan"), 12), Err(StoreError::Constraint));
    // one id space for every kind of record
    assert_eq!(st.create_note(s("nb-2"), s("nb-2"), s("Plan"), 12), Err(StoreError::Constraint));
    st.create_note(s("n-2"), s("nb-2"), s("Plan"), 12).unwrap();
    assert_eq!(
        st.save_attachment(s("a-1"), s("n-2"), vec![1], s("x.png"), s("image/png"), 13),
        Err(StoreError::Constraint)
    );
    st.purge_note(&s("n-2")).unwrap();
    assert_eq!(st.create_note(s("n-2"), s("nb-2"), s("Again"), 14), Err(StoreError::Constraint));
}

#[test]
fn listings_hold_only_matching_notes() {
    let mut st = store_with_notebook("nb-1", "Work");
    st.create_notebook(s("nb-2"), s("Home")).unwrap();
    st.create_note(s("n-1"), s("nb-1"), s("Plan"), 10).unwrap();
    st.create_note(s("n-2"), s("nb-2"), s("Shop"), 11).unwrap();
    st.create_note(s("n-3"), s("nb-1"), s("Old"), 12).unwrap();
    st.soft_delete_note(&s("n-3"), 13).unwrap();
    let work = st.list_notes(&s("nb-1")).unwrap();
    assert_eq!(work.len(), 1);
    assert_eq!(work[0].id, "n-1");
    let trash = st.list_trash();
    assert_eq!(trash.len(), 1);
    assert_eq!(trash[0].id, "n-3");
    assert_eq!(st.get_note(&s("n-3")).unwrap().state, NoteState::Trashed);
    assert_eq!(st.get_note(&s("n-9")), Err(StoreError::NotFound));
}

#[test]
fn reserved_identifiers_are_refused() {
    let mut st = Store::new();
    assert_eq!(st.reserve_id(s("nb-old")), Ok(()));
    assert_eq!(st.reserve_id(s("nb-old")), Err(StoreError::Constraint));
    assert_eq!(st.reserve_id(s("")), Err(StoreError::Constraint));
    assert_eq!(st.create_notebook(s("nb-old"), s("Work")), Err(StoreError::Constraint));
    assert!(st.list_notebooks().is_empty());
    assert!(st.create_notebook(s("nb-new"), s("Work")).is_ok());
}
