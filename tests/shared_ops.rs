use notestore::model::StoreError;
use notestore::shared::Notes;

fn s(x: &str) -> String {
    x.to_string()
}

#[test]
fn shared_notebooks_get_fresh_ids() {
    let notes = Notes::new();
    let a = notes.create_notebook(s("Work")).unwrap();
    let b = notes.create_notebook(s("Home")).unwrap();
    assert_eq!(a.id.len(), 36);
    assert_eq!(b.id.len(), 36);
    assert_ne!(a.id, b.id);
    assert_eq!(a.id.matches('-').count(), 4);
    let listed = notes.list_notebooks();
    assert_eq!(listed.len(), 2);
    assert!(listed.iter().any(|n| n.id == a.id && n.title == "Work"));
    assert_eq!(notes.create_notebook(s("")), Err(StoreError::Validation));
}

#[test]
fn shared_work_plan_scenario() {
    let notes = Notes::new();
    let nb = notes.create_notebook(s("Work")).unwrap();
    let note = notes.create_note(nb.id.clone(), s("Plan")).unwrap();
    assert!(note.created_at > 0);
    notes.update_note_content(&note.id, s("draft v2")).unwrap();
    notes.soft_delete_note(&note.id).unwrap();
    assert!(notes.list_trash().iter().any(|n| n.id == note.id));
    assert!(notes.list_notes(&nb.id).unwrap().is_empty());
    notes.restore_note(&note.id).unwrap();
    let active = notes.list_notes(&nb.id).unwrap();
    assert_eq!(active.len(), 1);
    assert_eq!(active[0].content, "draft v2");
    assert!(active[0].updated_at > note.updated_at);
    assert!(notes.list_trash().is_empty());
}

#[test]
fn shared_missing_notebook_and_attachments() {
    let notes = Notes::new();
    assert_eq!(notes.create_note(s("missing"), s("Plan")), Err(StoreError::NotFound));
    let nb = notes.create_notebook(s("Work")).unwrap();
    let note = notes.create_note(nb.id.clone(), s("Plan")).unwrap();
    let info = notes.save_attachment(note.id.clone(), vec![5, 6, 7], s("p.png"), s("image/png")).unwrap();
    assert_eq!(info.size, 3);
    assert_eq!(info.id.len(), 36);
    assert_eq!(notes.get_attachment(&info.id), Ok(vec![5, 6, 7]));
    assert_eq!(notes.get_attachment_metadata(&info.id).unwrap(), info);
    notes.delete_notebook(&nb.id).unwrap();
    assert_eq!(notes.get_attachment(&info.id), Err(StoreError::NotFound));
    assert_eq!(notes.list_notes(&nb.id), Err(StoreError::NotFound));
}

#[test]
fn shared_payload_limit() {
    let notes = Notes::new();
    let nb = notes.create_notebook(s("Work")).unwrap();
    let note = notes.create_note(nb.id.clone(), s("Plan")).unwrap();
    let big = vec![0u8; notestore::model::MAX_ATTACHMENT_SIZE + 1];
    assert_eq!(
        notes.save_attachment(note.id.clone(), big, s("b.png"), s("image/png")),
        Err(StoreError::PayloadTooLarge)
    );
    let ok = vec![0u8; notestore::model::MAX_ATTACHMENT_SIZE];
    assert!(notes.save_attachment(note.id.clone(), ok, s("b.png"), s("image/png")).is_ok());
    assert!(notes.list_trash().is_empty());
}
