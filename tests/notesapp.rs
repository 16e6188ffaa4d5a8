use notes::errors::DatastoreError;
use notes::note::Note;
use notes::notesapp::{NotesApp, DEFAULT_PATH};

/// Runs the command sequence of a fresh, empty file up to the second add.
fn two_notes() -> (NotesApp, String) {
    let mut app = NotesApp::new(None);
    app.add(String::from("hello world"), None);
    let first = app.db.backup_contents();
    let mut app = NotesApp::new(Some(first.clone()));
    app.add(String::from("second"), Some(first));
    let contents = app.db.backup_contents();
    (NotesApp::new(Some(contents.clone())), contents)
}

#[test]
fn it_works() {
    let mut n = NotesApp::new(None);
    let newtext = String::from("this my first note text");
    let line = n.add(newtext, None);
    assert_eq!(line, "added new note: \"this my first note text\"");
    assert_eq!(n.db.backup_contents(), "0|this my first note text\n");
}

#[test]
fn get() {
    let n = NotesApp::new(None);
    assert_eq!(n.get_all_notes(), vec![String::from("nothing to show.")]);
}

#[test]
fn add_to_empty_file() {
    let mut app = NotesApp::new(None);
    assert_eq!(app.db.path, DEFAULT_PATH);
    let line = app.add(String::from("hello world"), None);
    assert_eq!(line, "added new note: \"hello world\"");
    assert_eq!(app.db.backup_contents(), "0|hello world\n");
}

#[test]
fn add_second_note() {
    let (_, contents) = two_notes();
    assert_eq!(contents, "0|hello world\n1|second\n");
}

#[test]
fn get_one_note() {
    let (app, _) = two_notes();
    assert_eq!(app.get_note(1), Some(String::from("\"second\"")));
    assert_eq!(app.get_note(7), None);
}

#[test]
fn delete_first_note() {
    let (mut app, _) = two_notes();
    let line = app.delete(&0).unwrap();
    assert_eq!(line, "removed note 0: hello world");
    assert_eq!(app.db.backup_contents(), "1|second\n");
}

#[test]
fn update_after_delete() {
    let (mut app, _) = two_notes();
    app.delete(&0).unwrap();
    let mut app = NotesApp::new(Some(app.db.backup_contents()));
    let line = app.update(1, String::from("changed")).unwrap();
    assert_eq!(line, "updated note 1 from 'second' to 'changed'");
    assert_eq!(app.db.backup_contents(), "1|changed\n");
}

#[test]
fn list_skips_malformed_lines() {
    let app = NotesApp::new(Some(String::from("0|keep\nnot-a-note\n\n2|also\n")));
    assert_eq!(
        app.get_all_notes(),
        vec![String::from("0: keep"), String::from("2: also")]
    );
}

#[test]
fn new_at_names_the_file() {
    let app = NotesApp::new_at(Some(String::from("other.txt")), Some(String::from("4|x\n")));
    assert_eq!(app.db.path, "other.txt");
    assert_eq!(app.get_note(4), Some(String::from("\"x\"")));
    let app = NotesApp::new_at(None, None);
    assert_eq!(app.db.path, "notes.txt");
}

#[test]
fn add_reloads_from_disk() {
    let mut app = NotesApp::new(Some(String::from("0|old\n")));
    app.add(String::from("new"), Some(String::from("0|a\n1|b\n")));
    assert_eq!(app.db.backup_contents(), "0|a\n1|b\n2|new\n");
}

#[test]
fn add_after_delete_reuses_an_id() {
    let mut app = NotesApp::new(Some(String::from("0|a\n1|b\n")));
    app.delete(&0).unwrap();
    let disk = app.db.backup_contents();
    app.add(String::from("c"), Some(disk));
    assert_eq!(app.db.backup_contents(), "1|b\n1|c\n");
    assert_eq!(app.get_note(1), Some(String::from("\"b\"")));
}

#[test]
fn quoting_escapes_quotes() {
    let mut app = NotesApp::new(None);
    let line = app.add(String::from("say \"hi\""), None);
    assert_eq!(line, "added new note: \"say \\\"hi\\\"\"");
    assert_eq!(app.get_note(0), Some(String::from("\"say \\\"hi\\\"\"")));
}

#[test]
fn delete_errors() {
    let mut empty = NotesApp::new(None);
    assert_eq!(empty.delete(&0), Err(DatastoreError::Empty));
    let mut app = NotesApp::new(Some(String::from("0|a\n")));
    assert_eq!(app.delete(&3), Err(DatastoreError::UnknownId { given: 3 }));
    assert_eq!(app.db.backup_contents(), "0|a\n");
}

#[test]
fn update_errors() {
    let mut empty = NotesApp::new(None);
    assert_eq!(
        empty.update(0, String::from("x")),
        Err(DatastoreError::NotUpdateable)
    );
    let mut app = NotesApp::new(Some(String::from("0|a\n")));
    assert_eq!(
        app.update(5, String::from("x")),
        Err(DatastoreError::UnknownId { given: 5 })
    );
    assert_eq!(app.db.backup_contents(), "0|a\n");
}

#[test]
fn get_id_reads_decimal_ids() {
    assert_eq!(Note::get_id(Some("12")), Ok(12));
    assert_eq!(Note::get_id(Some("+7")), Ok(7));
    assert_eq!(Note::get_id(Some("0")), Ok(0));
    assert_eq!(
        Note::get_id(Some("18446744073709551615")),
        Ok(18446744073709551615usize)
    );
}

#[test]
fn get_id_rejects_bad_arguments() {
    assert_eq!(Note::get_id(None), Err(DatastoreError::BadArgument));
    assert_eq!(Note::get_id(Some("")), Err(DatastoreError::BadArgument));
    assert_eq!(Note::get_id(Some("+")), Err(DatastoreError::BadArgument));
    assert_eq!(Note::get_id(Some("-1")), Err(DatastoreError::BadArgument));
    assert_eq!(Note::get_id(Some("1a")), Err(DatastoreError::BadArgument));
    assert_eq!(Note::get_id(Some(" 1")), Err(DatastoreError::BadArgument));
    assert_eq!(
        Note::get_id(Some("18446744073709551616")),
        Err(DatastoreError::BadArgument)
    );
}
