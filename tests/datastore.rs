use notes::db::Datastore;
use notes::note::Note;

fn ids_and_texts(d: &Datastore) -> Vec<(usize, String)> {
    d.notes.iter().map(|n| (n.id, n.text.clone())).collect()
}

fn open(contents: &str) -> Datastore {
    Datastore::new(String::from("notes.txt"), Some(String::from(contents)))
}

#[test]
fn missing_file_is_empty() {
    let d = Datastore::new(String::from("x.txt"), None);
    assert!(d.notes.is_empty());
    assert_eq!(d.path, "x.txt");
    assert_eq!(d.backup_contents(), "");
}

#[test]
fn reopen_gives_the_same_notes() {
    let d = open("3|c\n1|a b\n7|\n");
    let again = open(&d.backup_contents());
    assert_eq!(ids_and_texts(&again), ids_and_texts(&d));
    assert_eq!(d.backup_contents(), "3|c\n1|a b\n7|\n");
}

#[test]
fn parsing_keeps_only_records() {
    let d = open("junk\n5|five\n|x\na|b\n1|2|3\n\n 6 |six\r\n18446744073709551616|big\n8|last");
    assert_eq!(
        ids_and_texts(&d),
        vec![
            (5, String::from("five")),
            (6, String::from("six")),
            (8, String::from("last")),
        ]
    );
}

#[test]
fn line_as_note_cases() {
    let d = open("");
    let n = d.line_as_note("12|text here").unwrap();
    assert_eq!((n.id, n.text), (12, String::from("text here")));
    let n = d.line_as_note("\t4\u{3000}|").unwrap();
    assert_eq!((n.id, n.text), (4, String::new()));
    assert!(d.line_as_note("").is_none());
    assert!(d.line_as_note("x|y").is_none());
    assert!(d.line_as_note("1|y|z").is_none());
    assert!(d.line_as_note("-1|y").is_none());
}

#[test]
fn read_backup_replaces_notes() {
    let mut d = open("0|a\n");
    assert_eq!(d.read_backup(Some(String::from("4|x\n5|y\n"))), 2);
    assert_eq!(
        ids_and_texts(&d),
        vec![(4, String::from("x")), (5, String::from("y"))]
    );
    assert_eq!(d.read_backup(None), 0);
}

#[test]
fn get_finds_the_note_with_the_id() {
    let d = open("4|x\n9|y\n2|z\n");
    assert_eq!(d.get_index_by_id(&9), Some(1));
    assert_eq!(d.get_note_by_id(&2).map(|n| n.text.clone()), Some(String::from("z")));
    assert_eq!(d.get_index_by_id(&5), None);
    assert!(d.get_note_by_id(&5).is_none());
}

#[test]
fn get_finds_the_first_of_equal_ids() {
    let d = open("1|b\n1|c\n");
    assert_eq!(d.get_index_by_id(&1), Some(0));
    assert_eq!(d.get_note_by_id(&1).map(|n| n.text.clone()), Some(String::from("b")));
}

#[test]
fn delete_removes_the_id_and_one_note() {
    let mut d = open("4|x\n9|y\n2|z\n");
    let n = d.delete(&9).unwrap();
    assert_eq!((n.id, n.text), (9, String::from("y")));
    assert!(d.get_note_by_id(&9).is_none());
    assert_eq!(
        ids_and_texts(&d),
        vec![(4, String::from("x")), (2, String::from("z"))]
    );
}

#[test]
fn replace_sets_the_text_and_keeps_the_count() {
    let mut d = open("4|x\n9|y\n2|z\n");
    let old = d
        .replace(9, Note { id: 9, text: String::from("new") })
        .unwrap();
    assert_eq!(old.text, "y");
    assert_eq!(d.get_note_by_id(&9).map(|n| n.text.clone()), Some(String::from("new")));
    assert_eq!(d.notes.len(), 3);
    assert_eq!(d.backup_contents(), "4|x\n9|new\n2|z\n");
}

#[test]
fn add_appends_with_the_count_as_id() {
    let mut d = open("");
    let n = d.add("first", Some(String::from("5|a\n6|b\n")));
    assert_eq!((n.id, n.text.as_str()), (2, "first"));
    assert_eq!(d.backup_contents(), "5|a\n6|b\n2|first\n");
}

#[test]
fn note_clone_keeps_fields() {
    let n = Note { id: 3, text: String::from("t") };
    let c = n.clone();
    assert_eq!((c.id, c.text), (3, String::from("t")));
}
