use note_index::index::{DocumentRef, Index};

fn doc(id: &str, title: &str, sort_field: &str) -> DocumentRef {
    DocumentRef { document_id: id.to_string(), title: title.to_string(), sort_field: sort_field.to_string() }
}

#[test]
fn new_index_holds_nothing() {
    let index = Index::new();
    assert!(index.get_inputs().is_empty());
    assert_eq!(index.len(), 0);
    assert_eq!(index.get_i_count("x"), 0);
    assert!(index.get_files_by_i("x").is_none());
}

#[test]
fn blank_key_changes_nothing() {
    let mut index = Index::new();
    index.add("x", "n1", "One", "");
    let before = index.get_inputs().clone();
    index.add("   ", "n2", "Two", "");
    index.add("", "n2", "Two", "");
    index.add("\t\n", "n2", "Two", "");
    assert_eq!(index.get_inputs(), &before);
    assert_eq!(index.get_i_count(""), 0);
    assert_eq!(index.get_i_count("   "), 0);
    assert_eq!(index.get_i_count("x"), 1);
    assert!(index.get_files_by_i("").is_none());
}

#[test]
fn count_matches_insertions() {
    let mut index = Index::new();
    for n in 0..25 {
        assert_eq!(index.get_i_count("x"), n);
        index.add("x", "note", "Note", "");
    }
    assert_eq!(index.get_i_count("x"), 25);
    assert_eq!(index.get_inputs(), &vec!["x".to_string()]);
}

#[test]
fn absent_key_is_not_an_empty_list() {
    let mut index = Index::new();
    index.add("used", "n1", "One", "");
    assert_eq!(index.get_files_by_i("neverused"), None);
    assert_eq!(index.get_i_count("neverused"), 0);
    assert_eq!(index.get_files_by_i("used").map(|l| l.len()), Some(1));
}

#[test]
fn keys_resolve_whatever_their_case_and_margin() {
    let mut index = Index::new();
    index.add("  Foo ", "n1", "One", "");
    index.add("FOO", "n2", "Two", "");
    index.add("foo", "n3", "Three", "");
    assert_eq!(index.get_inputs(), &vec!["foo".to_string()]);
    assert_eq!(index.get_i_count(" fOO\t"), 3);
    assert_eq!(
        index.get_files_by_i("Foo"),
        Some(&vec![doc("n1", "One", ""), doc("n2", "Two", ""), doc("n3", "Three", "")])
    );
}

#[test]
fn duplicates_are_kept() {
    let mut index = Index::new();
    index.add("a", "n1", "One", "");
    index.add("a", "n1", "One", "");
    assert_eq!(index.get_files_by_i("a"), Some(&vec![doc("n1", "One", ""), doc("n1", "One", "")]));
}

#[test]
fn add_node_adds_under_each_key_in_turn() {
    let mut index = Index::new();
    index.add_node("n1", "One", "08:00", vec!["b", " ", "A", "b"]);
    index.add_node("n2", "Two", "09:00", vec!["a"]);
    assert_eq!(index.get_inputs(), &vec!["b".to_string(), "a".to_string()]);
    assert_eq!(index.get_files_by_i("b"), Some(&vec![doc("n1", "One", "08:00"), doc("n1", "One", "08:00")]));
    assert_eq!(index.get_files_by_i("a"), Some(&vec![doc("n1", "One", "08:00"), doc("n2", "Two", "09:00")]));
    assert_eq!(index.get_i_count("a"), 2);
    assert_eq!(index.get_i_count("B"), 2);
}

#[test]
fn add_node_of_no_key_changes_nothing() {
    let mut index = Index::new();
    index.add_node("n1", "One", "", vec![]);
    assert_eq!(index.len(), 0);
}

#[test]
fn entry_gives_key_and_documents() {
    let mut index = Index::new();
    index.add("x", "n1", "One", "");
    index.add("y", "n2", "Two", "");
    index.add("x", "n3", "Three", "");
    assert_eq!(index.len(), 2);
    let (key, docs) = index.entry(0);
    assert_eq!(key, "x");
    assert_eq!(docs, &vec![doc("n1", "One", ""), doc("n3", "Three", "")]);
    let (key, docs) = index.entry(1);
    assert_eq!(key, "y");
    assert_eq!(docs, &vec![doc("n2", "Two", "")]);
}

#[test]
fn add_key_takes_the_key_as_it_stands() {
    let mut index = Index::new();
    index.add_key("Foo".to_string(), doc("n1", "One", ""));
    index.add_key("foo".to_string(), doc("n2", "Two", ""));
    index.add_key("Foo".to_string(), doc("n3", "Three", ""));
    assert_eq!(index.get_inputs(), &vec!["Foo".to_string(), "foo".to_string()]);
    assert_eq!(index.files_of_key("Foo"), Some(&vec![doc("n1", "One", ""), doc("n3", "Three", "")]));
    assert_eq!(index.files_of_key("foo"), Some(&vec![doc("n2", "Two", "")]));
    assert_eq!(index.files_of_key(" foo"), None);
    assert_eq!(index.count_of_key("Foo"), 2);
    assert_eq!(index.count_of_key("foo"), 1);
    assert_eq!(index.count_of_key("FOO"), 0);
}

#[test]
fn count_of_key_matches_insertions() {
    let mut index = Index::new();
    for n in 0..10 {
        assert_eq!(index.count_of_key("x"), n);
        index.add_key("x".to_string(), doc("n", "N", ""));
    }
    assert_eq!(index.count_of_key("x"), 10);
    assert_eq!(index.count_of_key("y"), 0);
    assert_eq!(index.files_of_key("y"), None);
}

#[test]
fn date_postings_stay_in_the_order_of_arrival() {
    let mut dates = Index::new();
    dates.add_node("a", "A", "09:00", vec!["20240101"]);
    dates.add_node("b", "B", "07:30", vec!["20240101"]);
    dates.add_node("c", "C", "12:15", vec!["20240101"]);
    assert_eq!(
        dates.get_files_by_i("20240101"),
        Some(&vec![doc("a", "A", "09:00"), doc("b", "B", "07:30"), doc("c", "C", "12:15")])
    );
}
