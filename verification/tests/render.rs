use note_index::catalog::Catalog;
use note_index::header::{has_early_end, parse_header, Extraction, HeaderError, HeaderRecord, Stamp};
use note_index::index::{DocumentRef, Index};
use note_index::render::{
    render, render_date_page, render_dates_summary, render_master_index, render_tag_page,
    render_tags_summary, Page, RenderError,
};

fn doc(id: &str, title: &str, sort_field: &str) -> DocumentRef {
    DocumentRef { document_id: id.to_string(), title: title.to_string(), sort_field: sort_field.to_string() }
}

fn lines(text: &[&str]) -> Vec<String> {
    text.iter().map(|l| l.to_string()).collect()
}

fn record(title: &str, created: Option<(&str, &str)>, tags: &[&str]) -> HeaderRecord {
    HeaderRecord {
        title: title.to_string(),
        created: created.map(|(date, time)| Stamp { date: date.to_string(), time: time.to_string() }),
        tags: tags.iter().map(|t| t.to_string()).collect(),
    }
}

#[test]
fn tag_page_keeps_the_order_of_arrival() {
    let docs = vec![doc("n2", "Second", ""), doc("n1", "First", "")];
    assert_eq!(
        render_tag_page("rust", &docs),
        "---\nTitle: rust\n---\n\n#list\n[[n2|Second]]\n[[n1|First]]\n"
    );
}

#[test]
fn tag_page_of_no_document() {
    assert_eq!(render_tag_page("rust", &Vec::new()), "---\nTitle: rust\n---\n\n#list\n");
}

#[test]
fn date_page_is_sorted_by_time() {
    let docs = vec![doc("a", "A", "09:00"), doc("b", "B", "07:30"), doc("c", "C", "12:15")];
    assert_eq!(
        render_date_page("20240101", &docs),
        "---\nTitle: 20240101\n---\n\n#list\n[[b|07:30|B]]\n[[a|09:00|A]]\n[[c|12:15|C]]\n"
    );
}

#[test]
fn date_page_from_an_index_is_sorted_by_time() {
    let mut dates = Index::new();
    dates.add("20240101", "a", "A", "09:00");
    dates.add("20240101", "b", "B", "07:30");
    dates.add("20240101", "c", "C", "12:15");
    let docs = dates.get_files_by_i("20240101").unwrap();
    let page = render_date_page("20240101", docs);
    let times: Vec<&str> = page.lines().skip(5).map(|l| l.split('|').nth(1).unwrap()).collect();
    assert_eq!(times, vec!["07:30", "09:00", "12:15"]);
}

#[test]
fn date_page_keeps_equal_times_in_the_order_of_arrival() {
    let docs = vec![doc("a", "A", "09:00"), doc("b", "B", "08:00"), doc("c", "C", "09:00"), doc("d", "D", "08:00")];
    assert_eq!(
        render_date_page("1", &docs),
        "---\nTitle: 1\n---\n\n#list\n[[b|08:00|B]]\n[[d|08:00|D]]\n[[a|09:00|A]]\n[[c|09:00|C]]\n"
    );
}

#[test]
fn tags_by_descending_count() {
    let mut tags = Index::new();
    for _ in 0..3 {
        tags.add("a", "n", "N", "");
    }
    for _ in 0..5 {
        tags.add("b", "n", "N", "");
    }
    tags.add("c", "n", "N", "");
    assert_eq!(render_tags_summary(&tags), "b(5)  a(3)  c(1)\n");
}

#[test]
fn tags_of_equal_count_stay_in_the_order_of_arrival() {
    let mut tags = Index::new();
    tags.add_node("n1", "N", "", vec!["z", "m", "a"]);
    tags.add("m", "n2", "N", "");
    assert_eq!(render_tags_summary(&tags), "m(2)  z(1)  a(1)\n");
}

#[test]
fn tags_wrap_after_five_columns() {
    let mut tags = Index::new();
    tags.add_node("n1", "N", "", vec!["one", "two", "three", "four", "five", "six"]);
    assert_eq!(
        render_tags_summary(&tags),
        "one(1)  two(1)  three(1)  four(1)  five(1)\nsix(1)\n"
    );
}

#[test]
fn summaries_of_empty_indexes_are_empty() {
    assert_eq!(render_tags_summary(&Index::new()), "");
    assert_eq!(render_dates_summary(&Index::new()), Ok(String::new()));
}

#[test]
fn dates_by_descending_number() {
    let mut dates = Index::new();
    dates.add("20240101", "a", "A", "09:15");
    dates.add("20240102", "b", "B", "08:00");
    dates.add("20231231", "c", "C", "08:00");
    dates.add("20240101", "d", "D", "10:00");
    assert_eq!(
        render_dates_summary(&dates),
        Ok("[[20240102]](1)  [[20240101]](2)  [[20231231]](1)\n".to_string())
    );
}

#[test]
fn dates_are_ordered_as_numbers_and_written_as_numbers() {
    let mut dates = Index::new();
    dates.add("9", "a", "A", "");
    dates.add("10", "b", "B", "");
    dates.add("+7", "c", "C", "");
    dates.add("008", "d", "D", "");
    assert_eq!(render_dates_summary(&dates), Ok("[[10]](1)  [[9]](1)  [[8]](1)  [[7]](1)\n".to_string()));
}

#[test]
fn dates_wrap_after_seven_columns() {
    let mut dates = Index::new();
    dates.add_node("n", "N", "", vec!["1", "2", "3", "4", "5", "6", "7", "8"]);
    assert_eq!(
        render_dates_summary(&dates),
        Ok("[[8]](1)  [[7]](1)  [[6]](1)  [[5]](1)  [[4]](1)  [[3]](1)  [[2]](1)\n[[1]](1)\n".to_string())
    );
}

#[test]
fn bad_date_key_ends_the_rendering() {
    let mut tags = Index::new();
    tags.add("t", "n", "N", "");
    let mut dates = Index::new();
    dates.add("20240101", "a", "A", "09:15");
    dates.add("march", "b", "B", "08:00");
    dates.add("april", "c", "C", "08:00");
    assert_eq!(render_dates_summary(&dates), Err(RenderError::BadDateKey("march".to_string())));
    assert_eq!(render_master_index(&tags, &dates), Err(RenderError::BadDateKey("march".to_string())));
    assert_eq!(render(&tags, &dates), Err(RenderError::BadDateKey("march".to_string())));
}

#[test]
fn master_index_of_nothing() {
    assert_eq!(
        render_master_index(&Index::new(), &Index::new()),
        Ok("---\nTitle: index\n---\n\n# Tags\n# Dates\n".to_string())
    );
}

#[test]
fn render_gives_tag_pages_then_date_pages_then_the_master_index() {
    let mut tags = Index::new();
    tags.add("foo", "n1", "One", "");
    let mut dates = Index::new();
    dates.add("20240101", "n1", "One", "09:15");
    let pages = render(&tags, &dates).unwrap();
    assert_eq!(
        pages,
        vec![
            Page { name: "foo".to_string(), body: "---\nTitle: foo\n---\n\n#list\n[[n1|One]]\n".to_string() },
            Page {
                name: "20240101".to_string(),
                body: "---\nTitle: 20240101\n---\n\n#list\n[[n1|09:15|One]]\n".to_string()
            },
            Page {
                name: "index".to_string(),
                body: "---\nTitle: index\n---\n\n# Tags\nfoo(1)\n# Dates\n[[20240101]](1)\n".to_string()
            },
        ]
    );
}

#[test]
fn header_with_every_field() {
    let found = parse_header(&lines(&["---", "Title: My note", "", "Created: 20240101 09:15", "Tags: foo Bar", "---", "text"]));
    assert_eq!(
        found,
        Ok(Extraction::Record(record("My note", Some(("20240101", "09:15")), &["foo", "Bar"])))
    );
}

#[test]
fn header_fields_count_only_on_their_lines() {
    let found = parse_header(&lines(&["Title: early", "Created: 1 2", "Tags: a", "Title: late", "Created: 3 4"]));
    assert_eq!(found, Ok(Extraction::Record(record("", None, &[]))));
    let found = parse_header(&lines(&["---", "title: x", "", "created: 1 2", "tags: a"]));
    assert_eq!(found, Ok(Extraction::Record(record("", None, &[]))));
    let found = parse_header(&lines(&["---", "Title:x", "", "Created:1 2 3", "Tags:a"]));
    assert_eq!(found, Ok(Extraction::Record(record("", Some(("1", "2")), &["a"]))));
}

#[test]
fn short_header_keeps_the_fields_it_has() {
    assert_eq!(parse_header(&Vec::new()), Ok(Extraction::Record(record("", None, &[]))));
    assert_eq!(
        parse_header(&lines(&["---", "Title: T"])),
        Ok(Extraction::Record(record("T", None, &[])))
    );
    assert_eq!(
        parse_header(&lines(&["---", "Title: T", "", "Created: 20240101 09:15"])),
        Ok(Extraction::Record(record("T", Some(("20240101", "09:15")), &[])))
    );
}

#[test]
fn header_without_tags_line_still_has_its_date() {
    assert_eq!(
        parse_header(&lines(&["---", "Title: T", "", "Created: 20240101 09:15", "nothing"])),
        Ok(Extraction::Record(record("T", Some(("20240101", "09:15")), &[])))
    );
}

#[test]
fn header_that_ends_early_is_rejected() {
    let text = lines(&["---", "Title: T", "---", "Created: 20240101 09:15", "Tags: a"]);
    assert!(has_early_end(&text));
    assert_eq!(parse_header(&text), Ok(Extraction::Rejected));
    assert!(!has_early_end(&lines(&["---", "Title: T", "--", "x"])));
    assert!(!has_early_end(&lines(&["---", "---"])));
}

#[test]
fn created_line_without_stamp_ends_the_run() {
    assert_eq!(
        parse_header(&lines(&["---", "Title: T", "", "Created:", "Tags: a"])),
        Err(HeaderError::NoCreationStamp)
    );
    assert_eq!(
        parse_header(&lines(&["---", "Title: T", "", "Created:   ", "Tags: a"])),
        Err(HeaderError::NoCreationStamp)
    );
    assert_eq!(
        parse_header(&lines(&["---", "Title: T", "", "Created: 20240101", "Tags: a"])),
        Err(HeaderError::NoCreationStamp)
    );
    assert_eq!(
        parse_header(&lines(&["---", "Title: T", "---", "Created:", "Tags:"])),
        Err(HeaderError::NoCreationStamp)
    );
}

#[test]
fn tags_line_without_tag_gives_a_record_without_tags() {
    assert_eq!(
        parse_header(&lines(&["---", "Title: T", "x", "Created: 20240101 09:15", "Tags:"])),
        Ok(Extraction::Record(record("T", Some(("20240101", "09:15")), &[])))
    );
    assert_eq!(
        parse_header(&lines(&["---", "Title: T", "", "x", "Tags:  "])),
        Ok(Extraction::Record(record("T", None, &[])))
    );
}

#[test]
fn note_without_tags_still_has_its_date_entry() {
    let mut catalog = Catalog::new();
    assert_eq!(
        catalog.take_in("d", &lines(&["---", "Title: T", "x", "Created: 20240101 09:15", "Tags:"])),
        Ok(true)
    );
    assert_eq!(catalog.tags.len(), 0);
    assert_eq!(catalog.dates.get_inputs(), &vec!["20240101".to_string()]);
    assert_eq!(catalog.dates.get_files_by_i("20240101"), Some(&vec![doc("d", "T", "09:15")]));
}

#[test]
fn catalog_enters_a_note_under_its_date_and_tags() {
    let mut catalog = Catalog::new();
    catalog.record("n1", &record("One", Some(("20240101", "09:15")), &["Foo", "bar"]));
    catalog.record("n2", &record("Two", None, &["bar"]));
    assert_eq!(catalog.tags.get_inputs(), &vec!["foo".to_string(), "bar".to_string()]);
    assert_eq!(catalog.tags.get_files_by_i("bar"), Some(&vec![doc("n1", "One", ""), doc("n2", "Two", "")]));
    assert_eq!(catalog.dates.get_files_by_i("20240101"), Some(&vec![doc("n1", "One", "09:15")]));
    assert_eq!(catalog.dates.len(), 1);
}

#[test]
fn catalog_takes_nothing_from_rejected_or_fatal_headers() {
    let mut catalog = Catalog::new();
    assert_eq!(catalog.take_in("n1", &lines(&["---", "Title: T", "---", "Created: 1 2", "Tags: a"])), Ok(false));
    assert_eq!(
        catalog.take_in("n2", &lines(&["---", "Title: T", "", "Created:", "Tags: a"])),
        Err(HeaderError::NoCreationStamp)
    );
    assert_eq!(
        catalog.take_in("n3", &lines(&["---", "Title: T", "", "Created: 1", "Tags: a"])),
        Err(HeaderError::NoCreationStamp)
    );
    assert_eq!(catalog.tags.len(), 0);
    assert_eq!(catalog.dates.len(), 0);
}

#[test]
fn two_documents_end_to_end() {
    let mut catalog = Catalog::new();
    assert_eq!(
        catalog.take_in("first", &lines(&["---", "Title: First", "", "Created: 20240101 09:15", "Tags: foo bar"])),
        Ok(true)
    );
    assert_eq!(
        catalog.take_in("second", &lines(&["---", "Title: Second", "", "Created: 20240102 08:00", "Tags: bar"])),
        Ok(true)
    );
    assert_eq!(catalog.tags.get_i_count("bar"), 2);
    assert_eq!(catalog.tags.get_i_count("foo"), 1);
    assert_eq!(catalog.dates.get_i_count("20240101"), 1);
    assert_eq!(catalog.dates.get_i_count("20240102"), 1);
    let pages = catalog.render().unwrap();
    let names: Vec<&str> = pages.iter().map(|p| p.name.as_str()).collect();
    assert_eq!(names, vec!["foo", "bar", "20240101", "20240102", "index"]);
    assert_eq!(pages[1].body, "---\nTitle: bar\n---\n\n#list\n[[first|First]]\n[[second|Second]]\n");
    assert_eq!(pages[3].body, "---\nTitle: 20240102\n---\n\n#list\n[[second|08:00|Second]]\n");
    assert_eq!(
        pages[4].body,
        "---\nTitle: index\n---\n\n# Tags\nbar(2)  foo(1)\n# Dates\n[[20240102]](1)  [[20240101]](1)\n"
    );
}

#[test]
fn catalog_with_a_bad_date_renders_no_page() {
    let mut catalog = Catalog::new();
    catalog.record("n1", &record("One", Some(("march", "09:15")), &["foo"]));
    assert_eq!(catalog.render(), Err(RenderError::BadDateKey("march".to_string())));
}
