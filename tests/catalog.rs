use mag_graph::catalog::{read_journals, CatalogError};

fn type_line(id: &str) -> String {
    format!(
        "<http://ma-graph.org/entity/{}> <http://www.w3.org/1999/02/22-rdf-syntax-ns#type> <http://ma-graph.org/class/Journal> .",
        id
    )
}

fn prop(id: &str, pred: &str, value: &str) -> String {
    format!("<http://ma-graph.org/entity/{}> <{}> \"{}\" .", id, pred, value)
}

#[test]
fn journals_are_read_in_order_last_included() {
    let lines = vec![
        type_line("J1"),
        prop("J1", "http://ma-graph.org/property/rank", "12"),
        prop("J1", "http://xmlns.com/foaf/0.1/name", "Nature"),
        prop("J1", "http://purl.org/dc/terms/issn", "0028-0836"),
        "# a comment".to_string(),
        String::new(),
        type_line("J2"),
        prop("J2", "http://xmlns.com/foaf/0.1/name", "Science"),
        prop("J2", "http://xmlns.com/foaf/0.1/name", "Science Magazine"),
    ];
    let journals = read_journals(&lines).unwrap();
    assert_eq!(journals.len(), 2);
    assert_eq!(journals[0].entity, "http://ma-graph.org/entity/J1");
    assert_eq!(journals[0].rank, 12);
    assert_eq!(journals[0].name, "Nature");
    assert_eq!(journals[0].issn, "0028-0836");
    assert_eq!(journals[1].entity, "http://ma-graph.org/entity/J2");
    assert_eq!(journals[1].rank, 0);
    assert_eq!(journals[1].name, "Science Magazine");
    assert_eq!(journals[1].issn, "");
}

#[test]
fn empty_dump_has_no_journals() {
    assert_eq!(read_journals(&vec![]).unwrap().len(), 0);
}

#[test]
fn statement_before_any_journal_fails() {
    let lines = vec![prop("J1", "http://xmlns.com/foaf/0.1/name", "Nature"), type_line("J1")];
    assert_eq!(read_journals(&lines).unwrap_err(), CatalogError::StatementBeforeJournal);
}

#[test]
fn invalid_line_fails() {
    let lines = vec![type_line("J1"), "not a triple".to_string()];
    assert_eq!(read_journals(&lines).unwrap_err(), CatalogError::InvalidLine);
}

#[test]
fn bad_rank_fails() {
    let lines = vec![type_line("J1"), prop("J1", "http://ma-graph.org/property/rank", "high")];
    assert_eq!(read_journals(&lines).unwrap_err(), CatalogError::BadRank);
}

#[test]
fn escape_naming_no_character_is_invalid() {
    let surrogate = vec![type_line("J1"), prop("J1", "http://xmlns.com/foaf/0.1/name", "a\\uD800b")];
    assert_eq!(read_journals(&surrogate).unwrap_err(), CatalogError::InvalidLine);
    let beyond = vec![type_line("J1"), prop("J1", "http://xmlns.com/foaf/0.1/name", "a\\U110000b")];
    assert_eq!(read_journals(&beyond).unwrap_err(), CatalogError::InvalidLine);
    let accented = vec![type_line("J1"), prop("J1", "http://xmlns.com/foaf/0.1/name", "caf\\u00E9")];
    assert_eq!(read_journals(&accented).unwrap()[0].name, "caf\u{e9}");
}

#[test]
fn long_escape_surrogate_is_invalid() {
    let lines = vec![type_line("J1"), prop("J1", "http://xmlns.com/foaf/0.1/name", "a\\U00D800b")];
    assert_eq!(read_journals(&lines).unwrap_err(), CatalogError::InvalidLine);
    let lower = vec![type_line("J1"), prop("J1", "http://xmlns.com/foaf/0.1/name", "a\\U00dfffb")];
    assert_eq!(read_journals(&lower).unwrap_err(), CatalogError::InvalidLine);
    let fine = vec![type_line("J1"), prop("J1", "http://xmlns.com/foaf/0.1/name", "a\\U0000E9b")];
    assert_eq!(read_journals(&fine).unwrap()[0].name, "a\u{e9}b");
}

#[test]
fn escaped_backslash_starts_no_escape() {
    let lines = vec![type_line("J1"), prop("J1", "http://xmlns.com/foaf/0.1/name", "a\\\\uD800")];
    assert_eq!(read_journals(&lines).unwrap()[0].name, "a\\uD800");
    let odd = vec![type_line("J1"), prop("J1", "http://xmlns.com/foaf/0.1/name", "a\\\\\\uD800")];
    assert_eq!(read_journals(&odd).unwrap_err(), CatalogError::InvalidLine);
}
