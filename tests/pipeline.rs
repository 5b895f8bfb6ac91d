use mag_graph::{
    join_all, validate_all,
    build_paper, decode_group, format_row, group_lines, header, join_lines, join_row, line_subject,
    parse_u32, u32_to_text, validate_paper, BuildError, Field, Grouper, JoinStats, Journal, Paper,
    SideTable, Statement, Term,
};

const E: &str = "<http://ma-graph.org/entity/";
const P: &str = "<http://ma-graph.org/property/";

fn lit(entity: &str, pred: &str, value: &str) -> String {
    format!("{}{}> {}{}> \"{}\" .\n", E, entity, P, pred, value)
}

fn int_lit(entity: &str, pred: &str, value: &str) -> String {
    format!(
        "{}{}> {}{}> \"{}\"^^<http://www.w3.org/2001/XMLSchema#integer> .\n",
        E, entity, P, pred, value
    )
}

fn journal_line(entity: &str, journal: &str) -> String {
    format!("{}{}> {}appearsInJournal> {}{}> .\n", E, entity, P, E, journal)
}

fn paper_lines(entity: &str, journal: &str) -> Vec<String> {
    vec![
        int_lit(entity, "rank", "5"),
        lit(entity, "title", "T"),
        lit(entity, "publicationDate", "2020"),
        int_lit(entity, "citationCount", "10"),
        journal_line(entity, journal),
    ]
}

fn entity_uri(id: &str) -> String {
    format!("http://ma-graph.org/entity/{}", id)
}

fn journal(entity: &str, name: &str) -> Journal {
    Journal {
        issn: "1234-5678".to_string(),
        entity: entity.to_string(),
        rank: 42,
        name: name.to_string(),
        subject: "Biology".to_string(),
        field: "Genetics".to_string(),
        distance: "1.250e-1".to_string(),
    }
}

#[test]
fn parse_u32_reads_decimal() {
    assert_eq!(parse_u32("123"), Some(123));
    assert_eq!(parse_u32("+7"), Some(7));
    assert_eq!(parse_u32("0"), Some(0));
    assert_eq!(parse_u32("007"), Some(7));
    assert_eq!(parse_u32("4294967295"), Some(4294967295));
    assert_eq!(parse_u32("4294967296"), None);
    assert_eq!(parse_u32("99999999999999999999"), None);
    assert_eq!(parse_u32(""), None);
    assert_eq!(parse_u32("+"), None);
    assert_eq!(parse_u32("-1"), None);
    assert_eq!(parse_u32("12a"), None);
    assert_eq!(parse_u32(" 1"), None);
}

#[test]
fn u32_to_text_renders_decimal() {
    assert_eq!(u32_to_text(0), "0");
    assert_eq!(u32_to_text(10), "10");
    assert_eq!(u32_to_text(907), "907");
    assert_eq!(u32_to_text(4294967295), "4294967295");
}

#[test]
fn subject_token_of_lines() {
    assert_eq!(line_subject(&lit("E1", "title", "x")), format!("{}E1>", E));
    assert_eq!(line_subject("<http://other.org/x> <p> \"v\" ."), "");
    assert_eq!(line_subject("_:b <p> \"v\" ."), "");
    assert_eq!(line_subject("<http://ma-graph.org/entity/X>"), "<http://ma-graph.org/entity/X>");
    assert_eq!(line_subject(""), "");
}

#[test]
fn groups_follow_subject_runs() {
    let lines = vec![
        lit("A", "title", "a"),
        lit("A", "rank", "1"),
        lit("B", "title", "b"),
        "<http://other.org/x> <http://p/q> \"v\" .\n".to_string(),
        "<http://other.org/y> <http://p/q> \"w\" .\n".to_string(),
        lit("A", "title", "again"),
    ];
    let groups = group_lines(&lines);
    assert_eq!(groups.len(), 4);
    assert_eq!(groups[0].len(), 2);
    assert_eq!(groups[1].len(), 1);
    assert_eq!(groups[2].len(), 2);
    assert_eq!(groups[3], vec![lines[5].clone()]);
    let flat: Vec<String> = groups.concat();
    assert_eq!(flat, lines);
}

#[test]
fn groups_of_empty_and_single_inputs() {
    assert_eq!(group_lines(&vec![]).len(), 0);
    assert_eq!(group_lines(&vec![lit("A", "title", "a")]).len(), 1);
}

#[test]
fn grouper_emits_last_group_at_end() {
    let mut g = Grouper::new();
    assert!(g.push_line(lit("A", "title", "a")).is_none());
    assert!(g.push_line(lit("A", "rank", "1")).is_none());
    let closed = g.push_line(lit("B", "title", "b")).unwrap();
    assert_eq!(closed.len(), 2);
    let last = g.finish().unwrap();
    assert_eq!(last, vec![lit("B", "title", "b")]);
    assert!(Grouper::new().finish().is_none());
}

#[test]
fn grouper_holds_only_the_current_group() {
    let mut g = Grouper::new();
    let mut groups = 0usize;
    let n = 20000usize;
    for i in 0..n {
        let id = format!("P{}", i);
        for line in paper_lines(&id, "J") {
            if let Some(done) = g.push_line(line) {
                assert_eq!(done.len(), 5);
                groups += 1;
            }
        }
    }
    assert_eq!(g.finish().unwrap().len(), 5);
    assert_eq!(groups + 1, n);
}

#[test]
fn complete_group_builds_record() {
    let paper = Paper::try_from(&paper_lines("E", "J")).unwrap();
    assert_eq!(paper.entity, entity_uri("E"));
    assert_eq!(paper.rank, 5);
    assert_eq!(paper.title, "T");
    assert_eq!(paper.date, "2020");
    assert_eq!(paper.citations, 10);
    assert_eq!(paper.journal, entity_uri("J"));
}

#[test]
fn omitted_field_is_named() {
    let fields = [Field::Rank, Field::Title, Field::Date, Field::Citations, Field::Journal];
    for (k, field) in fields.iter().enumerate() {
        let mut lines = paper_lines("E", "J");
        lines.remove(k);
        match Paper::try_from(&lines) {
            Err(BuildError::MissingField(f)) => assert_eq!(f, *field),
            other => panic!("unexpected {:?}", other),
        }
        assert_eq!(validate_paper(&lines), Err(BuildError::MissingField(*field)));
    }
}

#[test]
fn missing_entity_is_named_first() {
    let lines = vec![
        "_:b <http://ma-graph.org/property/rank> \"5\" .\n".to_string(),
        "_:b <http://ma-graph.org/property/title> \"T\" .\n".to_string(),
    ];
    match Paper::try_from(&lines) {
        Err(BuildError::MissingField(f)) => assert_eq!(f, Field::Entity),
        other => panic!("unexpected {:?}", other),
    }
}

#[test]
fn empty_group_misses_entity() {
    match Paper::try_from(&vec![]) {
        Err(BuildError::MissingField(f)) => assert_eq!(f, Field::Entity),
        other => panic!("unexpected {:?}", other),
    }
}

#[test]
fn non_numeric_rank_is_malformed() {
    let mut lines = paper_lines("E", "J");
    lines[0] = lit("E", "rank", "five");
    assert!(matches!(Paper::try_from(&lines), Err(BuildError::MalformedStatement)));
    assert_eq!(validate_paper(&lines), Err(BuildError::MalformedStatement));
    let mut partial = vec![lit("E", "rank", "five")];
    assert!(matches!(Paper::try_from(&partial), Err(BuildError::MalformedStatement)));
    partial[0] = lit("E", "citationCount", "-3");
    assert!(matches!(Paper::try_from(&partial), Err(BuildError::MalformedStatement)));
}

#[test]
fn undecodable_line_is_malformed() {
    let mut lines = paper_lines("E", "J");
    lines.push("this is not a statement\n".to_string());
    assert!(matches!(Paper::try_from(&lines), Err(BuildError::MalformedStatement)));
    assert_eq!(validate_paper(&lines), Err(BuildError::MalformedStatement));
    assert_eq!(validate_paper(&paper_lines("E", "J")), Ok(()));
}

#[test]
fn first_value_of_a_field_wins() {
    let mut lines = paper_lines("E", "J");
    lines.insert(2, lit("E", "title", "Second"));
    lines.push(int_lit("E", "rank", "9"));
    lines.push(journal_line("E", "K"));
    let paper = Paper::try_from(&lines).unwrap();
    assert_eq!(paper.title, "T");
    assert_eq!(paper.rank, 5);
    assert_eq!(paper.journal, entity_uri("J"));
}

#[test]
fn journal_needs_reference_object() {
    let mut lines = paper_lines("E", "J");
    lines[4] = lit("E", "appearsInJournal", "J");
    match Paper::try_from(&lines) {
        Err(BuildError::MissingField(f)) => assert_eq!(f, Field::Journal),
        other => panic!("unexpected {:?}", other),
    }
}

#[test]
fn decode_and_build_from_statements() {
    let lines = paper_lines("E", "J");
    let joined = join_lines(&lines);
    assert_eq!(joined, lines.join("\n"));
    let stmts: Vec<Statement> = decode_group(&lines).unwrap();
    assert_eq!(stmts.len(), 5);
    match &stmts[0].subject {
        Term::Reference(u) => assert_eq!(*u, entity_uri("E")),
        other => panic!("unexpected {:?}", other),
    }
    match &stmts[1].object {
        Term::Literal(l) => assert_eq!(l, "T"),
        other => panic!("unexpected {:?}", other),
    }
    let paper = build_paper(&stmts).unwrap();
    assert_eq!(paper.citations, 10);
    assert!(decode_group(&vec!["garbage".to_string()]).is_none());
}

#[test]
fn join_hit_gives_one_row() {
    let paper = Paper::try_from(&paper_lines("E", "J")).unwrap();
    let mut table = SideTable::new();
    table.insert(journal(&entity_uri("J"), "Journal of Tests"));
    let row = join_row(&paper, &table).unwrap();
    assert_eq!(
        row,
        format!(
            "{}\t5\tT\t2020\t10\t1234-5678\t42\tJournal of Tests\tBiology\tGenetics\t1.250e-1",
            entity_uri("E")
        )
    );
    assert_eq!(format_row(&paper, table.get(&entity_uri("J")).unwrap()), row);
}

#[test]
fn join_miss_gives_no_row_and_no_error() {
    let lines = paper_lines("E", "Unknown");
    let paper = Paper::try_from(&lines).unwrap();
    let mut table = SideTable::new();
    table.insert(journal(&entity_uri("J"), "N"));
    assert!(join_row(&paper, &table).is_none());
    let mut stats = JoinStats::new();
    let out = stats.process_group(&lines, &table);
    assert!(out.row.is_none());
    assert_eq!(stats.built, 1);
    assert_eq!(stats.matched, 0);
}

#[test]
fn process_group_counts() {
    let mut table = SideTable::new();
    table.insert(journal(&entity_uri("J"), "N"));
    let mut stats = JoinStats::new();
    let hit = stats.process_group(&paper_lines("E", "J"), &table);
    assert!(hit.row.is_some());
    assert!(!hit.progress);
    let mut bad = paper_lines("F", "J");
    bad.remove(1);
    let miss = stats.process_group(&bad, &table);
    assert!(miss.row.is_none());
    assert_eq!(stats, JoinStats { built: 1, matched: 1 });
}

#[test]
fn progress_is_due_every_ten_thousand() {
    let table = SideTable::new();
    let mut stats = JoinStats { built: 9998, matched: 0 };
    assert!(!stats.process_group(&paper_lines("A", "J"), &table).progress);
    assert!(stats.process_group(&paper_lines("B", "J"), &table).progress);
    assert_eq!(stats.built, 10000);
}

#[test]
fn side_table_last_write_wins() {
    let mut table = SideTable::new();
    table.insert(journal("J1", "first"));
    table.insert(journal("J2", "other"));
    table.insert(journal("J1", "second"));
    assert_eq!(table.len(), 2);
    assert_eq!(table.get("J1").unwrap().name, "second");
    assert_eq!(table.get("J2").unwrap().name, "other");
    assert!(table.get("J3").is_none());
    assert!(table.get("J").is_none());
}

fn run(lines: &Vec<String>, table: &SideTable) -> String {
    let mut out = header();
    out.push('\n');
    let mut stats = JoinStats::new();
    for group in group_lines(lines) {
        if let Some(row) = stats.process_group(&group, table).row {
            out.push_str(&row);
            out.push('\n');
        }
    }
    out
}

#[test]
fn rerun_is_byte_identical() {
    let mut lines = paper_lines("A", "J");
    lines.extend(paper_lines("B", "K"));
    lines.extend(paper_lines("C", "J"));
    let mut table = SideTable::new();
    table.insert(journal(&entity_uri("J"), "N"));
    let first = run(&lines, &table);
    let second = run(&lines, &table);
    assert_eq!(first, second);
    assert_eq!(first.lines().count(), 3);
}

#[test]
fn header_names_columns() {
    assert_eq!(
        header(),
        "entity\trank\ttitle\tdate\tcitations\tjournal_issn\tjournal_rank\tjournal_name\tjournal_subject\tjournal_field\tsubject_field_distance"
    );
}

#[test]
fn join_all_is_repeatable() {
    let mut lines = paper_lines("A", "J");
    lines.extend(paper_lines("B", "K"));
    let mut broken = paper_lines("C", "J");
    broken.remove(0);
    lines.extend(broken);
    lines.extend(paper_lines("D", "J"));
    let mut table = SideTable::new();
    table.insert(journal(&entity_uri("J"), "N"));
    let first = join_all(&lines, &table);
    let second = join_all(&lines, &table);
    assert_eq!(first, second);
    assert_eq!(first.len(), 2);
    assert!(first[0].starts_with(&entity_uri("A")));
    assert!(first[1].starts_with(&entity_uri("D")));
    assert!(join_all(&vec![], &table).is_empty());
}

#[test]
fn validate_all_keeps_complete_groups() {
    let mut lines = paper_lines("A", "J");
    let mut broken = paper_lines("B", "J");
    broken.remove(2);
    lines.extend(broken);
    lines.extend(paper_lines("C", "K"));
    let kept = validate_all(&lines);
    let mut expected = paper_lines("A", "J");
    expected.extend(paper_lines("C", "K"));
    assert_eq!(kept, expected);
    assert_eq!(validate_all(&lines), kept);
}
