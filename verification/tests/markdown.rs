use markdown_records::document::parse;
use markdown_records::record::{MarkdownRecord, MarkdownRecordKind};

fn strings(parts: &[&str]) -> Vec<String> {
    parts.iter().map(|s| s.to_string()).collect()
}

#[test]
fn title_paragraph_and_fenced_code() {
    let records = parse("# Title\n\nHello **world**\n\n```ts\nconsole.log(1)\n```\n").unwrap();
    assert_eq!(
        records,
        vec![
            MarkdownRecord {
                kind: MarkdownRecordKind::Heading,
                position: 1,
                hierarchy: vec![],
                anchor: Some("title".to_string()),
                content: "Title".to_string(),
            },
            MarkdownRecord {
                kind: MarkdownRecordKind::Paragraph,
                position: 2,
                hierarchy: strings(&["Title"]),
                anchor: Some("title".to_string()),
                content: "Hello  world".to_string(),
            },
            MarkdownRecord {
                kind: MarkdownRecordKind::Code("ts".to_string()),
                position: 3,
                hierarchy: strings(&["Title"]),
                anchor: Some("title".to_string()),
                content: "console.log(1)\n".to_string(),
            },
        ]
    );
}

#[test]
fn two_headings_named_intro() {
    let records = parse("# Intro\n\nfirst\n\n## Intro\n\nsecond\n").unwrap();
    assert_eq!(records.len(), 4);
    assert_eq!(records[0].anchor, Some("intro".to_string()));
    assert_eq!(records[0].hierarchy, strings(&[]));
    assert_eq!(records[1].anchor, Some("intro".to_string()));
    assert_eq!(records[2].anchor, Some("intro-1".to_string()));
    assert_eq!(records[2].hierarchy, strings(&["Intro"]));
    assert_eq!(records[3].anchor, Some("intro-1".to_string()));
    assert_eq!(records[3].hierarchy, strings(&["Intro", "Intro"]));
}

#[test]
fn empty_text_gives_no_record() {
    assert_eq!(parse(""), Ok(vec![]));
    assert_eq!(parse("\n\n   \n"), Ok(vec![]));
}

#[test]
fn lists_quotes_and_rules_give_no_record() {
    let records = parse("- item one\n- item two\n\n> quoted\n\n---\n\nplain\n").unwrap();
    assert_eq!(records.len(), 1);
    assert_eq!(records[0].kind, MarkdownRecordKind::Paragraph);
    assert_eq!(records[0].position, 1);
    assert_eq!(records[0].content, "plain");
    assert_eq!(records[0].anchor, None);
}

#[test]
fn headings_inside_a_quote_do_not_open() {
    let records = parse("# Top\n\n> # Quoted\n\ntext\n").unwrap();
    assert_eq!(records.len(), 2);
    assert_eq!(records[1].hierarchy, strings(&["Top"]));
    assert_eq!(records[1].anchor, Some("top".to_string()));
}

#[test]
fn emphasis_in_a_heading_is_not_read() {
    let records = parse("# Hello *world*\n").unwrap();
    assert_eq!(records[0].content, "Hello ");
    assert_eq!(records[0].anchor, Some("hello-".to_string()));
}

#[test]
fn links_and_nested_emphasis_in_a_paragraph_are_read() {
    let records = parse("See [the **bold** docs](http://example.com) now\n").unwrap();
    assert_eq!(records[0].content, "See  the  bold  docs  now");
}

#[test]
fn soft_breaks_join_the_lines() {
    let records = parse("one\ntwo\nthree\n").unwrap();
    assert_eq!(records.len(), 1);
    assert_eq!(records[0].content, "one two three");
}

#[test]
fn indented_code_has_no_info() {
    let records = parse("text\n\n    let x = 1;\n    let y = 2;\n").unwrap();
    assert_eq!(records[1].kind, MarkdownRecordKind::Code(String::new()));
    assert_eq!(records[1].content, "let x = 1;\nlet y = 2;\n");
    assert_eq!(records[1].position, 2);
}

#[test]
fn setext_headings_have_levels_one_and_two() {
    let records = parse("Top\n===\n\nSub\n---\n\ntext\n").unwrap();
    assert_eq!(records[0].kind, MarkdownRecordKind::Heading);
    assert_eq!(records[1].kind, MarkdownRecordKind::Heading);
    assert_eq!(records[1].hierarchy, strings(&["Top"]));
    assert_eq!(records[2].hierarchy, strings(&["Top", "Sub"]));
    assert_eq!(records[2].anchor, Some("sub".to_string()));
}

#[test]
fn level_skip_from_one_to_three() {
    let records = parse("# A\n\n### B\n\ntext\n").unwrap();
    assert_eq!(records[2].hierarchy, strings(&["A", "B"]));
}

#[test]
fn text_beyond_ascii_comes_through() {
    let records = parse("# Über uns\n\nGrüße, 世界\n").unwrap();
    assert_eq!(records[0].content, "Über uns");
    assert_eq!(records[0].anchor, Some("über-uns".to_string()));
    assert_eq!(records[1].content, "Grüße, 世界");
}

#[test]
fn parsing_twice_gives_the_same_records() {
    let text = "# A\n\np `c` *e*\n\n# A\n\n```x\ny\n```\n\n- l\n";
    assert_eq!(parse(text), parse(text));
}
