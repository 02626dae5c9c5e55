use markdown_records::document::parse;
use markdown_records::record::{MarkdownRecord, MarkdownRecordKind};

const EXAMPLE_FIXTURE: &str = "# An Example Markdown File

With some content here, including some `inline` code.

## A Heading at Level 2

Some more content that breaks across lines
but is still a single paragraph. Some more content that breaks across lines
but is still a single paragraph.

```ts
/**
 * With a code example inline
 */

import * as lib from \"https://example.com/lib.ts\";

console.log(lib);
```

As well as another example here, which just uses indentation:

    console.log(\"hello world\");

## Another Level 2 heading

With some content.

### A Level 3 heading with some `backticks`

#### A level 4 heading

With some content.

### Back Out to Level 3

And even more content, and another:

```json
{
  \"code\": \"example\"
}
```

## And finally level 2

Which is where we will end this.
";

fn record(
    kind: MarkdownRecordKind,
    position: u64,
    hierarchy: &[&str],
    anchor: &str,
    content: &str,
) -> MarkdownRecord {
    MarkdownRecord {
        kind,
        position,
        hierarchy: hierarchy.iter().map(|s| s.to_string()).collect(),
        anchor: Some(anchor.to_string()),
        content: content.to_string(),
    }
}

fn heading(position: u64, hierarchy: &[&str], anchor: &str, content: &str) -> MarkdownRecord {
    record(MarkdownRecordKind::Heading, position, hierarchy, anchor, content)
}

fn paragraph(position: u64, hierarchy: &[&str], anchor: &str, content: &str) -> MarkdownRecord {
    record(MarkdownRecordKind::Paragraph, position, hierarchy, anchor, content)
}

fn code(
    info: &str,
    position: u64,
    hierarchy: &[&str],
    anchor: &str,
    content: &str,
) -> MarkdownRecord {
    record(MarkdownRecordKind::Code(info.to_string()), position, hierarchy, anchor, content)
}

#[test]
fn test_to_search_records() {
    let actual = parse(EXAMPLE_FIXTURE).unwrap();
    let file = "An Example Markdown File";
    assert_eq!(
        actual,
        vec![
            heading(1, &[], "an-example-markdown-file", "An Example Markdown File"),
            paragraph(
                2,
                &[file],
                "an-example-markdown-file",
                "With some content here, including some  inline  code."
            ),
            heading(3, &[file], "a-heading-at-level-2", "A Heading at Level 2"),
            paragraph(
                4,
                &[file, "A Heading at Level 2"],
                "a-heading-at-level-2",
                "Some more content that breaks across lines but is still a single paragraph. Some more content that breaks across lines but is still a single paragraph."
            ),
            code(
                "ts",
                5,
                &[file, "A Heading at Level 2"],
                "a-heading-at-level-2",
                "/**\n * With a code example inline\n */\n\nimport * as lib from \"https://example.com/lib.ts\";\n\nconsole.log(lib);\n"
            ),
            paragraph(
                6,
                &[file, "A Heading at Level 2"],
                "a-heading-at-level-2",
                "As well as another example here, which just uses indentation:"
            ),
            code(
                "",
                7,
                &[file, "A Heading at Level 2"],
                "a-heading-at-level-2",
                "console.log(\"hello world\");\n"
            ),
            heading(8, &[file], "another-level-2-heading", "Another Level 2 heading"),
            paragraph(
                9,
                &[file, "Another Level 2 heading"],
                "another-level-2-heading",
                "With some content."
            ),
            heading(
                10,
                &[file, "Another Level 2 heading"],
                "a-level-3-heading-with-some--backticks",
                "A Level 3 heading with some  backticks"
            ),
            heading(
                11,
                &[
                    file,
                    "Another Level 2 heading",
                    "A Level 3 heading with some  backticks"
                ],
                "a-level-4-heading",
                "A level 4 heading"
            ),
            paragraph(
                12,
                &[
                    file,
                    "Another Level 2 heading",
                    "A Level 3 heading with some  backticks",
                    "A level 4 heading"
                ],
                "a-level-4-heading",
                "With some content."
            ),
            heading(
                13,
                &[file, "Another Level 2 heading"],
                "back-out-to-level-3",
                "Back Out to Level 3"
            ),
            paragraph(
                14,
                &[file, "Another Level 2 heading", "Back Out to Level 3"],
                "back-out-to-level-3",
                "And even more content, and another:"
            ),
            code(
                "json",
                15,
                &[file, "Another Level 2 heading", "Back Out to Level 3"],
                "back-out-to-level-3",
                "{\n  \"code\": \"example\"\n}\n"
            ),
            heading(16, &[file], "and-finally-level-2", "And finally level 2"),
            paragraph(
                17,
                &[file, "And finally level 2"],
                "and-finally-level-2",
                "Which is where we will end this."
            ),
        ]
    );
}
