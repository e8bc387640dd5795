use docse::hierarchy::resolve_parents;
use docse::kind::Kind;
use docse::text::trimmed;
use docse::units::{decompose, Document, Event, Unit};

fn text(s: &str) -> Event {
    Event::Text(s.to_string())
}

fn pairs(d: &Document) -> Vec<(Kind, String)> {
    d.units.iter().map(|u| (u.kind, u.content.clone())).collect()
}

fn unit(kind: Kind, content: &str) -> Unit {
    Unit { kind, content: content.to_string() }
}

#[test]
fn headings_and_paragraphs_become_units() {
    let events = vec![
        Event::Heading(2),
        text("Intro"),
        Event::Block,
        text("hello "),
        text("world"),
    ];
    let d = decompose(&events);
    assert!(!d.draft);
    assert_eq!(
        pairs(&d),
        vec![
            (Kind::Heading(2), "Intro".to_string()),
            (Kind::Paragraph, "hello world".to_string()),
        ]
    );
}

#[test]
fn front_matter_gives_title_and_summary() {
    let events = vec![
        Event::FrontMatter {
            draft: None,
            title: Some("Intro".to_string()),
            summary: Some("About this".to_string()),
        },
        Event::Block,
        text("body"),
    ];
    let d = decompose(&events);
    assert_eq!(
        pairs(&d),
        vec![
            (Kind::Title, "Intro".to_string()),
            (Kind::Summary, "About this".to_string()),
            (Kind::Paragraph, "body".to_string()),
        ]
    );
}

#[test]
fn empty_front_matter_values_give_no_units() {
    let events = vec![Event::FrontMatter {
        draft: Some(false),
        title: Some(String::new()),
        summary: None,
    }];
    let d = decompose(&events);
    assert!(d.units.is_empty());
}

#[test]
fn draft_flag_marks_document() {
    let events = vec![
        Event::FrontMatter { draft: Some(true), title: Some("T".to_string()), summary: None },
        Event::Heading(1),
        text("Head"),
    ];
    let d = decompose(&events);
    assert!(d.draft);
    assert_eq!(d.units.len(), 2);
}

#[test]
fn whitespace_only_units_are_dropped_and_text_trimmed() {
    let events = vec![
        Event::Heading(1),
        text("   "),
        Event::Heading(2),
        text("  Setup \n"),
        Event::Block,
        text("\t"),
    ];
    let d = decompose(&events);
    assert_eq!(pairs(&d), vec![(Kind::Heading(2), "Setup".to_string())]);
}

#[test]
fn no_headings_gives_one_paragraph() {
    let events = vec![Event::Block, text("only text")];
    let d = decompose(&events);
    assert_eq!(pairs(&d), vec![(Kind::Paragraph, "only text".to_string())]);
}

#[test]
fn consecutive_blocks_merge_with_newlines() {
    let events = vec![
        Event::Heading(2),
        text("H"),
        Event::Block,
        text("one"),
        Event::Block,
        text("two"),
    ];
    let d = decompose(&events);
    assert_eq!(
        pairs(&d),
        vec![
            (Kind::Heading(2), "H".to_string()),
            (Kind::Paragraph, "one\ntwo".to_string()),
        ]
    );
}

#[test]
fn table_cells_are_separated_by_newlines() {
    let events = vec![
        Event::Block,
        Event::CellBreak,
        text("a"),
        Event::CellBreak,
        text("b"),
    ];
    let d = decompose(&events);
    assert_eq!(pairs(&d), vec![(Kind::Paragraph, "a\nb".to_string())]);
}

#[test]
fn html_is_kept_only_inside_paragraphs() {
    let events = vec![
        Event::HtmlBlock,
        Event::Heading(3),
        Event::InlineHtml("<br>".to_string()),
        text("Title"),
        Event::Block,
        text("x "),
        Event::InlineHtml("<b>".to_string()),
        text("y"),
    ];
    let d = decompose(&events);
    assert_eq!(
        pairs(&d),
        vec![
            (Kind::Heading(3), "Title".to_string()),
            (Kind::Paragraph, "x <b>y".to_string()),
        ]
    );
}

#[test]
fn trimming_removes_unicode_whitespace() {
    assert_eq!(trimmed("\u{3000} 监控 \n"), "监控");
    assert_eq!(trimmed("   "), "");
    assert_eq!(trimmed("a b"), "a b");
}

#[test]
fn parents_of_levels_two_three_two() {
    let units = vec![
        unit(Kind::Heading(2), "first"),
        unit(Kind::Heading(3), "inner"),
        unit(Kind::Heading(2), "second"),
    ];
    assert_eq!(resolve_parents(&units), vec![None, Some(0), None]);
}

#[test]
fn paragraphs_attach_to_nearest_heading_and_title_to_root() {
    let units = vec![
        unit(Kind::Title, "T"),
        unit(Kind::Paragraph, "lead"),
        unit(Kind::Heading(1), "a"),
        unit(Kind::Heading(3), "b"),
        unit(Kind::Paragraph, "p"),
        unit(Kind::Heading(2), "c"),
        unit(Kind::Paragraph, "q"),
        unit(Kind::Summary, "S"),
    ];
    assert_eq!(
        resolve_parents(&units),
        vec![None, None, None, Some(2), Some(3), Some(2), Some(5), None]
    );
}

#[test]
fn kind_codes_round_trip() {
    for code in 0u8..12 {
        match Kind::from_code(code) {
            Some(k) => assert_eq!(k.code(), code),
            None => assert!(code == 0 || code > 9),
        }
    }
    assert_eq!(Kind::Paragraph.code(), 7);
    assert_eq!(Kind::Heading(4).code(), 4);
}

#[test]
fn front_matter_values_are_trimmed() {
    let events = vec![Event::FrontMatter {
        draft: None,
        title: Some(" Intro\n".to_string()),
        summary: Some(" \t ".to_string()),
    }];
    let d = decompose(&events);
    assert_eq!(pairs(&d), vec![(Kind::Title, "Intro".to_string())]);
}
