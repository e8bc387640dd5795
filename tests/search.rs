use docse::index::{Index, Row, Source};
use docse::kind::Kind;
use docse::paths::group_id;
use docse::query::{search, Match, Query, Request};
use docse::units::{decompose, Event};

fn s(x: &str) -> String {
    x.to_string()
}

fn request(search: Option<&str>, p: Option<u64>, l: Option<u64>) -> Request {
    Request { search: search.map(s), locale: Some(s("zh")), version: Some(s("v2")), p, l }
}

fn query(term: Option<&str>, p: Option<u64>, l: Option<u64>) -> Query {
    Query::from_request(request(term, p, l), "cn", "v1.0")
}

/// Stands in for the storage engine: every row of the partition whose
/// content holds the term, in row order, the whole content as snippet.
fn engine(rows: &[Row], term: &str, locale: &str, version: &str) -> Vec<Match> {
    rows.iter()
        .filter(|r| r.locale == locale && r.version == version && r.content.contains(term))
        .map(|r| Match { id: r.id, snippet: r.content.clone() })
        .collect()
}

fn corpus() -> Index {
    let a = decompose(&vec![
        Event::FrontMatter { draft: None, title: Some(s("Intro")), summary: None },
        Event::Block,
        Event::Text(s("系统监控的说明")),
    ]);
    let b = decompose(&vec![
        Event::FrontMatter { draft: None, title: Some(s("Other")), summary: None },
        Event::Heading(2),
        Event::Text(s("Nothing")),
        Event::Block,
        Event::Text(s("unrelated")),
    ]);
    let sources = vec![
        Source { group: group_id("guide/monitor.md").unwrap(), document: a },
        Source { group: group_id("guide/other.md").unwrap(), document: b },
    ];
    let mut ix = Index::new(1);
    ix.publish(&s("zh"), &s("v2"), &sources).unwrap();
    ix
}

fn three_matches() -> Index {
    let d = decompose(&vec![
        Event::FrontMatter { draft: None, title: Some(s("Guide")), summary: None },
        Event::Heading(2),
        Event::Text(s("key one")),
        Event::Heading(2),
        Event::Text(s("key two")),
        Event::Heading(2),
        Event::Text(s("key three")),
    ]);
    let mut ix = Index::new(1);
    ix.publish(&s("zh"), &s("v2"), &vec![Source { group: s("g"), document: d }]).unwrap();
    ix
}

#[test]
fn defaults_and_clamping() {
    let q = Query::from_request(
        Request { search: Some(s("")), locale: None, version: None, p: Some(0), l: Some(0) },
        "cn",
        "v1.0",
    );
    assert_eq!(q.term, None);
    assert_eq!(q.locale, "cn");
    assert_eq!(q.version, "v1.0");
    assert_eq!(q.page, 1);
    assert_eq!(q.page_size, Some(1));
    assert_eq!(q.offset(), 0);
    let q = query(Some("x"), None, None);
    assert_eq!(q.term, Some(s("x")));
    assert_eq!(q.page, 1);
    assert_eq!(q.page_size, None);
    assert_eq!(q.offset(), 0);
}

#[test]
fn offset_is_pages_before_times_size() {
    assert_eq!(query(Some("x"), Some(3), Some(10)).offset(), 20);
    assert_eq!(query(Some("x"), Some(u64::MAX), Some(u64::MAX)).offset(), u64::MAX);
}

#[test]
fn blank_term_returns_nothing() {
    let ix = corpus();
    let rows = ix.live_rows();
    let all: Vec<Match> = rows.iter().map(|r| Match { id: r.id, snippet: r.content.clone() }).collect();
    assert!(search(&query(None, None, None), rows, &all).is_empty());
    assert!(search(&query(Some(""), Some(2), Some(5)), rows, &all).is_empty());
    let other = Query::from_request(
        Request { search: None, locale: None, version: None, p: None, l: None },
        "en",
        "v9",
    );
    assert!(search(&other, rows, &all).is_empty());
}

#[test]
fn match_gets_title_and_group() {
    let ix = corpus();
    let rows = ix.live_rows();
    let ms = engine(rows, "监控", "zh", "v2");
    let hits = search(&query(Some("监控"), None, None), rows, &ms);
    assert_eq!(hits.len(), 1);
    assert_eq!(hits[0].title, "Intro");
    assert_eq!(hits[0].group, "guide/monitor");
    assert_eq!(hits[0].kind, Kind::Paragraph);
    assert_eq!(hits[0].snippet, "系统监控的说明");
    assert_eq!(hits[0].parent_kind, None);
    assert_eq!(hits[0].parent_content, "");
}

#[test]
fn paragraph_hit_gets_enclosing_heading() {
    let ix = corpus();
    let rows = ix.live_rows();
    let ms = engine(rows, "unrelated", "zh", "v2");
    let hits = search(&query(Some("unrelated"), None, None), rows, &ms);
    assert_eq!(hits.len(), 1);
    assert_eq!(hits[0].parent_kind, Some(Kind::Heading(2)));
    assert_eq!(hits[0].parent_content, "Nothing");
    assert_eq!(hits[0].title, "Other");
    let heading = search(&query(Some("Nothing"), None, None), rows, &engine(rows, "Nothing", "zh", "v2"));
    assert_eq!(heading.len(), 1);
    assert_eq!(heading[0].kind, Kind::Heading(2));
    assert_eq!(heading[0].parent_kind, None);
}

#[test]
fn second_page_of_one_gives_second_hit() {
    let ix = three_matches();
    let rows = ix.live_rows();
    let ms = engine(rows, "key", "zh", "v2");
    assert_eq!(ms.len(), 3);
    let hits = search(&query(Some("key"), Some(2), Some(1)), rows, &ms);
    assert_eq!(hits.len(), 1);
    assert_eq!(hits[0].snippet, "key two");
    let first = search(&query(Some("key"), Some(0), Some(0)), rows, &ms);
    assert_eq!(first.len(), 1);
    assert_eq!(first[0].snippet, "key one");
    let past = search(&query(Some("key"), Some(4), Some(1)), rows, &ms);
    assert!(past.is_empty());
    let all = search(&query(Some("key"), Some(7), None), rows, &ms);
    assert_eq!(all.len(), 3);
}

#[test]
fn duplicates_and_foreign_rows_are_dropped() {
    let ix = three_matches();
    let rows = ix.live_rows();
    let mut ms = engine(rows, "key", "zh", "v2");
    ms.insert(1, Match { id: ms[0].id, snippet: s("again") });
    ms.push(Match { id: 999, snippet: s("unknown") });
    let hits = search(&query(Some("key"), None, None), rows, &ms);
    let snippets: Vec<&str> = hits.iter().map(|h| h.snippet.as_str()).collect();
    assert_eq!(snippets, vec!["key one", "key two", "key three"]);
    let elsewhere = Query::from_request(
        Request { search: Some(s("key")), locale: Some(s("en")), version: Some(s("v2")), p: None, l: None },
        "cn",
        "v1.0",
    );
    assert!(search(&elsewhere, rows, &ms).is_empty());
}

#[test]
fn hits_are_ordered_by_group_then_kind() {
    let a = decompose(&vec![
        Event::FrontMatter { draft: None, title: Some(s("key a")), summary: None },
        Event::Heading(2),
        Event::Text(s("key heading")),
        Event::Block,
        Event::Text(s("key para one")),
        Event::Heading(2),
        Event::Text(s("key second heading")),
        Event::Block,
        Event::Text(s("key para two")),
    ]);
    let b = decompose(&vec![Event::Block, Event::Text(s("key b"))]);
    let mut ix = Index::new(1);
    let sources = vec![
        Source { group: s("b"), document: b },
        Source { group: s("a"), document: a },
    ];
    ix.publish(&s("zh"), &s("v2"), &sources).unwrap();
    let rows = ix.live_rows();
    // the engine's relevance order, best first
    let mut ms = engine(rows, "key", "zh", "v2");
    ms.reverse();
    let hits = search(&query(Some("key"), None, None), rows, &ms);
    let got: Vec<(String, u8, String)> =
        hits.iter().map(|h| (h.group.clone(), h.kind.code(), h.snippet.clone())).collect();
    assert_eq!(
        got,
        vec![
            (s("a"), 2, s("key second heading")),
            (s("a"), 2, s("key heading")),
            (s("a"), 7, s("key para two")),
            (s("a"), 7, s("key para one")),
            (s("a"), 8, s("key a")),
            (s("b"), 7, s("key b")),
        ]
    );
}
