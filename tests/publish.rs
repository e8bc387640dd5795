use docse::index::{Index, PublishError, Row, Source};
use docse::kind::Kind;
use docse::units::{decompose, Document, Event};

fn s(x: &str) -> String {
    x.to_string()
}

fn doc(title: &str, draft: bool, body: &str) -> Document {
    decompose(&vec![
        Event::FrontMatter { draft: Some(draft), title: Some(s(title)), summary: None },
        Event::Heading(2),
        Event::Text(s("Section")),
        Event::Heading(3),
        Event::Text(s("Sub")),
        Event::Block,
        Event::Text(s(body)),
        Event::Heading(2),
        Event::Text(s("Other")),
    ])
}

fn sources(draft_b: bool) -> Vec<Source> {
    vec![
        Source { group: s("a"), document: doc("A", false, "alpha") },
        Source { group: s("b"), document: doc("B", draft_b, "beta") },
    ]
}

fn contents(rows: &[Row]) -> Vec<(String, u8, String, String, String)> {
    rows.iter()
        .map(|r| (r.group.clone(), r.kind.code(), r.content.clone(), r.locale.clone(), r.version.clone()))
        .collect()
}

#[test]
fn publish_issues_ids_and_parents() {
    let mut ix = Index::new(1);
    assert_eq!(ix.publish(&s("en"), &s("v1"), &sources(false)), Ok(()));
    let live = ix.live_rows();
    assert_eq!(live.len(), 10);
    let ids: Vec<u64> = live.iter().map(|r| r.id).collect();
    assert_eq!(ids, (1..=10).collect::<Vec<u64>>());
    let pids: Vec<u64> = live.iter().map(|r| r.pid).collect();
    // title, h2, h3 under h2, paragraph under h3, second h2 at the root
    assert_eq!(pids, vec![0, 0, 2, 3, 0, 0, 0, 7, 8, 0]);
    assert_eq!(live[3].kind, Kind::Paragraph);
    assert_eq!(live[3].content, "alpha");
    assert_eq!(ix.next_id(), 11);
}

#[test]
fn republishing_gives_same_content() {
    let mut ix = Index::new(1);
    ix.publish(&s("en"), &s("v1"), &sources(false)).unwrap();
    let first_rows = ix.live_partition(&s("en"), &s("v1"));
    let first = contents(&first_rows);
    ix.publish(&s("en"), &s("v1"), &sources(false)).unwrap();
    let second_rows = ix.live_partition(&s("en"), &s("v1"));
    assert_eq!(contents(&second_rows), first);
    for (a, b) in first_rows.iter().zip(second_rows.iter()) {
        assert_eq!(b.id, a.id + 10);
        assert_eq!(b.pid, if a.pid == 0 { 0 } else { a.pid + 10 });
    }
    assert_eq!(second_rows[0].id, 11);
    assert_eq!(ix.live_rows().len(), 10);
}

#[test]
fn draft_document_adds_no_rows() {
    let mut ix = Index::new(1);
    ix.publish(&s("en"), &s("v1"), &sources(true)).unwrap();
    let live = ix.live_rows();
    assert_eq!(live.len(), 5);
    assert!(live.iter().all(|r| r.group == "a"));
}

#[test]
fn publishing_one_partition_keeps_the_others() {
    let mut ix = Index::new(1);
    ix.publish(&s("en"), &s("v1"), &sources(false)).unwrap();
    ix.publish(&s("zh"), &s("v2"), &sources(false)).unwrap();
    let en_v1 = contents(&ix.live_partition(&s("en"), &s("v1")));
    let zh_v2 = contents(&ix.live_partition(&s("zh"), &s("v2")));
    let one = vec![Source { group: s("c"), document: doc("C", false, "gamma") }];
    ix.publish(&s("en"), &s("v2"), &one).unwrap();
    assert_eq!(contents(&ix.live_partition(&s("en"), &s("v1"))), en_v1);
    assert_eq!(contents(&ix.live_partition(&s("zh"), &s("v2"))), zh_v2);
    assert_eq!(ix.live_partition(&s("en"), &s("v2")).len(), 5);
    ix.publish(&s("en"), &s("v2"), &vec![]).unwrap();
    assert!(ix.live_partition(&s("en"), &s("v2")).is_empty());
    assert_eq!(contents(&ix.live_partition(&s("en"), &s("v1"))), en_v1);
}

#[test]
fn running_out_of_ids_leaves_live_rows() {
    let mut ix = Index::new(u64::MAX - 6);
    assert_eq!(ix.publish(&s("en"), &s("v1"), &sources(false)), Err(PublishError::IdsExhausted));
    assert!(ix.live_rows().is_empty());
    let mut ok = Index::new(u64::MAX - 5);
    assert_eq!(ok.publish(&s("en"), &s("v1"), &sources(true)), Ok(()));
    assert_eq!(ok.next_id(), u64::MAX);
}

#[test]
fn staging_is_invisible_until_promoted() {
    let mut ix = Index::new(1);
    ix.publish(&s("en"), &s("v1"), &sources(false)).unwrap();
    ix.begin(&s("en"), &s("v1"));
    let one = Source { group: s("c"), document: doc("C", false, "gamma") };
    ix.stage(&s("en"), &s("v1"), &one).unwrap();
    assert_eq!(ix.live_rows().len(), 10);
    assert!(ix.live_rows().iter().all(|r| r.group != "c"));
    ix.promote(&s("en"), &s("v1"));
    assert_eq!(ix.live_rows().len(), 5);
    assert!(ix.live_rows().iter().all(|r| r.group == "c"));
}

fn heading_doc(level: u8, text: &str) -> Document {
    decompose(&vec![Event::Heading(level), Event::Text(s(text))])
}

#[test]
fn parents_span_files_of_one_group() {
    let mut ix = Index::new(1);
    let sources = vec![
        Source { group: s("a"), document: heading_doc(1, "Top") },
        Source { group: s("b"), document: heading_doc(1, "Elsewhere") },
        Source { group: s("a"), document: heading_doc(2, "Below") },
        Source { group: s("b"), document: heading_doc(1, "Peer") },
    ];
    ix.publish(&s("en"), &s("v1"), &sources).unwrap();
    let pids: Vec<(u64, u64)> = ix.live_rows().iter().map(|r| (r.id, r.pid)).collect();
    assert_eq!(pids, vec![(1, 0), (2, 0), (3, 1), (4, 0)]);
}

#[test]
fn parents_never_come_from_another_partition() {
    let mut ix = Index::new(1);
    ix.publish(&s("zh"), &s("v1"), &vec![Source { group: s("a"), document: heading_doc(1, "Top") }])
        .unwrap();
    ix.publish(&s("en"), &s("v1"), &vec![Source { group: s("a"), document: heading_doc(2, "Below") }])
        .unwrap();
    let en = ix.live_partition(&s("en"), &s("v1"));
    assert_eq!(en.len(), 1);
    assert_eq!(en[0].pid, 0);
}
