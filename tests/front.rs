use docse::front::{front_matter_event, front_matter_header, FrontMatterError};
use docse::units::Event;

fn fields(text: &str) -> Result<(Option<bool>, Option<String>, Option<String>), FrontMatterError> {
    match front_matter_event(text)? {
        Event::FrontMatter { draft, title, summary } => Ok((draft, title, summary)),
        _ => panic!("not a front matter event"),
    }
}

#[test]
fn header_drops_delimiters_and_outer_whitespace() {
    assert_eq!(front_matter_header("---\ntitle: Intro\n---\n"), "\ntitle: Intro\n");
    assert_eq!(front_matter_header("  ------x---  "), "x");
    assert_eq!(front_matter_header("---\n---"), "\n");
}

#[test]
fn fields_are_decoded() {
    assert_eq!(
        fields("---\ntitle: Intro\nsummary: About\ndraft: true\n---\n"),
        Ok((Some(true), Some("Intro".to_string()), Some("About".to_string())))
    );
    assert_eq!(fields("---\ntitle: 监控\n---"), Ok((None, Some("监控".to_string()), None)));
}

#[test]
fn non_string_or_non_bool_values_are_ignored() {
    assert_eq!(fields("---\ntitle: 12\ndraft: maybe\n---\n"), Ok((None, None, None)));
}

#[test]
fn blank_front_matter_has_no_fields() {
    assert_eq!(fields("---\n   \n---\n"), Ok((None, None, None)));
}

#[test]
fn malformed_front_matter_is_refused() {
    assert_eq!(fields("---\n- a\n- b\n---\n"), Err(FrontMatterError::Malformed));
    assert_eq!(fields("---\ntitle: [unclosed\n---\n"), Err(FrontMatterError::Malformed));
}
