//! Front matter: the YAML block between `---` delimiters at the top of a
//! document, turned into the event that carries its fields.
use vstd::prelude::*;
use vstd::string::*;

use crate::paths::{chars_of, matches_at, starts_with, strip_all};
use crate::query::opt_view;
use crate::text::{is_space_char, trim, trim_end, trim_start};
use crate::units::Event;

verus! {

#[verifier::external_type_specification]
#[verifier::external_body]
pub struct ExYamlError(serde_yaml::Error);

pub open spec fn dashes() -> Seq<char> {
    seq!['-', '-', '-']
}

/// `s` with every leading repetition of `pre` removed.
pub open spec fn strip_all_prefix(s: Seq<char>, pre: Seq<char>) -> Seq<char>
    decreases s.len(),
{
    if pre.len() > 0 && starts_with(s, pre) {
        strip_all_prefix(s.subrange(pre.len() as int, s.len() as int), pre)
    } else {
        s
    }
}

/// The YAML text of a front-matter block: outer whitespace and the `---`
/// delimiters removed.
pub open spec fn header_of(text: Seq<char>) -> Seq<char> {
    strip_all(trim_end(strip_all_prefix(trim_start(text), dashes())), dashes())
}

/// The fields of a front matter that documents use.
pub struct FrontFields {
    pub draft: Option<bool>,
    pub title: Option<String>,
    pub summary: Option<String>,
}

/// What YAML decoding gives for a header: `None` when decoding fails (a
/// syntax error, several documents, a value that is not a mapping, ...),
/// else its `draft` value if boolean and its `title` and `summary` values if
/// strings.
pub uninterp spec fn yaml_front(header: Seq<char>) -> Option<
    (Option<bool>, Option<Seq<char>>, Option<Seq<char>>),
>;

/// Relies on `serde_yaml::from_str` into a `serde_json::Map`, then
/// `Map::get`, `Value::as_bool` and `Value::as_str`: the result depends on
/// the header's text alone.
#[verifier::external_body]
fn decode_yaml(header: &str) -> (r: Result<FrontFields, serde_yaml::Error>)
    ensures
        match r {
            Ok(f) => yaml_front(header@) == Some((f.draft, opt_view(f.title), opt_view(f.summary))),
            Err(_) => yaml_front(header@) is None,
        },
{
    let map: serde_json::Map<String, serde_json::Value> = serde_yaml::from_str(header)?;
    let text = |key: &str| map.get(key).and_then(|v| v.as_str()).map(|v| v.to_string());
    Ok(FrontFields {
        draft: map.get("draft").and_then(|v| v.as_bool()),
        title: text("title"),
        summary: text("summary"),
    })
}

/// Why a front matter was refused.
#[derive(Clone, Copy, Debug, PartialEq, Eq, Structural)]
pub enum FrontMatterError {
    /// The header does not decode as a YAML mapping.
    Malformed,
}

/// The YAML text of a front-matter block.
pub fn front_matter_header(text: &str) -> (r: String)
    ensures
        r@ == header_of(text@),
{
    let cs = chars_of(text);
    let n = cs.len();
    let d = vec!['-', '-', '-'];
    assert(d@ == dashes());
    let mut lo: usize = 0;
    assert(cs@.subrange(0, n as int) =~= cs@);
    while lo < n && is_space_char(cs[lo])
        invariant
            n == cs@.len(),
            cs@ == text@,
            lo <= n,
            trim_start(cs@.subrange(lo as int, n as int)) == trim_start(text@),
        decreases n - lo,
    {
        assert(cs@.subrange(lo as int, n as int).drop_first() =~= cs@.subrange(lo + 1, n as int));
        lo = lo + 1;
    }
    assert(trim_start(cs@.subrange(lo as int, n as int)) == cs@.subrange(lo as int, n as int));
    while n - lo >= 3 && matches_at(&cs, lo, &d)
        invariant
            n == cs@.len(),
            cs@ == text@,
            d@ == dashes(),
            lo <= n,
            strip_all_prefix(cs@.subrange(lo as int, n as int), dashes()) == strip_all_prefix(
                trim_start(text@),
                dashes(),
            ),
        decreases n - lo,
    {
        let ghost s = cs@.subrange(lo as int, n as int);
        assert(s.subrange(0, 3) =~= cs@.subrange(lo as int, lo + 3));
        assert(s.subrange(3, s.len() as int) =~= cs@.subrange(lo + 3, n as int));
        lo = lo + 3;
    }
    proof {
        let s = cs@.subrange(lo as int, n as int);
        if s.len() >= 3 {
            assert(s.subrange(0, 3) =~= cs@.subrange(lo as int, lo + 3));
        }
    }
    let ghost stripped = strip_all_prefix(trim_start(text@), dashes());
    let mut hi: usize = n;
    assert(cs@.subrange(lo as int, n as int) == stripped);
    while hi > lo && is_space_char(cs[hi - 1])
        invariant
            n == cs@.len(),
            lo <= hi <= n,
            trim_end(cs@.subrange(lo as int, hi as int)) == trim_end(stripped),
        decreases hi,
    {
        assert(cs@.subrange(lo as int, hi as int).drop_last() =~= cs@.subrange(lo as int, hi - 1));
        hi = hi - 1;
    }
    assert(trim_end(cs@.subrange(lo as int, hi as int)) == cs@.subrange(lo as int, hi as int));
    let ghost body = trim_end(stripped);
    while hi - lo >= 3 && matches_at(&cs, hi - 3, &d)
        invariant
            n == cs@.len(),
            d@ == dashes(),
            lo <= hi <= n,
            strip_all(cs@.subrange(lo as int, hi as int), dashes()) == strip_all(body, dashes()),
        decreases hi,
    {
        let ghost s = cs@.subrange(lo as int, hi as int);
        assert(s.subrange(s.len() - 3, s.len() as int) =~= cs@.subrange(hi - 3, hi as int));
        assert(s.subrange(0, s.len() - 3) =~= cs@.subrange(lo as int, hi - 3));
        hi = hi - 3;
    }
    proof {
        let s = cs@.subrange(lo as int, hi as int);
        if s.len() >= 3 {
            assert(s.subrange(s.len() - 3, s.len() as int) =~= cs@.subrange(hi - 3, hi as int));
        }
    }
    String::from_str(text.substring_char(lo, hi))
}

/// The event a front-matter block gives: a blank header has no fields and
/// needs no decoding; otherwise the decoded fields, or `Malformed` when the
/// header is not a YAML mapping.
pub fn front_matter_event(text: &str) -> (r: Result<Event, FrontMatterError>)
    ensures
        trim(header_of(text@)).len() == 0 ==> r == Ok::<Event, FrontMatterError>(
            Event::FrontMatter { draft: None, title: None, summary: None },
        ),
        trim(header_of(text@)).len() > 0 ==> match r {
            Ok(Event::FrontMatter { draft, title, summary }) => yaml_front(header_of(text@))
                == Some((draft, opt_view(title), opt_view(summary))),
            Ok(_) => false,
            Err(e) => e == FrontMatterError::Malformed && yaml_front(header_of(text@)) is None,
        },
{
    let header = front_matter_header(text);
    let blank = crate::text::trimmed(header.as_str());
    if blank.as_str().unicode_len() == 0 {
        return Ok(Event::FrontMatter { draft: None, title: None, summary: None });
    }
    match decode_yaml(header.as_str()) {
        Ok(f) => Ok(Event::FrontMatter { draft: f.draft, title: f.title, summary: f.summary }),
        Err(_) => Err(FrontMatterError::Malformed),
    }
}

} // verus!
