//! The structural kinds of content units.
use vstd::prelude::*;

verus! {

/// Deepest heading level.
pub const MAX_HEADING: u8 = 6;

/// Structural level of a paragraph: deeper than any heading.
pub const PARAGRAPH_LEVEL: u8 = 7;

/// What a content unit is, structurally.
#[derive(Clone, Copy, Debug, PartialEq, Eq, Structural)]
pub enum Kind {
    /// The document title from its front matter.
    Title,
    /// The document summary from its front matter.
    Summary,
    /// A heading of the given level, `1..=6`.
    Heading(u8),
    /// Body text between two headings.
    Paragraph,
}

impl Kind {
    /// A heading kind whose level is in range.
    pub open spec fn wf(self) -> bool {
        match self {
            Kind::Heading(l) => 1 <= l <= MAX_HEADING,
            _ => true,
        }
    }

    /// Whether the unit takes part in heading nesting: title and summary
    /// always hang from the document root and are never anyone's parent.
    pub open spec fn nests(self) -> bool {
        self is Heading || self is Paragraph
    }

    /// Structural depth used to resolve parents.
    pub open spec fn level(self) -> nat {
        match self {
            Kind::Heading(l) => l as nat,
            Kind::Paragraph => PARAGRAPH_LEVEL as nat,
            _ => 0,
        }
    }

    /// The number under which a unit of this kind is stored: heading levels
    /// as themselves, then paragraph, title and summary.
    pub open spec fn spec_code(self) -> u8 {
        match self {
            Kind::Heading(l) => l,
            Kind::Paragraph => PARAGRAPH_LEVEL,
            Kind::Title => 8,
            Kind::Summary => 9,
        }
    }

    pub fn level_of(self) -> (r: u8)
        ensures
            r as nat == self.level(),
    {
        match self {
            Kind::Heading(l) => l,
            Kind::Paragraph => PARAGRAPH_LEVEL,
            _ => 0,
        }
    }

    pub fn nests_in_hierarchy(self) -> (r: bool)
        ensures
            r == self.nests(),
    {
        match self {
            Kind::Heading(_) | Kind::Paragraph => true,
            _ => false,
        }
    }

    #[verifier::when_used_as_spec(spec_code)]
    pub fn code(self) -> (r: u8)
        ensures
            r == self.spec_code(),
    {
        match self {
            Kind::Heading(l) => l,
            Kind::Paragraph => PARAGRAPH_LEVEL,
            Kind::Title => 8,
            Kind::Summary => 9,
        }
    }

    /// The kind stored under `code`, if any.
    pub fn from_code(code: u8) -> (r: Option<Kind>)
        ensures
            r matches Some(k) ==> k.wf() && k.spec_code() == code,
            r is None <==> (code == 0 || code > 9),
    {
        if code == 0 {
            None
        } else if code <= MAX_HEADING {
            Some(Kind::Heading(code))
        } else if code == PARAGRAPH_LEVEL {
            Some(Kind::Paragraph)
        } else if code == 8 {
            Some(Kind::Title)
        } else if code == 9 {
            Some(Kind::Summary)
        } else {
            None
        }
    }
}

} // verus!
