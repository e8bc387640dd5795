//! The unit accumulator: a fold of a document's structural events into an
//! ordered sequence of content units.
use vstd::prelude::*;
use vstd::string::*;

use crate::kind::{Kind, MAX_HEADING};
use crate::text::{lemma_trim_idempotent, trim, trimmed};

verus! {

/// One step of a depth-first, pre-order walk of a parsed markdown document.
pub enum Event {
    /// The document's front matter, already decoded.
    FrontMatter { draft: Option<bool>, title: Option<String>, summary: Option<String> },
    /// A raw HTML block: never indexed.
    HtmlBlock,
    /// A heading of level `1..=6`.
    Heading(u8),
    /// Text, inline code or a link title.
    Text(String),
    /// The boundary of a table cell.
    CellBreak,
    /// Inline raw HTML.
    InlineHtml(String),
    /// Any other node: a paragraph, a list, a code block, ...
    Block,
}

pub open spec fn wf_event(e: Event) -> bool {
    match e {
        Event::Heading(l) => 1 <= l <= MAX_HEADING,
        _ => true,
    }
}

/// What the unit being accumulated is.
#[derive(Clone, Copy, Debug, PartialEq, Eq, Structural)]
pub enum Mode {
    /// Nothing has opened a unit yet.
    Root,
    Heading(u8),
    Paragraph,
}

/// The kind a unit gets when it is flushed in `mode`: text outside any
/// heading or block still counts as body text.
pub open spec fn mode_kind(mode: Mode) -> Kind {
    match mode {
        Mode::Heading(l) => Kind::Heading(l),
        _ => Kind::Paragraph,
    }
}

pub open spec fn wf_mode(mode: Mode) -> bool {
    match mode {
        Mode::Heading(l) => 1 <= l <= MAX_HEADING,
        _ => true,
    }
}

/// A content unit, mathematically.
pub struct UnitModel {
    pub kind: Kind,
    pub content: Seq<char>,
}

/// A content unit: its kind and its text.
pub struct Unit {
    pub kind: Kind,
    pub content: String,
}

impl View for Unit {
    type V = UnitModel;

    open spec fn view(&self) -> UnitModel {
        UnitModel { kind: self.kind, content: self.content@ }
    }
}

pub open spec fn units_view(s: Seq<Unit>) -> Seq<UnitModel> {
    s.map_values(|u: Unit| u@)
}

/// The state of the fold.
pub struct AccState {
    pub draft: bool,
    pub mode: Mode,
    pub buf: Seq<char>,
    pub out: Seq<UnitModel>,
}

pub open spec fn initial_state() -> AccState {
    AccState { draft: false, mode: Mode::Root, buf: Seq::empty(), out: Seq::empty() }
}

/// Finalizes the open unit: it is emitted, trimmed, unless only whitespace
/// is left of it; the buffer is emptied either way.
pub open spec fn flush(s: AccState) -> AccState {
    let t = trim(s.buf);
    AccState {
        out: if t.len() > 0 {
            s.out.push(UnitModel { kind: mode_kind(s.mode), content: t })
        } else {
            s.out
        },
        buf: Seq::empty(),
        ..s
    }
}

/// The unit a front-matter value gives, trimmed: none when absent or when
/// only whitespace.
pub open spec fn front_unit(kind: Kind, v: Option<String>) -> Seq<UnitModel> {
    match v {
        Some(t) => if trim(t@).len() > 0 {
            seq![UnitModel { kind, content: trim(t@) }]
        } else {
            Seq::empty()
        },
        None => Seq::empty(),
    }
}

/// One transition of the fold.
pub open spec fn step(s: AccState, e: Event) -> AccState {
    match e {
        Event::FrontMatter { draft, title, summary } => AccState {
            draft: match draft {
                Some(d) => d,
                None => s.draft,
            },
            out: s.out + front_unit(Kind::Title, title) + front_unit(Kind::Summary, summary),
            ..s
        },
        Event::HtmlBlock => s,
        Event::Heading(l) => AccState { mode: Mode::Heading(l), ..flush(s) },
        Event::Text(t) => AccState { buf: s.buf + t@, ..s },
        Event::CellBreak => AccState { buf: s.buf.push('\n'), ..s },
        Event::InlineHtml(t) => if s.mode is Paragraph {
            AccState { buf: s.buf + t@, ..s }
        } else {
            s
        },
        Event::Block => if s.mode is Paragraph {
            AccState { buf: s.buf.push('\n'), ..s }
        } else {
            AccState { mode: Mode::Paragraph, ..flush(s) }
        },
    }
}

/// The state after folding `events` from the initial state.
pub open spec fn run(events: Seq<Event>) -> AccState
    decreases events.len(),
{
    if events.len() == 0 {
        initial_state()
    } else {
        step(run(events.drop_last()), events.last())
    }
}

/// A decomposed document, mathematically.
pub struct DocModel {
    pub draft: bool,
    pub units: Seq<UnitModel>,
}

/// What a document's events decompose into: the fold, with the last unit
/// finalized.
pub open spec fn decomposition(events: Seq<Event>) -> DocModel {
    let s = flush(run(events));
    DocModel { draft: s.draft, units: s.out }
}

pub open spec fn wf_units(units: Seq<UnitModel>) -> bool {
    forall|i: int| 0 <= i < units.len() ==> (#[trigger] units[i]).kind.wf()
}

/// A decomposed document: whether it is a draft, and its units in order.
pub struct Document {
    pub draft: bool,
    pub units: Vec<Unit>,
}

impl View for Document {
    type V = DocModel;

    open spec fn view(&self) -> DocModel {
        DocModel { draft: self.draft, units: units_view(self.units@) }
    }
}

/// The stateful fold over one document's events.
pub struct Accumulator {
    draft: bool,
    mode: Mode,
    buf: String,
    units: Vec<Unit>,
}

impl View for Accumulator {
    type V = AccState;

    closed spec fn view(&self) -> AccState {
        AccState {
            draft: self.draft,
            mode: self.mode,
            buf: self.buf@,
            out: units_view(self.units@),
        }
    }
}

pub open spec fn wf_state(s: AccState) -> bool {
    wf_mode(s.mode) && wf_units(s.out)
}

impl Accumulator {
    pub fn new() -> (r: Accumulator)
        ensures
            r@ == initial_state(),
    {
        let r = Accumulator { draft: false, mode: Mode::Root, buf: String::new(), units: Vec::new() };
        assert(r@.out =~= Seq::<UnitModel>::empty());
        r
    }

    fn push_unit(&mut self, u: Unit)
        ensures
            final(self)@ == (AccState { out: old(self)@.out.push(u@), ..old(self)@ }),
    {
        self.units.push(u);
        assert(units_view(self.units@) =~= units_view(old(self).units@).push(u@));
    }

    fn flush_open(&mut self)
        ensures
            final(self)@ == flush(old(self)@),
    {
        let t = trimmed(self.buf.as_str());
        if t.as_str().unicode_len() > 0 {
            let kind = match self.mode {
                Mode::Heading(l) => Kind::Heading(l),
                _ => Kind::Paragraph,
            };
            self.push_unit(Unit { kind, content: t });
        }
        self.buf = String::new();
    }

    fn push_front(&mut self, kind: Kind, v: &Option<String>)
        ensures
            final(self)@ == (AccState { out: old(self)@.out + front_unit(kind, *v), ..old(self)@ }),
    {
        match v {
            Some(t) => {
                let c = trimmed(t.as_str());
                if c.as_str().unicode_len() > 0 {
                    self.push_unit(Unit { kind, content: c });
                    assert(old(self)@.out.push(UnitModel { kind, content: trim(t@) })
                        =~= old(self)@.out + front_unit(kind, *v));
                } else {
                    assert(old(self)@.out + front_unit(kind, *v) =~= old(self)@.out);
                }
            },
            None => {
                assert(old(self)@.out + front_unit(kind, *v) =~= old(self)@.out);
            },
        }
    }

    fn newline(&mut self)
        ensures
            final(self)@ == (AccState { buf: old(self)@.buf.push('\n'), ..old(self)@ }),
    {
        proof {
            reveal_strlit("\n");
        }
        self.buf.append("\n");
        assert(self.buf@ =~= old(self).buf@.push('\n'));
    }

    /// Feeds one event of the walk.
    pub fn feed(&mut self, e: &Event)
        requires
            wf_event(*e),
            wf_state(old(self)@),
        ensures
            final(self)@ == step(old(self)@, *e),
            wf_state(final(self)@),
    {
        match e {
            Event::FrontMatter { draft, title, summary } => {
                if let Some(d) = draft {
                    self.draft = *d;
                }
                self.push_front(Kind::Title, title);
                self.push_front(Kind::Summary, summary);
                assert(self@.out =~= old(self)@.out + front_unit(Kind::Title, *title) + front_unit(
                    Kind::Summary,
                    *summary,
                ));
            },
            Event::HtmlBlock => {},
            Event::Heading(l) => {
                self.flush_open();
                self.mode = Mode::Heading(*l);
            },
            Event::Text(t) => {
                self.buf.append(t.as_str());
            },
            Event::CellBreak => {
                self.newline();
            },
            Event::InlineHtml(t) => {
                if self.mode == Mode::Paragraph {
                    self.buf.append(t.as_str());
                }
            },
            Event::Block => {
                if self.mode == Mode::Paragraph {
                    self.newline();
                } else {
                    self.flush_open();
                    self.mode = Mode::Paragraph;
                }
            },
        }
        assert(wf_units(self@.out));
    }

    /// Finalizes the open unit and hands the document over.
    pub fn finish(self) -> (d: Document)
        requires
            wf_state(self@),
        ensures
            d@.draft == flush(self@).draft,
            d@.units == flush(self@).out,
            wf_units(d@.units),
    {
        let mut me = self;
        me.flush_open();
        Document { draft: me.draft, units: me.units }
    }
}

/// Decomposes one document, given the events of its walk, into its units.
pub fn decompose(events: &Vec<Event>) -> (d: Document)
    requires
        forall|i: int| 0 <= i < events@.len() ==> wf_event(#[trigger] events@[i]),
    ensures
        d@ == decomposition(events@),
        wf_units(d@.units),
{
    let mut acc = Accumulator::new();
    let mut i: usize = 0;
    while i < events.len()
        invariant
            i <= events@.len(),
            forall|k: int| 0 <= k < events@.len() ==> wf_event(#[trigger] events@[k]),
            acc@ == run(events@.subrange(0, i as int)),
            wf_state(acc@),
        decreases events@.len() - i,
    {
        assert(events@.subrange(0, i + 1).drop_last() =~= events@.subrange(0, i as int));
        acc.feed(&events[i]);
        i = i + 1;
    }
    assert(events@.subrange(0, i as int) =~= events@);
    acc.finish()
}

pub open spec fn all_nonempty(units: Seq<UnitModel>) -> bool {
    forall|i: int|
        0 <= i < units.len() ==> (#[trigger] units[i]).content.len() > 0 && trim(
            units[i].content,
        ) == units[i].content
}

proof fn lemma_flush_nonempty(s: AccState)
    requires
        all_nonempty(s.out),
    ensures
        all_nonempty(flush(s).out),
{
    let t = trim(s.buf);
    lemma_trim_idempotent(s.buf);
    if t.len() > 0 {
        let out = s.out.push(UnitModel { kind: mode_kind(s.mode), content: t });
        assert forall|i: int| 0 <= i < out.len() implies (#[trigger] out[i]).content.len() > 0 by {
            if i < s.out.len() {
                assert(out[i] == s.out[i]);
            }
        }
    }
}

proof fn lemma_run_nonempty(events: Seq<Event>)
    ensures
        all_nonempty(run(events).out),
    decreases events.len(),
{
    if events.len() > 0 {
        let prev = run(events.drop_last());
        lemma_run_nonempty(events.drop_last());
        lemma_flush_nonempty(prev);
        match events.last() {
            Event::FrontMatter { draft, title, summary } => {
                if let Some(t) = title {
                    lemma_trim_idempotent(t@);
                }
                if let Some(t) = summary {
                    lemma_trim_idempotent(t@);
                }
                let a = front_unit(Kind::Title, title);
                let b = front_unit(Kind::Summary, summary);
                let out = prev.out + a + b;
                assert forall|i: int| 0 <= i < out.len() implies (#[trigger] out[i]).content.len()
                    > 0 by {
                    if i < prev.out.len() {
                        assert(out[i] == prev.out[i]);
                    } else if i < prev.out.len() + a.len() {
                        assert(out[i] == a[i - prev.out.len()]);
                    } else {
                        assert(out[i] == b[i - prev.out.len() - a.len()]);
                    }
                }
            },
            _ => {},
        }
    }
}

/// Every unit a document decomposes into holds some text and is trimmed:
/// whitespace-only units are never emitted, and blank front-matter values
/// give no unit.
pub proof fn lemma_units_are_never_empty(events: Seq<Event>)
    ensures
        all_nonempty(decomposition(events).units),
{
    lemma_run_nonempty(events);
    lemma_flush_nonempty(run(events));
}

} // verus!
