//! The query assembler: request defaults, the pagination window, and the
//! context (enclosing heading, document title) of each hit.
use vstd::prelude::*;
use vstd::string::*;

use crate::index::{Row, RowModel, rows_view};
use crate::kind::Kind;

verus! {

/// A search request as it arrives; every field may be missing.
pub struct Request {
    pub search: Option<String>,
    pub locale: Option<String>,
    pub version: Option<String>,
    /// The 1-based page.
    pub p: Option<u64>,
    /// The page size; none means no limit.
    pub l: Option<u64>,
}

/// A search request with its defaults applied.
pub struct Query {
    /// The search term; `None` when it was missing or empty.
    pub term: Option<String>,
    pub locale: String,
    pub version: String,
    /// The 1-based page, at least `1`.
    pub page: u64,
    /// The page size, at least `1`; `None` means every hit.
    pub page_size: Option<u64>,
}

pub open spec fn opt_view(o: Option<String>) -> Option<Seq<char>> {
    match o {
        Some(s) => Some(s@),
        None => None,
    }
}

/// The term of a request: missing and empty are the same.
pub open spec fn term_of(search: Option<String>) -> Option<Seq<char>> {
    match search {
        Some(s) => if s@.len() > 0 {
            Some(s@)
        } else {
            None
        },
        None => None,
    }
}

pub open spec fn at_least_one(x: u64) -> u64 {
    if x < 1 {
        1
    } else {
        x
    }
}

/// How many hits come before the requested page, saturating at the
/// largest `u64`.
pub open spec fn offset_of(page: u64, page_size: Option<u64>) -> u64 {
    match page_size {
        Some(s) => if (at_least_one(page) - 1) * s > u64::MAX {
            u64::MAX
        } else {
            ((at_least_one(page) - 1) * s) as u64
        },
        None => 0,
    }
}

impl Query {
    /// Applies the defaults to a request: a missing locale or version takes
    /// the given default, a missing page is the first, and a page or page
    /// size below `1` is raised to `1`.
    pub fn from_request(req: Request, default_locale: &str, default_version: &str) -> (q: Query)
        ensures
            opt_view(q.term) == term_of(req.search),
            q.locale@ == match req.locale {
                Some(l) => l@,
                None => default_locale@,
            },
            q.version@ == match req.version {
                Some(v) => v@,
                None => default_version@,
            },
            q.page == at_least_one(
                match req.p {
                    Some(p) => p,
                    None => 0,
                },
            ),
            q.page_size == match req.l {
                Some(l) => Some(at_least_one(l)),
                None => None,
            },
            q.page >= 1,
    {
        let term = match req.search {
            Some(s) => if s.as_str().unicode_len() > 0 {
                Some(s)
            } else {
                None
            },
            None => None,
        };
        let locale = match req.locale {
            Some(l) => l,
            None => String::from_str(default_locale),
        };
        let version = match req.version {
            Some(v) => v,
            None => String::from_str(default_version),
        };
        let p = match req.p {
            Some(p) => p,
            None => 0,
        };
        let page = if p < 1 {
            1
        } else {
            p
        };
        let page_size = match req.l {
            Some(l) => Some(
                if l < 1 {
                    1
                } else {
                    l
                },
            ),
            None => None,
        };
        Query { term, locale, version, page, page_size }
    }

    /// Whether the query needs storage at all: not without a term.
    pub fn needs_lookup(&self) -> (r: bool)
        ensures
            r == self.term is Some,
    {
        self.term.is_some()
    }

    /// How many hits come before the requested page.
    pub fn offset(&self) -> (r: u64)
        ensures
            r == offset_of(self.page, self.page_size),
    {
        match self.page_size {
            Some(s) => {
                let before = if self.page < 1 {
                    0
                } else {
                    self.page - 1
                };
                match before.checked_mul(s) {
                    Some(o) => o,
                    None => u64::MAX,
                }
            },
            None => 0,
        }
    }
}

/// A full-text match as the storage engine reports it: the matched row's id
/// and a highlighted snippet of its content.
pub struct Match {
    pub id: u64,
    pub snippet: String,
}

pub struct MatchModel {
    pub id: u64,
    pub snippet: Seq<char>,
}

impl View for Match {
    type V = MatchModel;

    open spec fn view(&self) -> MatchModel {
        MatchModel { id: self.id, snippet: self.snippet@ }
    }
}

impl Match {
    pub fn duplicate(&self) -> (r: Match)
        ensures
            r@ == self@,
    {
        Match { id: self.id, snippet: self.snippet.clone() }
    }
}

pub open spec fn matches_view(s: Seq<Match>) -> Seq<MatchModel> {
    s.map_values(|m: Match| m@)
}

/// One search result: the matched unit with its enclosing heading and its
/// document's title.
pub struct Hit {
    pub group: String,
    pub kind: Kind,
    pub snippet: String,
    /// The kind of the enclosing heading of a matched paragraph.
    pub parent_kind: Option<Kind>,
    /// The text of that heading; empty when there is none.
    pub parent_content: String,
    /// The document's title; empty when it has none.
    pub title: String,
}

pub struct HitModel {
    pub group: Seq<char>,
    pub kind: Kind,
    pub snippet: Seq<char>,
    pub parent_kind: Option<Kind>,
    pub parent_content: Seq<char>,
    pub title: Seq<char>,
}

impl View for Hit {
    type V = HitModel;

    open spec fn view(&self) -> HitModel {
        HitModel {
            group: self.group@,
            kind: self.kind,
            snippet: self.snippet@,
            parent_kind: self.parent_kind,
            parent_content: self.parent_content@,
            title: self.title@,
        }
    }
}

pub open spec fn hits_view(s: Seq<Hit>) -> Seq<HitModel> {
    s.map_values(|h: Hit| h@)
}

/// The first of the first `n` rows with the given id.
pub open spec fn first_with_id(rows: Seq<RowModel>, id: u64, n: int) -> Option<int>
    decreases n,
{
    if n <= 0 {
        None
    } else {
        match first_with_id(rows, id, n - 1) {
            Some(k) => Some(k),
            None => if rows[n - 1].id == id {
                Some(n - 1)
            } else {
                None
            },
        }
    }
}

pub open spec fn is_title_of(r: RowModel, group: Seq<char>, locale: Seq<char>, version: Seq<char>) -> bool {
    r.kind == Kind::Title && r.group == group && r.locale == locale && r.version == version
}

/// The first of the first `n` rows that is the title of the document.
pub open spec fn first_title(
    rows: Seq<RowModel>,
    group: Seq<char>,
    locale: Seq<char>,
    version: Seq<char>,
    n: int,
) -> Option<int>
    decreases n,
{
    if n <= 0 {
        None
    } else {
        match first_title(rows, group, locale, version, n - 1) {
            Some(k) => Some(k),
            None => if is_title_of(rows[n - 1], group, locale, version) {
                Some(n - 1)
            } else {
                None
            },
        }
    }
}

/// Whether a match names a row of the partition.
pub open spec fn known(rows: Seq<RowModel>, locale: Seq<char>, version: Seq<char>, id: u64) -> bool {
    match first_with_id(rows, id, rows.len() as int) {
        Some(k) => rows[k].locale == locale && rows[k].version == version,
        None => false,
    }
}

pub open spec fn has_id(ms: Seq<MatchModel>, id: u64) -> bool {
    exists|j: int| 0 <= j < ms.len() && (#[trigger] ms[j]).id == id
}

/// The matches that name a row of the partition, each row once, in the
/// engine's order.
pub open spec fn eligible(
    rows: Seq<RowModel>,
    locale: Seq<char>,
    version: Seq<char>,
    ms: Seq<MatchModel>,
) -> Seq<MatchModel>
    decreases ms.len(),
{
    if ms.len() == 0 {
        Seq::empty()
    } else {
        let e = eligible(rows, locale, version, ms.drop_last());
        let m = ms.last();
        if known(rows, locale, version, m.id) && !has_id(e, m.id) {
            e.push(m)
        } else {
            e
        }
    }
}

pub open spec fn min_int(a: int, b: int) -> int {
    if a < b {
        a
    } else {
        b
    }
}

/// The page of `e` that starts after `offset` items and holds at most
/// `page_size` of them.
pub open spec fn page_of<A>(e: Seq<A>, offset: u64, page_size: Option<u64>) -> Seq<A> {
    let lo = min_int(offset as int, e.len() as int);
    let hi = match page_size {
        Some(s) => min_int(offset + s, e.len() as int),
        None => e.len() as int,
    };
    e.subrange(lo, hi)
}

/// The hit a match gives: a paragraph gets its parent heading, every hit
/// its document's title, and what is missing is empty.
pub open spec fn hit_of(rows: Seq<RowModel>, m: MatchModel) -> HitModel {
    let n = rows.len() as int;
    let r = rows[first_with_id(rows, m.id, n)->0];
    let parent = if r.kind == Kind::Paragraph {
        first_with_id(rows, r.pid, n)
    } else {
        None
    };
    let title = first_title(rows, r.group, r.locale, r.version, n);
    HitModel {
        group: r.group,
        kind: r.kind,
        snippet: m.snippet,
        parent_kind: match parent {
            Some(k) => Some(rows[k].kind),
            None => None,
        },
        parent_content: match parent {
            Some(k) => rows[k].content,
            None => Seq::empty(),
        },
        title: match title {
            Some(k) => rows[k].content,
            None => Seq::empty(),
        },
    }
}

/// The hits a query gets from the partition's rows and the engine's
/// matches: none without a term, else the requested page of the eligible
/// matches in order of group id and kind, each with its context.
pub open spec fn hits_for(
    term: Option<Seq<char>>,
    locale: Seq<char>,
    version: Seq<char>,
    page: u64,
    page_size: Option<u64>,
    rows: Seq<RowModel>,
    ms: Seq<MatchModel>,
) -> Seq<HitModel> {
    if term is None {
        Seq::empty()
    } else {
        page_of(
            ordered(rows, eligible(rows, locale, version, ms)),
            offset_of(page, page_size),
            page_size,
        ).map_values(
            |m: MatchModel| hit_of(rows, m),
        )
    }
}

/// Strict lexicographic order on character sequences, by code point.
pub open spec fn seq_lt(a: Seq<char>, b: Seq<char>) -> bool
    decreases a.len(),
{
    if a.len() == 0 {
        b.len() > 0
    } else if b.len() == 0 {
        false
    } else if a[0] != b[0] {
        a[0] < b[0]
    } else {
        seq_lt(a.drop_first(), b.drop_first())
    }
}

/// The row a match names.
pub open spec fn row_of(rows: Seq<RowModel>, m: MatchModel) -> RowModel {
    rows[first_with_id(rows, m.id, rows.len() as int)->0]
}

/// Whether `a` sorts strictly after `b`: by group id, then by kind.
pub open spec fn sorts_after(rows: Seq<RowModel>, a: MatchModel, b: MatchModel) -> bool {
    let ra = row_of(rows, a);
    let rb = row_of(rows, b);
    seq_lt(rb.group, ra.group) || (ra.group == rb.group && rb.kind.spec_code()
        < ra.kind.spec_code())
}

/// Where `x` goes among the first `n` of `s`: before the first that sorts
/// after it, so that equal keys keep their order.
pub open spec fn insert_pos(rows: Seq<RowModel>, s: Seq<MatchModel>, x: MatchModel, n: int) -> int
    decreases n,
{
    if n <= 0 {
        0
    } else {
        let p = insert_pos(rows, s, x, n - 1);
        if p < n - 1 {
            p
        } else if sorts_after(rows, s[n - 1], x) {
            n - 1
        } else {
            n
        }
    }
}

/// `e` ordered by group id and kind; matches with equal keys keep the
/// engine's order.
pub open spec fn ordered(rows: Seq<RowModel>, e: Seq<MatchModel>) -> Seq<MatchModel>
    decreases e.len(),
{
    if e.len() == 0 {
        Seq::empty()
    } else {
        let s = ordered(rows, e.drop_last());
        s.insert(insert_pos(rows, s, e.last(), s.len() as int), e.last())
    }
}

pub open spec fn opt_usize(p: Option<usize>) -> Option<int> {
    match p {
        Some(k) => Some(k as int),
        None => None,
    }
}

fn find_id(rows: &Vec<Row>, id: u64) -> (r: Option<usize>)
    ensures
        opt_usize(r) == first_with_id(rows_view(rows@), id, rows@.len() as int),
        r matches Some(k) ==> k < rows@.len(),
{
    let ghost rv = rows_view(rows@);
    let mut found: Option<usize> = None;
    let mut i: usize = 0;
    while i < rows.len()
        invariant
            rv == rows_view(rows@),
            i <= rows@.len(),
            opt_usize(found) == first_with_id(rv, id, i as int),
            found matches Some(k) ==> k < i,
        decreases rows@.len() - i,
    {
        assert(rv[i as int].id == rows@[i as int].id);
        if found.is_none() && rows[i].id == id {
            found = Some(i);
        }
        i = i + 1;
    }
    found
}

fn find_title(rows: &Vec<Row>, group: &String, locale: &String, version: &String) -> (r: Option<
    usize,
>)
    ensures
        opt_usize(r) == first_title(rows_view(rows@), group@, locale@, version@, rows@.len() as int),
        r matches Some(k) ==> k < rows@.len(),
{
    let ghost rv = rows_view(rows@);
    let mut found: Option<usize> = None;
    let mut i: usize = 0;
    while i < rows.len()
        invariant
            rv == rows_view(rows@),
            i <= rows@.len(),
            opt_usize(found) == first_title(rv, group@, locale@, version@, i as int),
            found matches Some(k) ==> k < i,
        decreases rows@.len() - i,
    {
        let row = &rows[i];
        assert(rv[i as int] == row@);
        if found.is_none() && row.kind == Kind::Title && row.group == *group && row.locale
            == *locale && row.version == *version {
            found = Some(i);
        }
        i = i + 1;
    }
    found
}

fn contains_id(ms: &Vec<Match>, id: u64) -> (r: bool)
    ensures
        r == has_id(matches_view(ms@), id),
{
    let ghost mv = matches_view(ms@);
    let mut i: usize = 0;
    while i < ms.len()
        invariant
            mv == matches_view(ms@),
            i <= ms@.len(),
            forall|j: int| 0 <= j < i ==> (#[trigger] mv[j]).id != id,
        decreases ms@.len() - i,
    {
        if ms[i].id == id {
            assert(mv[i as int].id == id);
            return true;
        }
        i = i + 1;
    }
    false
}

fn str_lt(a: &str, b: &str) -> (r: bool)
    ensures
        r == seq_lt(a@, b@),
{
    let na = a.unicode_len();
    let nb = b.unicode_len();
    let mut i: usize = 0;
    assert(a@.subrange(0, na as int) =~= a@);
    assert(b@.subrange(0, nb as int) =~= b@);
    while i < na && i < nb && a.get_char(i) == b.get_char(i)
        invariant
            na == a@.len(),
            nb == b@.len(),
            i <= na,
            i <= nb,
            seq_lt(a@.subrange(i as int, na as int), b@.subrange(i as int, nb as int)) == seq_lt(
                a@,
                b@,
            ),
        decreases na - i,
    {
        assert(a@.subrange(i as int, na as int).drop_first() =~= a@.subrange(i + 1, na as int));
        assert(b@.subrange(i as int, nb as int).drop_first() =~= b@.subrange(i + 1, nb as int));
        i = i + 1;
    }
    if i == na {
        i < nb
    } else if i == nb {
        false
    } else {
        let ca = a.get_char(i);
        let cb = b.get_char(i);
        assert(a@.subrange(i as int, na as int)[0] == ca);
        assert(b@.subrange(i as int, nb as int)[0] == cb);
        ca < cb
    }
}

/// Whether row `ka` sorts strictly after row `kb`.
fn row_sorts_after(rows: &Vec<Row>, ka: usize, kb: usize) -> (r: bool)
    requires
        ka < rows@.len(),
        kb < rows@.len(),
    ensures
        r == ({
            let ra = rows_view(rows@)[ka as int];
            let rb = rows_view(rows@)[kb as int];
            seq_lt(rb.group, ra.group) || (ra.group == rb.group && rb.kind.spec_code()
                < ra.kind.spec_code())
        }),
{
    let ra = &rows[ka];
    let rb = &rows[kb];
    assert(rows_view(rows@)[ka as int] == ra@);
    assert(rows_view(rows@)[kb as int] == rb@);
    str_lt(rb.group.as_str(), ra.group.as_str()) || (ra.group == rb.group && rb.kind.code()
        < ra.kind.code())
}

/// Orders the eligible matches; `at[j]` is the row that `e[j]` names.
fn order(rows: &Vec<Row>, e: &Vec<Match>, at: &Vec<usize>) -> (r: Vec<Match>)
    requires
        at@.len() == e@.len(),
        forall|j: int|
            0 <= j < e@.len() ==> first_with_id(rows_view(rows@), e@[j].id, rows@.len() as int)
                == Some(#[trigger] at@[j] as int),
        forall|j: int| 0 <= j < at@.len() ==> #[trigger] at@[j] < rows@.len(),
    ensures
        matches_view(r@) == ordered(rows_view(rows@), matches_view(e@)),
{
    let ghost rv = rows_view(rows@);
    let ghost ev = matches_view(e@);
    let mut sorted: Vec<Match> = Vec::new();
    let mut keys: Vec<usize> = Vec::new();
    let mut i: usize = 0;
    assert(ev.subrange(0, 0) =~= Seq::<MatchModel>::empty());
    assert(matches_view(sorted@) =~= Seq::<MatchModel>::empty());
    while i < e.len()
        invariant
            rv == rows_view(rows@),
            ev == matches_view(e@),
            at@.len() == e@.len(),
            forall|j: int|
                0 <= j < e@.len() ==> first_with_id(rv, e@[j].id, rows@.len() as int) == Some(
                    #[trigger] at@[j] as int,
                ),
            forall|j: int| 0 <= j < at@.len() ==> #[trigger] at@[j] < rows@.len(),
            i <= e@.len(),
            matches_view(sorted@) == ordered(rv, ev.subrange(0, i as int)),
            keys@.len() == sorted@.len(),
            forall|j: int|
                0 <= j < sorted@.len() ==> first_with_id(rv, sorted@[j].id, rows@.len() as int)
                    == Some(#[trigger] keys@[j] as int),
            forall|j: int| 0 <= j < keys@.len() ==> #[trigger] keys@[j] < rows@.len(),
        decreases e@.len() - i,
    {
        let ghost sv = matches_view(sorted@);
        let ghost x = ev[i as int];
        assert(ev.subrange(0, i + 1).drop_last() =~= ev.subrange(0, i as int));
        assert(ev.subrange(0, i + 1).last() == x);
        assert(x == e@[i as int]@);
        let kx = at[i];
        let mut p: usize = 0;
        while p < sorted.len()
            invariant
                rv == rows_view(rows@),
                sv == matches_view(sorted@),
                keys@.len() == sorted@.len(),
                forall|j: int|
                    0 <= j < sorted@.len() ==> first_with_id(rv, sorted@[j].id, rows@.len() as int)
                        == Some(#[trigger] keys@[j] as int),
                forall|j: int| 0 <= j < keys@.len() ==> #[trigger] keys@[j] < rows@.len(),
                first_with_id(rv, x.id, rows@.len() as int) == Some(kx as int),
                kx < rows@.len(),
                p <= sorted@.len(),
                insert_pos(rv, sv, x, p as int) == p,
            ensures
                p <= sorted@.len(),
                insert_pos(rv, sv, x, sorted@.len() as int) == p,
            decreases sorted@.len() - p,
        {
            assert(sv[p as int].id == sorted@[p as int].id);
            assert(first_with_id(rv, sorted@[p as int].id, rows@.len() as int) == Some(
                keys@[p as int] as int,
            ));
            if row_sorts_after(rows, keys[p], kx) {
                proof {
                    lemma_insert_pos_stays(rv, sv, x, p as int + 1, sv.len() as int);
                }
                break;
            }
            p = p + 1;
        }
        let ghost before = sorted@;
        let ghost before_keys = keys@;
        sorted.insert(p, e[i].duplicate());
        keys.insert(p, kx);
        assert(matches_view(sorted@) =~= sv.insert(p as int, x));
        assert forall|j: int| 0 <= j < sorted@.len() implies first_with_id(
            rv,
            sorted@[j].id,
            rows@.len() as int,
        ) == Some(#[trigger] keys@[j] as int) by {
            if j < p {
                assert(sorted@[j] == before[j]);
                assert(keys@[j] == before_keys[j]);
            } else if j > p {
                assert(sorted@[j] == before[j - 1]);
                assert(keys@[j] == before_keys[j - 1]);
            }
        }
        assert forall|j: int| 0 <= j < keys@.len() implies #[trigger] keys@[j] < rows@.len() by {
            if j < p {
                assert(keys@[j] == before_keys[j]);
            } else if j > p {
                assert(keys@[j] == before_keys[j - 1]);
            }
        }
        i = i + 1;
    }
    assert(ev.subrange(0, i as int) =~= ev);
    sorted
}

/// Once the insertion point is found below `n`, looking further does not
/// move it.
proof fn lemma_insert_pos_stays(
    rows: Seq<RowModel>,
    s: Seq<MatchModel>,
    x: MatchModel,
    n: int,
    m: int,
)
    requires
        1 <= n <= m,
        insert_pos(rows, s, x, n) < n,
    ensures
        insert_pos(rows, s, x, m) == insert_pos(rows, s, x, n),
    decreases m - n,
{
    if m > n {
        lemma_insert_pos_stays(rows, s, x, n, m - 1);
    }
}

fn hit_for(rows: &Vec<Row>, m: &Match) -> (h: Hit)
    requires
        first_with_id(rows_view(rows@), m.id, rows@.len() as int) is Some,
    ensures
        h@ == hit_of(rows_view(rows@), m@),
{
    let ghost rv = rows_view(rows@);
    let k = match find_id(rows, m.id) {
        Some(k) => k,
        None => 0,
    };
    let r = &rows[k];
    assert(rv[k as int] == r@);
    let parent = if r.kind == Kind::Paragraph {
        find_id(rows, r.pid)
    } else {
        None
    };
    let (parent_kind, parent_content) = match parent {
        Some(p) => {
            assert(rv[p as int] == rows@[p as int]@);
            (Some(rows[p].kind), rows[p].content.clone())
        },
        None => (None, String::new()),
    };
    let title = match find_title(rows, &r.group, &r.locale, &r.version) {
        Some(t) => {
            assert(rv[t as int] == rows@[t as int]@);
            rows[t].content.clone()
        },
        None => String::new(),
    };
    Hit {
        group: r.group.clone(),
        kind: r.kind,
        snippet: m.snippet.clone(),
        parent_kind,
        parent_content,
        title,
    }
}

proof fn lemma_eligible_known(
    rows: Seq<RowModel>,
    locale: Seq<char>,
    version: Seq<char>,
    ms: Seq<MatchModel>,
)
    ensures
        forall|i: int|
            0 <= i < eligible(rows, locale, version, ms).len() ==> known(
                rows,
                locale,
                version,
                (#[trigger] eligible(rows, locale, version, ms)[i]).id,
            ),
    decreases ms.len(),
{
    if ms.len() > 0 {
        lemma_eligible_known(rows, locale, version, ms.drop_last());
        let e = eligible(rows, locale, version, ms.drop_last());
        let all = eligible(rows, locale, version, ms);
        assert forall|i: int| 0 <= i < all.len() implies known(
            rows,
            locale,
            version,
            (#[trigger] all[i]).id,
        ) by {
            if i < e.len() {
                assert(all[i] == e[i]);
            }
        }
    }
}

proof fn lemma_ordered_known(
    rows: Seq<RowModel>,
    locale: Seq<char>,
    version: Seq<char>,
    e: Seq<MatchModel>,
)
    requires
        forall|i: int| 0 <= i < e.len() ==> known(rows, locale, version, (#[trigger] e[i]).id),
    ensures
        forall|i: int|
            0 <= i < ordered(rows, e).len() ==> known(
                rows,
                locale,
                version,
                (#[trigger] ordered(rows, e)[i]).id,
            ),
        ordered(rows, e).len() == e.len(),
    decreases e.len(),
{
    if e.len() > 0 {
        let rest = e.drop_last();
        assert forall|i: int| 0 <= i < rest.len() implies known(
            rows,
            locale,
            version,
            (#[trigger] rest[i]).id,
        ) by {
            assert(rest[i] == e[i]);
        }
        lemma_ordered_known(rows, locale, version, rest);
        let s = ordered(rows, rest);
        let x = e.last();
        let p = insert_pos(rows, s, x, s.len() as int);
        lemma_insert_pos_bounds(rows, s, x, s.len() as int);
        let all = s.insert(p, x);
        assert forall|i: int| 0 <= i < all.len() implies known(
            rows,
            locale,
            version,
            (#[trigger] all[i]).id,
        ) by {
            if i < p {
                assert(all[i] == s[i]);
            } else if i > p {
                assert(all[i] == s[i - 1]);
            }
        }
    }
}

proof fn lemma_seq_lt_trans(a: Seq<char>, b: Seq<char>, c: Seq<char>)
    requires
        seq_lt(a, b),
        seq_lt(b, c),
    ensures
        seq_lt(a, c),
    decreases a.len(),
{
    if a.len() > 0 && b.len() > 0 && c.len() > 0 && a[0] == b[0] && b[0] == c[0] {
        lemma_seq_lt_trans(a.drop_first(), b.drop_first(), c.drop_first());
    }
}

proof fn lemma_seq_lt_asym(a: Seq<char>, b: Seq<char>)
    ensures
        !(seq_lt(a, b) && seq_lt(b, a)),
        !seq_lt(a, a),
    decreases a.len(),
{
    if a.len() > 0 && b.len() > 0 && a[0] == b[0] {
        lemma_seq_lt_asym(a.drop_first(), b.drop_first());
    }
    if a.len() > 0 {
        lemma_seq_lt_asym(a.drop_first(), a.drop_first());
    }
}

proof fn lemma_sorts_after_order(rows: Seq<RowModel>, a: MatchModel, b: MatchModel, c: MatchModel)
    ensures
        sorts_after(rows, a, b) && sorts_after(rows, b, c) ==> sorts_after(rows, a, c),
        !(sorts_after(rows, a, b) && sorts_after(rows, b, a)),
{
    let ga = row_of(rows, a).group;
    let gb = row_of(rows, b).group;
    let gc = row_of(rows, c).group;
    lemma_seq_lt_asym(ga, gb);
    lemma_seq_lt_asym(gb, gc);
    lemma_seq_lt_asym(ga, gc);
    lemma_seq_lt_asym(gb, gb);
    if seq_lt(gc, gb) && seq_lt(gb, ga) {
        lemma_seq_lt_trans(gc, gb, ga);
    }
}

/// Whether no match of `s` sorts after a later one.
pub open spec fn is_ordered(rows: Seq<RowModel>, s: Seq<MatchModel>) -> bool {
    forall|i: int, j: int| 0 <= i < j < s.len() ==> !sorts_after(rows, #[trigger] s[i], #[trigger] s[j])
}

proof fn lemma_insert_pos_bounds(rows: Seq<RowModel>, s: Seq<MatchModel>, x: MatchModel, n: int)
    requires
        0 <= n <= s.len(),
    ensures
        0 <= insert_pos(rows, s, x, n) <= n,
        forall|i: int| 0 <= i < insert_pos(rows, s, x, n) ==> !sorts_after(rows, #[trigger] s[i], x),
        insert_pos(rows, s, x, n) < n ==> sorts_after(rows, s[insert_pos(rows, s, x, n)], x),
    decreases n,
{
    if n > 0 {
        lemma_insert_pos_bounds(rows, s, x, n - 1);
    }
}

/// The hits come ordered by group id and then by kind: no match of the
/// ordering sorts after one that follows it.
pub proof fn lemma_hits_are_ordered(rows: Seq<RowModel>, e: Seq<MatchModel>)
    ensures
        is_ordered(rows, ordered(rows, e)),
    decreases e.len(),
{
    if e.len() > 0 {
        lemma_hits_are_ordered(rows, e.drop_last());
        let s = ordered(rows, e.drop_last());
        let x = e.last();
        let p = insert_pos(rows, s, x, s.len() as int);
        lemma_insert_pos_bounds(rows, s, x, s.len() as int);
        let all = s.insert(p, x);
        assert forall|i: int, j: int| 0 <= i < j < all.len() implies !sorts_after(
            rows,
            #[trigger] all[i],
            #[trigger] all[j],
        ) by {
            if j < p {
                assert(all[i] == s[i] && all[j] == s[j]);
            } else if j == p {
                assert(all[i] == s[i] && all[j] == x);
            } else if i < p {
                assert(all[i] == s[i] && all[j] == s[j - 1]);
            } else if i == p {
                assert(all[i] == x && all[j] == s[j - 1]);
                assert(!sorts_after(rows, s[p], s[j - 1]) || p == j - 1);
                lemma_sorts_after_order(rows, x, s[j - 1], s[p]);
                lemma_sorts_after_order(rows, s[p], x, s[j - 1]);
            } else {
                assert(all[i] == s[i - 1] && all[j] == s[j - 1]);
            }
        }
    }
}

/// Assembles the hits of a query from the engine's matches over the live
/// rows: nothing without a term; otherwise the matches that name a row of
/// the query's partition, each row once, ordered by group id and then kind
/// (the engine's order among equals), cut to the requested page, each with
/// its enclosing heading and its title.
pub fn search(q: &Query, rows: &Vec<Row>, matches: &Vec<Match>) -> (hits: Vec<Hit>)
    ensures
        hits_view(hits@) == hits_for(
            opt_view(q.term),
            q.locale@,
            q.version@,
            q.page,
            q.page_size,
            rows_view(rows@),
            matches_view(matches@),
        ),
{
    let ghost rv = rows_view(rows@);
    let ghost mv = matches_view(matches@);
    if q.term.is_none() {
        let hits: Vec<Hit> = Vec::new();
        assert(hits_view(hits@) =~= Seq::<HitModel>::empty());
        return hits;
    }
    let mut elig: Vec<Match> = Vec::new();
    let mut i: usize = 0;
    assert(mv.subrange(0, 0) =~= Seq::<MatchModel>::empty());
    assert(matches_view(elig@) =~= Seq::<MatchModel>::empty());
    while i < matches.len()
        invariant
            rv == rows_view(rows@),
            mv == matches_view(matches@),
            i <= matches@.len(),
            matches_view(elig@) == eligible(rv, q.locale@, q.version@, mv.subrange(0, i as int)),
        decreases matches@.len() - i,
    {
        let m = &matches[i];
        assert(mv.subrange(0, i + 1).drop_last() =~= mv.subrange(0, i as int));
        assert(mv.subrange(0, i + 1).last() == m@);
        let ok = match find_id(rows, m.id) {
            Some(k) => {
                assert(rv[k as int] == rows@[k as int]@);
                rows[k].locale == q.locale && rows[k].version == q.version
            },
            None => false,
        };
        if ok && !contains_id(&elig, m.id) {
            let ghost before = elig@;
            elig.push(m.duplicate());
            assert(matches_view(elig@) =~= matches_view(before).push(m@));
        }
        i = i + 1;
    }
    assert(mv.subrange(0, i as int) =~= mv);
    let ghost el = matches_view(elig@);
    proof {
        lemma_eligible_known(rv, q.locale@, q.version@, mv);
    }
    let mut at: Vec<usize> = Vec::new();
    let mut j: usize = 0;
    while j < elig.len()
        invariant
            rv == rows_view(rows@),
            el == matches_view(elig@),
            el == eligible(rv, q.locale@, q.version@, mv),
            forall|t: int| 0 <= t < el.len() ==> known(rv, q.locale@, q.version@, (#[trigger] el[t]).id),
            j <= elig@.len(),
            at@.len() == j,
            forall|t: int|
                0 <= t < j ==> first_with_id(rv, elig@[t].id, rows@.len() as int) == Some(
                    #[trigger] at@[t] as int,
                ),
            forall|t: int| 0 <= t < j ==> #[trigger] at@[t] < rows@.len(),
        decreases elig@.len() - j,
    {
        assert(el[j as int].id == elig@[j as int].id);
        assert(known(rv, q.locale@, q.version@, el[j as int].id));
        let k = match find_id(rows, elig[j].id) {
            Some(k) => k,
            None => 0,
        };
        at.push(k);
        j = j + 1;
    }
    let elig = order(rows, &elig, &at);
    let ghost ev = matches_view(elig@);
    proof {
        lemma_ordered_known(rv, q.locale@, q.version@, el);
    }
    let n = elig.len();
    let off = q.offset();
    let lo: usize = if off < n as u64 {
        off as usize
    } else {
        n
    };
    let hi: usize = match q.page_size {
        Some(s) => if off >= n as u64 {
            n
        } else if s < (n - lo) as u64 {
            lo + s as usize
        } else {
            n
        },
        None => n,
    };
    let ghost pg = page_of(ev, offset_of(q.page, q.page_size), q.page_size);
    assert(pg =~= ev.subrange(lo as int, hi as int));
    let mut hits: Vec<Hit> = Vec::new();
    let mut k: usize = lo;
    assert(hits_view(hits@) =~= pg.subrange(0, 0).map_values(|m: MatchModel| hit_of(rv, m)));
    while k < hi
        invariant
            rv == rows_view(rows@),
            ev == matches_view(elig@),
            ev == ordered(rv, eligible(rv, q.locale@, q.version@, mv)),
            forall|j: int| 0 <= j < ev.len() ==> known(rv, q.locale@, q.version@, (#[trigger] ev[j]).id),
            lo <= k <= hi <= ev.len(),
            pg == ev.subrange(lo as int, hi as int),
            hits_view(hits@) == pg.subrange(0, k - lo).map_values(|m: MatchModel| hit_of(rv, m)),
        decreases hi - k,
    {
        assert(ev[k as int] == elig@[k as int]@);
        assert(known(rv, q.locale@, q.version@, ev[k as int].id));
        let h = hit_for(rows, &elig[k]);
        let ghost before = hits@;
        hits.push(h);
        assert(hits_view(hits@) =~= hits_view(before).push(h@));
        assert(pg.subrange(0, k + 1 - lo).map_values(|m: MatchModel| hit_of(rv, m)) =~= pg.subrange(
            0,
            k - lo,
        ).map_values(|m: MatchModel| hit_of(rv, m)).push(hit_of(rv, ev[k as int])));
        k = k + 1;
    }
    assert(pg.subrange(0, hi - lo) =~= pg);
    hits
}

/// A request whose search term is missing or empty gets no hits, whatever
/// its partition, its page and what the storage holds.
pub proof fn lemma_blank_term_gets_nothing(
    search: Option<String>,
    locale: Seq<char>,
    version: Seq<char>,
    page: u64,
    page_size: Option<u64>,
    rows: Seq<RowModel>,
    ms: Seq<MatchModel>,
)
    requires
        match search {
            Some(s) => s@.len() == 0,
            None => true,
        },
    ensures
        hits_for(term_of(search), locale, version, page, page_size, rows, ms) == Seq::<
            HitModel,
        >::empty(),
{
}

} // verus!
