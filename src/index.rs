//! The index publisher: a staging area and a live table of rows, both
//! partitioned by (locale, version), with promotion from one to the other.
use vstd::prelude::*;

use crate::hierarchy::{opt_int, parent_of, resolve_parents};
use crate::kind::Kind;
use crate::units::{DocModel, Document, UnitModel, units_view, wf_units};

verus! {

/// A stored row, mathematically.
pub struct RowModel {
    pub id: u64,
    pub pid: u64,
    pub group: Seq<char>,
    pub kind: Kind,
    pub content: Seq<char>,
    pub locale: Seq<char>,
    pub version: Seq<char>,
}

/// One stored content unit: its id, its parent's id (`0` for the document
/// root), its document and its partition.
pub struct Row {
    pub id: u64,
    pub pid: u64,
    pub group: String,
    pub kind: Kind,
    pub content: String,
    pub locale: String,
    pub version: String,
}

impl View for Row {
    type V = RowModel;

    open spec fn view(&self) -> RowModel {
        RowModel {
            id: self.id,
            pid: self.pid,
            group: self.group@,
            kind: self.kind,
            content: self.content@,
            locale: self.locale@,
            version: self.version@,
        }
    }
}

impl Row {
    pub fn duplicate(&self) -> (r: Row)
        ensures
            r@ == self@,
    {
        Row {
            id: self.id,
            pid: self.pid,
            group: self.group.clone(),
            kind: self.kind,
            content: self.content.clone(),
            locale: self.locale.clone(),
            version: self.version.clone(),
        }
    }
}

pub open spec fn rows_view(s: Seq<Row>) -> Seq<RowModel> {
    s.map_values(|r: Row| r@)
}

/// Membership in the partition (`locale`, `version`).
pub open spec fn in_part(locale: Seq<char>, version: Seq<char>) -> spec_fn(RowModel) -> bool {
    |r: RowModel| r.locale == locale && r.version == version
}

pub open spec fn not_in_part(locale: Seq<char>, version: Seq<char>) -> spec_fn(RowModel) -> bool {
    |r: RowModel| !(r.locale == locale && r.version == version)
}

/// The rows of one partition, in order.
pub open spec fn partition(rows: Seq<RowModel>, locale: Seq<char>, version: Seq<char>) -> Seq<
    RowModel,
> {
    rows.filter(in_part(locale, version))
}

/// The rows of every other partition, in order.
pub open spec fn outside(rows: Seq<RowModel>, locale: Seq<char>, version: Seq<char>) -> Seq<
    RowModel,
> {
    rows.filter(not_in_part(locale, version))
}

/// A document to publish, mathematically.
pub struct SourceModel {
    pub group: Seq<char>,
    pub doc: DocModel,
}

/// A decomposed document and the group id of the file it came from.
pub struct Source {
    pub group: String,
    pub document: Document,
}

impl View for Source {
    type V = SourceModel;

    open spec fn view(&self) -> SourceModel {
        SourceModel { group: self.group@, doc: self.document@ }
    }
}

pub open spec fn sources_view(s: Seq<Source>) -> Seq<SourceModel> {
    s.map_values(|x: Source| x@)
}

/// Whether the stored row `r` may be the parent of a unit of kind `k` of
/// the document group `group` in the partition: both take part in heading
/// nesting and `r` is structurally shallower.
pub open spec fn may_parent(
    r: RowModel,
    locale: Seq<char>,
    version: Seq<char>,
    group: Seq<char>,
    k: Kind,
) -> bool {
    &&& r.locale == locale
    &&& r.version == version
    &&& r.group == group
    &&& r.kind.nests()
    &&& k.nests()
    &&& r.kind.level() < k.level()
}

/// The id of the last row of `prev` that may be the parent of a unit of
/// kind `k` of the group; `0`, the root, when there is none.
pub open spec fn earlier_parent(
    prev: Seq<RowModel>,
    locale: Seq<char>,
    version: Seq<char>,
    group: Seq<char>,
    k: Kind,
) -> u64
    decreases prev.len(),
{
    if prev.len() == 0 {
        0
    } else if may_parent(prev.last(), locale, version, group, k) {
        prev.last().id
    } else {
        earlier_parent(prev.drop_last(), locale, version, group, k)
    }
}

/// The rows one document gives in a partition, with ids issued from
/// `start` in document order: none for a draft. A unit's parent is the
/// nearest shallower unit of its own document, else the last shallower row
/// of its group already staged in `prev`, else the root.
pub open spec fn doc_rows(
    locale: Seq<char>,
    version: Seq<char>,
    src: SourceModel,
    prev: Seq<RowModel>,
    start: nat,
) -> Seq<RowModel> {
    if src.doc.draft {
        Seq::empty()
    } else {
        Seq::new(
            src.doc.units.len(),
            |i: int|
                RowModel {
                    id: (start + i) as u64,
                    pid: match parent_of(src.doc.units, i) {
                        Some(j) => (start + j) as u64,
                        None => earlier_parent(
                            prev,
                            locale,
                            version,
                            src.group,
                            src.doc.units[i].kind,
                        ),
                    },
                    group: src.group,
                    kind: src.doc.units[i].kind,
                    content: src.doc.units[i].content,
                    locale,
                    version,
                },
        )
    }
}

/// The rows a sequence of documents gives, ids issued from `start`.
pub open spec fn rows_for(
    locale: Seq<char>,
    version: Seq<char>,
    docs: Seq<SourceModel>,
    start: nat,
) -> Seq<RowModel>
    decreases docs.len(),
{
    if docs.len() == 0 {
        Seq::empty()
    } else {
        let prev = rows_for(locale, version, docs.drop_last(), start);
        prev + doc_rows(locale, version, docs.last(), prev, start + prev.len())
    }
}

/// The index, mathematically.
pub struct IndexModel {
    pub next_id: u64,
    pub staging: Seq<RowModel>,
    pub live: Seq<RowModel>,
}

/// The index after a successful publication of `docs` into a partition:
/// the partition's staging and live rows are both exactly the new rows.
pub open spec fn published(
    s: IndexModel,
    locale: Seq<char>,
    version: Seq<char>,
    docs: Seq<SourceModel>,
) -> IndexModel {
    let new_rows = rows_for(locale, version, docs, s.next_id as nat);
    IndexModel {
        next_id: (s.next_id + new_rows.len()) as u64,
        staging: outside(s.staging, locale, version) + new_rows,
        live: outside(s.live, locale, version) + new_rows,
    }
}

/// Whether publishing `docs` stays within the id space.
pub open spec fn fits(s: IndexModel, locale: Seq<char>, version: Seq<char>, docs: Seq<SourceModel>) -> bool {
    s.next_id + rows_for(locale, version, docs, s.next_id as nat).len() <= u64::MAX
}

pub open spec fn wf_sources(docs: Seq<SourceModel>) -> bool {
    forall|i: int| 0 <= i < docs.len() ==> wf_units(#[trigger] docs[i].doc.units)
}

/// Why a publication failed.
#[derive(Clone, Copy, Debug, PartialEq, Eq, Structural)]
pub enum PublishError {
    /// Issuing an id to every unit would pass the largest id.
    IdsExhausted,
}

/// The staging area and the live table.
pub struct Index {
    next_id: u64,
    staging: Vec<Row>,
    live: Vec<Row>,
}

impl View for Index {
    type V = IndexModel;

    closed spec fn view(&self) -> IndexModel {
        IndexModel {
            next_id: self.next_id,
            staging: rows_view(self.staging@),
            live: rows_view(self.live@),
        }
    }
}

/// Ids are issued from `1` up: `0` stands for the document root.
pub open spec fn wf_index(s: IndexModel) -> bool {
    s.next_id >= 1
}

/// The rows of the partition when `inside`, else the rows of every other
/// partition, in order.
fn keep(rows: &Vec<Row>, locale: &String, version: &String, inside: bool) -> (r: Vec<Row>)
    ensures
        rows_view(r@) == if inside {
            partition(rows_view(rows@), locale@, version@)
        } else {
            outside(rows_view(rows@), locale@, version@)
        },
{
    let ghost rv = rows_view(rows@);
    let ghost pred = if inside {
        in_part(locale@, version@)
    } else {
        not_in_part(locale@, version@)
    };
    let mut r: Vec<Row> = Vec::new();
    let mut i: usize = 0;
    proof {
        reveal(Seq::filter);
    }
    assert(rv.subrange(0, 0).filter(pred) =~= Seq::<RowModel>::empty());
    while i < rows.len()
        invariant
            rv == rows_view(rows@),
            pred == (if inside {
                in_part(locale@, version@)
            } else {
                not_in_part(locale@, version@)
            }),
            i <= rows@.len(),
            rows_view(r@) == rv.subrange(0, i as int).filter(pred),
        decreases rows@.len() - i,
    {
        assert(rv.subrange(0, i + 1).drop_last() =~= rv.subrange(0, i as int));
        assert(rv.subrange(0, i + 1).last() == rows@[i as int]@);
        proof {
            let sub = rv.subrange(0, i + 1);
            reveal(Seq::filter);
            assert(sub.filter(pred) == (if pred(sub.last()) {
                sub.drop_last().filter(pred).push(sub.last())
            } else {
                sub.drop_last().filter(pred)
            }));
        }
        let row = &rows[i];
        let here = row.locale == *locale && row.version == *version;
        if here == inside {
            let ghost before = r@;
            r.push(row.duplicate());
            assert(rows_view(r@) =~= rows_view(before).push(row@));
        }
        i = i + 1;
    }
    assert(rv.subrange(0, i as int) =~= rv);
    r
}

proof fn lemma_no_parent_for_root_kinds(
    prev: Seq<RowModel>,
    locale: Seq<char>,
    version: Seq<char>,
    group: Seq<char>,
    k: Kind,
)
    requires
        !k.nests(),
    ensures
        earlier_parent(prev, locale, version, group, k) == 0,
    decreases prev.len(),
{
    if prev.len() > 0 {
        lemma_no_parent_for_root_kinds(prev.drop_last(), locale, version, group, k);
    }
}

/// The id of the last row that may be the parent of a unit of kind `k` of
/// the group, or `0`.
fn earlier_parent_id(
    rows: &Vec<Row>,
    locale: &String,
    version: &String,
    group: &String,
    k: Kind,
) -> (r: u64)
    ensures
        r == earlier_parent(rows_view(rows@), locale@, version@, group@, k),
{
    let ghost rv = rows_view(rows@);
    if !k.nests_in_hierarchy() {
        proof {
            lemma_no_parent_for_root_kinds(rv, locale@, version@, group@, k);
        }
        return 0;
    }
    let lk = k.level_of();
    let mut j: usize = rows.len();
    assert(rv.subrange(0, j as int) =~= rv);
    while j > 0
        invariant
            rv == rows_view(rows@),
            j <= rows@.len(),
            k.nests(),
            lk as nat == k.level(),
            earlier_parent(rv.subrange(0, j as int), locale@, version@, group@, k)
                == earlier_parent(rv, locale@, version@, group@, k),
        decreases j,
    {
        let r = &rows[j - 1];
        let ghost sub = rv.subrange(0, j as int);
        assert(sub.last() == r@);
        assert(sub.drop_last() =~= rv.subrange(0, j - 1));
        if r.locale == *locale && r.version == *version && r.group == *group
            && r.kind.nests_in_hierarchy() && r.kind.level_of() < lk {
            return r.id;
        }
        j = j - 1;
    }
    0
}

pub open spec fn all_outside(rows: Seq<RowModel>, locale: Seq<char>, version: Seq<char>) -> bool {
    forall|i: int|
        0 <= i < rows.len() ==> !((#[trigger] rows[i]).locale == locale && rows[i].version == version)
}

proof fn lemma_outside_all_outside(rows: Seq<RowModel>, locale: Seq<char>, version: Seq<char>)
    ensures
        all_outside(outside(rows, locale, version), locale, version),
{
    let o = outside(rows, locale, version);
    assert forall|i: int| 0 <= i < o.len() implies !((#[trigger] o[i]).locale == locale
        && o[i].version == version) by {
        rows.lemma_filter_pred(not_in_part(locale, version), i);
    }
}

proof fn lemma_no_parent_outside(
    rows: Seq<RowModel>,
    locale: Seq<char>,
    version: Seq<char>,
    group: Seq<char>,
    k: Kind,
)
    requires
        all_outside(rows, locale, version),
    ensures
        earlier_parent(rows, locale, version, group, k) == 0,
    decreases rows.len(),
{
    if rows.len() > 0 {
        let d = rows.drop_last();
        assert forall|i: int| 0 <= i < d.len() implies !((#[trigger] d[i]).locale == locale
            && d[i].version == version) by {
            assert(d[i] == rows[i]);
        }
        lemma_no_parent_outside(d, locale, version, group, k);
    }
}

/// Rows of other partitions before `p` never change a parent found in `p`.
proof fn lemma_parent_skips_outside(
    staged: Seq<RowModel>,
    p: Seq<RowModel>,
    locale: Seq<char>,
    version: Seq<char>,
    group: Seq<char>,
    k: Kind,
)
    requires
        all_outside(staged, locale, version),
    ensures
        earlier_parent(staged + p, locale, version, group, k) == earlier_parent(
            p,
            locale,
            version,
            group,
            k,
        ),
    decreases p.len(),
{
    if p.len() == 0 {
        assert(staged + p =~= staged);
        lemma_no_parent_outside(staged, locale, version, group, k);
    } else {
        assert((staged + p).drop_last() =~= staged + p.drop_last());
        assert((staged + p).last() == p.last());
        lemma_parent_skips_outside(staged, p.drop_last(), locale, version, group, k);
    }
}

proof fn lemma_rows_view_add(a: Seq<Row>, b: Seq<Row>)
    ensures
        rows_view(a + b) == rows_view(a) + rows_view(b),
{
    assert(rows_view(a + b) =~= rows_view(a) + rows_view(b));
}

impl Index {
    /// An empty index whose first issued id is `first_id`.
    pub fn new(first_id: u64) -> (r: Index)
        requires
            first_id >= 1,
        ensures
            r@ == (IndexModel { next_id: first_id, staging: Seq::empty(), live: Seq::empty() }),
            wf_index(r@),
    {
        let r = Index { next_id: first_id, staging: Vec::new(), live: Vec::new() };
        assert(r@.staging =~= Seq::<RowModel>::empty());
        assert(r@.live =~= Seq::<RowModel>::empty());
        r
    }

    /// The id the next stored unit gets.
    pub fn next_id(&self) -> (r: u64)
        ensures
            r == self@.next_id,
    {
        self.next_id
    }

    /// The live table, which queries read.
    pub fn live_rows(&self) -> (r: &Vec<Row>)
        ensures
            rows_view(r@) == self@.live,
    {
        &self.live
    }

    /// The live rows of one partition, in order.
    pub fn live_partition(&self, locale: &String, version: &String) -> (r: Vec<Row>)
        ensures
            rows_view(r@) == partition(self@.live, locale@, version@),
    {
        keep(&self.live, locale, version, true)
    }

    /// Step one of a publication: empties the partition's staging rows.
    pub fn begin(&mut self, locale: &String, version: &String)
        ensures
            final(self)@ == (IndexModel {
                staging: outside(old(self)@.staging, locale@, version@),
                ..old(self)@
            }),
    {
        self.staging = keep(&self.staging, locale, version, false);
    }

    /// Step two, for one document: stages its rows with freshly issued ids
    /// and resolved parents. A draft stages nothing.
    pub fn stage(&mut self, locale: &String, version: &String, src: &Source) -> (r: Result<
        (),
        PublishError,
    >)
        requires
            wf_index(old(self)@),
            wf_units(src@.doc.units),
        ensures
            wf_index(final(self)@),
            r is Ok <==> old(self)@.next_id + doc_rows(
                locale@,
                version@,
                src@,
                old(self)@.staging,
                old(self)@.next_id as nat,
            ).len() <= u64::MAX,
            r is Ok ==> final(self)@ == (IndexModel {
                next_id: (old(self)@.next_id + doc_rows(
                    locale@,
                    version@,
                    src@,
                    old(self)@.staging,
                    old(self)@.next_id as nat,
                ).len()) as u64,
                staging: old(self)@.staging + doc_rows(
                    locale@,
                    version@,
                    src@,
                    old(self)@.staging,
                    old(self)@.next_id as nat,
                ),
                ..old(self)@
            }),
            r is Err ==> final(self)@ == old(self)@,
    {
        let ghost rows = doc_rows(locale@, version@, src@, self@.staging, self.next_id as nat);
        if src.document.draft {
            assert(old(self)@.staging + rows =~= old(self)@.staging);
            return Ok(());
        }
        let units = &src.document.units;
        let ghost us = src@.doc.units;
        let n = units.len();
        if n as u64 > u64::MAX - self.next_id {
            return Err(PublishError::IdsExhausted);
        }
        let parents = resolve_parents(units);
        let start = self.next_id;
        let mut outer: Vec<u64> = Vec::new();
        let mut i: usize = 0;
        while i < n
            invariant
                n == units@.len() == us.len() == parents@.len(),
                units@ == src.document.units@,
                us == src@.doc.units,
                self@ == old(self)@,
                i <= n,
                outer@.len() == i,
                forall|k: int|
                    0 <= k < i && parents@[k] is None ==> #[trigger] outer@[k] == earlier_parent(
                        old(self)@.staging,
                        locale@,
                        version@,
                        src@.group,
                        us[k].kind,
                    ),
            decreases n - i,
        {
            assert(units_view(units@)[i as int] == units@[i as int]@);
            let id = if parents[i].is_none() {
                earlier_parent_id(&self.staging, locale, version, &src.group, units[i].kind)
            } else {
                0
            };
            outer.push(id);
            i = i + 1;
        }
        let mut i: usize = 0;
        while i < n
            invariant
                n == units@.len() == us.len() == parents@.len(),
                units@ == src.document.units@,
                us == src@.doc.units,
                !src@.doc.draft,
                start == old(self)@.next_id,
                start + n <= u64::MAX,
                start >= 1,
                self.next_id == start,
                self.live == old(self).live,
                rows == doc_rows(locale@, version@, src@, old(self)@.staging, start as nat),
                i <= n,
                forall|k: int|
                    0 <= k < parents@.len() ==> opt_int(#[trigger] parents@[k]) == parent_of(us, k),
                outer@.len() == n,
                forall|k: int|
                    0 <= k < n && parents@[k] is None ==> #[trigger] outer@[k] == earlier_parent(
                        old(self)@.staging,
                        locale@,
                        version@,
                        src@.group,
                        us[k].kind,
                    ),
                rows_view(self.staging@) == old(self)@.staging + rows.subrange(0, i as int),
            decreases n - i,
        {
            proof {
                crate::hierarchy::lemma_parent_is_nearest_shallower(us, i as int);
                assert(opt_int(parents@[i as int]) == parent_of(us, i as int));
                assert(units_view(units@)[i as int] == units@[i as int]@);
            }
            let pid = match parents[i] {
                Some(j) => start + j as u64,
                None => outer[i],
            };
            let row = Row {
                id: start + i as u64,
                pid,
                group: src.group.clone(),
                kind: units[i].kind,
                content: units[i].content.clone(),
                locale: locale.clone(),
                version: version.clone(),
            };
            assert(row@ == rows[i as int]);
            let ghost before = self.staging@;
            self.staging.push(row);
            assert(rows_view(self.staging@) =~= rows_view(before).push(row@));
            assert(rows.subrange(0, i + 1) =~= rows.subrange(0, i as int).push(rows[i as int]));
            i = i + 1;
        }
        assert(rows.subrange(0, n as int) =~= rows);
        self.next_id = start + n as u64;
        Ok(())
    }

    /// Step three: replaces the partition's live rows with its staging rows
    /// in one step.
    pub fn promote(&mut self, locale: &String, version: &String)
        ensures
            final(self)@ == (IndexModel {
                live: outside(old(self)@.live, locale@, version@) + partition(
                    old(self)@.staging,
                    locale@,
                    version@,
                ),
                ..old(self)@
            }),
    {
        let mut live = keep(&self.live, locale, version, false);
        let mut fresh = keep(&self.staging, locale, version, true);
        proof {
            lemma_rows_view_add(live@, fresh@);
        }
        live.append(&mut fresh);
        self.live = live;
    }
}

proof fn lemma_filter_all<A>(s: Seq<A>, p: spec_fn(A) -> bool)
    requires
        forall|i: int| 0 <= i < s.len() ==> p(#[trigger] s[i]),
    ensures
        s.filter(p) == s,
    decreases s.len(),
{
    reveal(Seq::filter);
    if s.len() > 0 {
        lemma_filter_all(s.drop_last(), p);
        assert(s.drop_last().push(s.last()) =~= s);
    }
}

proof fn lemma_filter_none<A>(s: Seq<A>, p: spec_fn(A) -> bool)
    requires
        forall|i: int| 0 <= i < s.len() ==> !p(#[trigger] s[i]),
    ensures
        s.filter(p) == Seq::<A>::empty(),
    decreases s.len(),
{
    reveal(Seq::filter);
    if s.len() > 0 {
        lemma_filter_none(s.drop_last(), p);
    }
}

/// Filtering by `p` and then by a stronger `q` is filtering by `q`.
proof fn lemma_filter_stronger<A>(s: Seq<A>, p: spec_fn(A) -> bool, q: spec_fn(A) -> bool)
    requires
        forall|a: A| #[trigger] q(a) ==> p(a),
    ensures
        s.filter(p).filter(q) == s.filter(q),
    decreases s.len(),
{
    reveal(Seq::filter);
    if s.len() > 0 {
        lemma_filter_stronger(s.drop_last(), p, q);
        let f = s.drop_last().filter(p);
        assert(f.push(s.last()).drop_last() =~= f);
    }
}

proof fn lemma_rows_for_in_part(
    locale: Seq<char>,
    version: Seq<char>,
    docs: Seq<SourceModel>,
    start: nat,
)
    ensures
        forall|i: int|
            0 <= i < rows_for(locale, version, docs, start).len() ==> {
                &&& (#[trigger] rows_for(locale, version, docs, start)[i]).locale == locale
                &&& rows_for(locale, version, docs, start)[i].version == version
            },
    decreases docs.len(),
{
    if docs.len() > 0 {
        lemma_rows_for_in_part(locale, version, docs.drop_last(), start);
    }
}

/// The rows of a prefix of the documents are no more than those of all.
proof fn lemma_rows_for_prefix(
    locale: Seq<char>,
    version: Seq<char>,
    docs: Seq<SourceModel>,
    start: nat,
    k: int,
)
    requires
        0 <= k <= docs.len(),
    ensures
        rows_for(locale, version, docs.subrange(0, k), start).len() <= rows_for(
            locale,
            version,
            docs,
            start,
        ).len(),
    decreases docs.len(),
{
    if k < docs.len() {
        assert(docs.drop_last().subrange(0, k) =~= docs.subrange(0, k));
        lemma_rows_for_prefix(locale, version, docs.drop_last(), start, k);
    } else {
        assert(docs.subrange(0, k) =~= docs);
    }
}

/// New rows of the partition replace exactly its old rows.
proof fn lemma_partition_replaced(
    old_rows: Seq<RowModel>,
    new_rows: Seq<RowModel>,
    locale: Seq<char>,
    version: Seq<char>,
)
    requires
        forall|i: int|
            0 <= i < new_rows.len() ==> (#[trigger] new_rows[i]).locale == locale
                && new_rows[i].version == version,
    ensures
        partition(outside(old_rows, locale, version) + new_rows, locale, version) == new_rows,
{
    let rest = outside(old_rows, locale, version);
    Seq::filter_distributes_over_add(rest, new_rows, in_part(locale, version));
    lemma_filter_none_of_outside(old_rows, locale, version);
    lemma_filter_all(new_rows, in_part(locale, version));
    assert(partition(rest + new_rows, locale, version) =~= new_rows);
}

/// Replacing one partition's rows leaves another partition's rows as they
/// were.
proof fn lemma_partition_other(
    old_rows: Seq<RowModel>,
    new_rows: Seq<RowModel>,
    locale: Seq<char>,
    version: Seq<char>,
    l2: Seq<char>,
    v2: Seq<char>,
)
    requires
        forall|i: int|
            0 <= i < new_rows.len() ==> (#[trigger] new_rows[i]).locale == locale
                && new_rows[i].version == version,
        !(l2 == locale && v2 == version),
    ensures
        partition(outside(old_rows, locale, version) + new_rows, l2, v2) == partition(
            old_rows,
            l2,
            v2,
        ),
{
    let rest = outside(old_rows, locale, version);
    Seq::filter_distributes_over_add(rest, new_rows, in_part(l2, v2));
    assert forall|a: RowModel| #[trigger] in_part(l2, v2)(a) implies not_in_part(locale, version)(
        a,
    ) by {}
    lemma_filter_stronger(old_rows, not_in_part(locale, version), in_part(l2, v2));
    lemma_filter_none(new_rows, in_part(l2, v2));
    assert(partition(rest + new_rows, l2, v2) =~= partition(old_rows, l2, v2));
}

proof fn lemma_filter_none_of_outside(rows: Seq<RowModel>, locale: Seq<char>, version: Seq<char>)
    ensures
        outside(rows, locale, version).filter(in_part(locale, version)) == Seq::<RowModel>::empty(),
    decreases rows.len(),
{
    reveal(Seq::filter);
    if rows.len() > 0 {
        lemma_filter_none_of_outside(rows.drop_last(), locale, version);
        let f = outside(rows.drop_last(), locale, version);
        assert(f.push(rows.last()).drop_last() =~= f);
    }
}

/// Publishing into one partition leaves every other partition's live and
/// staging rows exactly as they were.
pub proof fn lemma_publish_isolates_partitions(
    s: IndexModel,
    locale: Seq<char>,
    version: Seq<char>,
    docs: Seq<SourceModel>,
    other_locale: Seq<char>,
    other_version: Seq<char>,
)
    requires
        !(other_locale == locale && other_version == version),
    ensures
        partition(published(s, locale, version, docs).live, other_locale, other_version)
            == partition(s.live, other_locale, other_version),
        partition(published(s, locale, version, docs).staging, other_locale, other_version)
            == partition(s.staging, other_locale, other_version),
{
    let new_rows = rows_for(locale, version, docs, s.next_id as nat);
    lemma_rows_for_in_part(locale, version, docs, s.next_id as nat);
    lemma_partition_other(s.live, new_rows, locale, version, other_locale, other_version);
    lemma_partition_other(s.staging, new_rows, locale, version, other_locale, other_version);
}

/// Staging a document after other partitions' rows gives the rows it
/// gives after the partition's own rows alone.
proof fn lemma_stage_after_others(
    old_staging: Seq<RowModel>,
    prefix: Seq<RowModel>,
    locale: Seq<char>,
    version: Seq<char>,
    src: SourceModel,
    start: nat,
)
    ensures
        doc_rows(locale, version, src, outside(old_staging, locale, version) + prefix, start)
            == doc_rows(locale, version, src, prefix, start),
{
    let staged = outside(old_staging, locale, version);
    lemma_outside_all_outside(old_staging, locale, version);
    assert forall|k: Kind| #[trigger] earlier_parent(
        staged + prefix,
        locale,
        version,
        src.group,
        k,
    ) == earlier_parent(prefix, locale, version, src.group, k) by {
        lemma_parent_skips_outside(staged, prefix, locale, version, src.group, k);
    }
    assert(doc_rows(locale, version, src, staged + prefix, start) =~= doc_rows(
        locale,
        version,
        src,
        prefix,
        start,
    ));
}

/// Replacing a partition's staging rows by some of its new rows leaves the
/// other partitions' staging rows as they were.
proof fn lemma_prefix_keeps_others(
    old_staging: Seq<RowModel>,
    locale: Seq<char>,
    version: Seq<char>,
    docs: Seq<SourceModel>,
    start: nat,
)
    ensures
        forall|l2: Seq<char>, v2: Seq<char>|
            !(l2 == locale && v2 == version) ==> #[trigger] partition(
                outside(old_staging, locale, version) + rows_for(locale, version, docs, start),
                l2,
                v2,
            ) == partition(old_staging, l2, v2),
{
    lemma_rows_for_in_part(locale, version, docs, start);
    assert forall|l2: Seq<char>, v2: Seq<char>| !(l2 == locale && v2 == version) implies #[trigger] partition(
        outside(old_staging, locale, version) + rows_for(locale, version, docs, start),
        l2,
        v2,
    ) == partition(old_staging, l2, v2) by {
        lemma_partition_other(
            old_staging,
            rows_for(locale, version, docs, start),
            locale,
            version,
            l2,
            v2,
        );
    }
}

proof fn lemma_published_keeps_others(
    s: IndexModel,
    locale: Seq<char>,
    version: Seq<char>,
    docs: Seq<SourceModel>,
)
    ensures
        forall|l2: Seq<char>, v2: Seq<char>|
            !(l2 == locale && v2 == version) ==> #[trigger] partition(
                published(s, locale, version, docs).live,
                l2,
                v2,
            ) == partition(s.live, l2, v2),
        forall|l2: Seq<char>, v2: Seq<char>|
            !(l2 == locale && v2 == version) ==> #[trigger] partition(
                published(s, locale, version, docs).staging,
                l2,
                v2,
            ) == partition(s.staging, l2, v2),
{
    assert forall|l2: Seq<char>, v2: Seq<char>| !(l2 == locale && v2 == version) implies #[trigger] partition(
        published(s, locale, version, docs).live,
        l2,
        v2,
    ) == partition(s.live, l2, v2) by {
        lemma_publish_isolates_partitions(s, locale, version, docs, l2, v2);
    }
    assert forall|l2: Seq<char>, v2: Seq<char>| !(l2 == locale && v2 == version) implies #[trigger] partition(
        published(s, locale, version, docs).staging,
        l2,
        v2,
    ) == partition(s.staging, l2, v2) by {
        lemma_publish_isolates_partitions(s, locale, version, docs, l2, v2);
    }
}

impl Index {
    /// Rebuilds the partition (`locale`, `version`) from `sources`: empties
    /// its staging rows, stages every document that is not a draft, then
    /// promotes. When ids run out nothing is promoted and the live table is
    /// left as it was.
    #[verifier::rlimit(40)]
    pub fn publish(&mut self, locale: &String, version: &String, sources: &Vec<Source>) -> (r:
        Result<(), PublishError>)
        requires
            wf_index(old(self)@),
            wf_sources(sources_view(sources@)),
        ensures
            wf_index(final(self)@),
            r is Ok <==> fits(old(self)@, locale@, version@, sources_view(sources@)),
            r is Ok ==> final(self)@ == published(
                old(self)@,
                locale@,
                version@,
                sources_view(sources@),
            ),
            r is Err ==> final(self)@.live == old(self)@.live,
            forall|l2: Seq<char>, v2: Seq<char>|
                !(l2 == locale@ && v2 == version@) ==> #[trigger] partition(
                    final(self)@.live,
                    l2,
                    v2,
                ) == partition(old(self)@.live, l2, v2),
            forall|l2: Seq<char>, v2: Seq<char>|
                !(l2 == locale@ && v2 == version@) ==> #[trigger] partition(
                    final(self)@.staging,
                    l2,
                    v2,
                ) == partition(old(self)@.staging, l2, v2),
    {
        let ghost docs = sources_view(sources@);
        let ghost start = self.next_id as nat;
        self.begin(locale, version);
        let ghost staged = self@.staging;
        let mut i: usize = 0;
        assert(docs.subrange(0, 0) =~= Seq::<SourceModel>::empty());
        assert(staged + rows_for(locale@, version@, docs.subrange(0, 0), start) =~= staged);
        while i < sources.len()
            invariant
                docs == sources_view(sources@),
                wf_sources(docs),
                i <= sources@.len(),
                start == old(self)@.next_id,
                wf_index(self@),
                self@.live == old(self)@.live,
                staged == outside(old(self)@.staging, locale@, version@),
                self@.staging == staged + rows_for(locale@, version@, docs.subrange(0, i as int), start),
                self@.next_id == start + rows_for(
                    locale@,
                    version@,
                    docs.subrange(0, i as int),
                    start,
                ).len(),
            decreases sources@.len() - i,
        {
            let ghost prefix = rows_for(locale@, version@, docs.subrange(0, i as int), start);
            assert(docs.subrange(0, i + 1).drop_last() =~= docs.subrange(0, i as int));
            assert(docs.subrange(0, i + 1).last() == sources@[i as int]@);
            assert(wf_units(docs[i as int].doc.units));
            proof {
                lemma_stage_after_others(
                    old(self)@.staging,
                    prefix,
                    locale@,
                    version@,
                    docs[i as int],
                    start + prefix.len(),
                );
            }
            let r = self.stage(locale, version, &sources[i]);
            if r.is_err() {
                proof {
                    lemma_rows_for_prefix(locale@, version@, docs, start, i + 1);
                    lemma_prefix_keeps_others(
                        old(self)@.staging,
                        locale@,
                        version@,
                        docs.subrange(0, i as int),
                        start,
                    );
                }
                return Err(PublishError::IdsExhausted);
            }
            assert(self@.staging =~= staged + rows_for(
                locale@,
                version@,
                docs.subrange(0, i + 1),
                start,
            ));
            i = i + 1;
        }
        assert(docs.subrange(0, i as int) =~= docs);
        let ghost new_rows = rows_for(locale@, version@, docs, start);
        self.promote(locale, version);
        proof {
            lemma_rows_for_in_part(locale@, version@, docs, start);
            lemma_partition_replaced(old(self)@.staging, new_rows, locale@, version@);
        }
        assert(self@ == published(old(self)@, locale@, version@, docs));
        proof {
            lemma_published_keeps_others(old(self)@, locale@, version@, docs);
        }
        Ok(())
    }
}

/// What a row holds apart from its ids.
pub open spec fn content_of(r: RowModel) -> (Seq<char>, Kind, Seq<char>, Seq<char>, Seq<char>) {
    (r.group, r.kind, r.content, r.locale, r.version)
}

pub open spec fn contents(rows: Seq<RowModel>) -> Seq<
    (Seq<char>, Kind, Seq<char>, Seq<char>, Seq<char>),
> {
    rows.map_values(|r: RowModel| content_of(r))
}

proof fn lemma_rows_for_contents(
    locale: Seq<char>,
    version: Seq<char>,
    docs: Seq<SourceModel>,
    a: nat,
    b: nat,
)
    ensures
        contents(rows_for(locale, version, docs, a)) == contents(rows_for(locale, version, docs, b)),
    decreases docs.len(),
{
    if docs.len() > 0 {
        let rest = docs.drop_last();
        lemma_rows_for_contents(locale, version, rest, a, b);
        let pa = rows_for(locale, version, rest, a);
        let pb = rows_for(locale, version, rest, b);
        assert(contents(pa).len() == pa.len());
        assert(contents(pb).len() == pb.len());
        let da = doc_rows(locale, version, docs.last(), pa, a + pa.len());
        let db = doc_rows(locale, version, docs.last(), pb, b + pb.len());
        assert(contents(da) =~= contents(db));
        assert(contents(pa + da) =~= contents(pa) + contents(da));
        assert(contents(pb + db) =~= contents(pb) + contents(db));
    }
}

/// Whatever the index held before, publishing the same documents into a
/// partition leaves that partition with the same rows, ids aside.
pub proof fn lemma_publish_content_is_input_determined(
    s1: IndexModel,
    s2: IndexModel,
    locale: Seq<char>,
    version: Seq<char>,
    docs: Seq<SourceModel>,
)
    ensures
        contents(partition(published(s1, locale, version, docs).live, locale, version)) == contents(
            partition(published(s2, locale, version, docs).live, locale, version),
        ),
{
    lemma_rows_for_in_part(locale, version, docs, s1.next_id as nat);
    lemma_rows_for_in_part(locale, version, docs, s2.next_id as nat);
    lemma_partition_replaced(
        s1.live,
        rows_for(locale, version, docs, s1.next_id as nat),
        locale,
        version,
    );
    lemma_partition_replaced(
        s2.live,
        rows_for(locale, version, docs, s2.next_id as nat),
        locale,
        version,
    );
    lemma_rows_for_contents(locale, version, docs, s1.next_id as nat, s2.next_id as nat);
}

proof fn lemma_rows_for_skip_draft(
    locale: Seq<char>,
    version: Seq<char>,
    docs: Seq<SourceModel>,
    k: int,
    d: SourceModel,
    start: nat,
)
    requires
        d.doc.draft,
        0 <= k <= docs.len(),
    ensures
        rows_for(locale, version, docs.insert(k, d), start) == rows_for(locale, version, docs, start),
    decreases docs.len(),
{
    let ins = docs.insert(k, d);
    if k == docs.len() {
        assert(ins.drop_last() =~= docs);
        assert(ins.last() == d);
        assert(rows_for(locale, version, docs, start) + Seq::<RowModel>::empty() =~= rows_for(
            locale,
            version,
            docs,
            start,
        ));
    } else {
        assert(ins.drop_last() =~= docs.drop_last().insert(k, d));
        assert(ins.last() == docs.last());
        lemma_rows_for_skip_draft(locale, version, docs.drop_last(), k, d, start);
    }
}

/// A draft document, wherever it stands among the documents, adds no row
/// to the partition and uses no id.
pub proof fn lemma_draft_publishes_nothing(
    s: IndexModel,
    locale: Seq<char>,
    version: Seq<char>,
    docs: Seq<SourceModel>,
    k: int,
    draft: SourceModel,
)
    requires
        draft.doc.draft,
        0 <= k <= docs.len(),
    ensures
        published(s, locale, version, docs.insert(k, draft)) == published(s, locale, version, docs),
{
    lemma_rows_for_skip_draft(locale, version, docs, k, draft, s.next_id as nat);
}

/// Published, a document whose only headings are an h2, an h3 and an h2
/// stores the h3 under the first h2 and the second h2 at the root, unless an
/// earlier file of its group already holds a shallower heading (an h1),
/// which the second h2 then hangs from.
pub proof fn lemma_published_two_three_two(
    locale: Seq<char>,
    version: Seq<char>,
    src: SourceModel,
    prev: Seq<RowModel>,
    start: nat,
    a: int,
    b: int,
    c: int,
)
    requires
        !src.doc.draft,
        0 <= a < b < c < src.doc.units.len(),
        src.doc.units[a].kind == Kind::Heading(2),
        src.doc.units[b].kind == Kind::Heading(3),
        src.doc.units[c].kind == Kind::Heading(2),
        forall|k: int|
            0 <= k < src.doc.units.len() && k != a && k != b && k != c ==> !((
            #[trigger] src.doc.units[k]).kind is Heading),
        earlier_parent(prev, locale, version, src.group, Kind::Heading(2)) == 0,
    ensures
        doc_rows(locale, version, src, prev, start)[b].pid == doc_rows(
            locale,
            version,
            src,
            prev,
            start,
        )[a].id,
        doc_rows(locale, version, src, prev, start)[c].pid == 0,
{
    crate::hierarchy::lemma_two_three_two(src.doc.units, a, b, c);
}

/// An id moved by `d`; `0`, the root, stays.
pub open spec fn shift_id(x: u64, d: int) -> u64 {
    if x == 0 {
        0
    } else {
        (x + d) as u64
    }
}

/// A row whose id and parent id are moved by `d`: the same row, with the
/// same parent, in an index that issued its ids `d` later.
pub open spec fn shifted(r: RowModel, d: int) -> RowModel {
    RowModel { id: shift_id(r.id, d), pid: shift_id(r.pid, d), ..r }
}

proof fn lemma_rows_for_ids(locale: Seq<char>, version: Seq<char>, docs: Seq<SourceModel>, a: nat)
    ensures
        forall|i: int|
            0 <= i < rows_for(locale, version, docs, a).len() ==> (#[trigger] rows_for(
                locale,
                version,
                docs,
                a,
            )[i]).id == (a + i) as u64,
    decreases docs.len(),
{
    if docs.len() > 0 {
        lemma_rows_for_ids(locale, version, docs.drop_last(), a);
        let pa = rows_for(locale, version, docs.drop_last(), a);
        let all = rows_for(locale, version, docs, a);
        assert forall|i: int| 0 <= i < all.len() implies (#[trigger] all[i]).id == (a + i) as u64 by {
            if i < pa.len() {
                assert(all[i] == pa[i]);
            }
        }
    }
}

proof fn lemma_earlier_parent_shift(
    pa: Seq<RowModel>,
    pb: Seq<RowModel>,
    locale: Seq<char>,
    version: Seq<char>,
    group: Seq<char>,
    k: Kind,
    d: int,
)
    requires
        pa.len() == pb.len(),
        forall|i: int| 0 <= i < pa.len() ==> pb[i] == shifted(#[trigger] pa[i], d),
        forall|i: int| 0 <= i < pa.len() ==> (#[trigger] pa[i]).id != 0,
    ensures
        earlier_parent(pb, locale, version, group, k) == shift_id(
            earlier_parent(pa, locale, version, group, k),
            d,
        ),
    decreases pa.len(),
{
    if pa.len() > 0 {
        let da = pa.drop_last();
        let db = pb.drop_last();
        assert(pb.last() == shifted(pa.last(), d));
        assert forall|i: int| 0 <= i < da.len() implies db[i] == shifted(#[trigger] da[i], d) by {
            assert(da[i] == pa[i]);
            assert(db[i] == pb[i]);
        }
        assert forall|i: int| 0 <= i < da.len() implies (#[trigger] da[i]).id != 0 by {
            assert(da[i] == pa[i]);
        }
        lemma_earlier_parent_shift(da, db, locale, version, group, k, d);
    }
}

/// Issuing ids from `b` instead of `a` moves every id and every parent id
/// by `b - a` and changes nothing else.
proof fn lemma_rows_for_shift(
    locale: Seq<char>,
    version: Seq<char>,
    docs: Seq<SourceModel>,
    a: nat,
    b: nat,
)
    requires
        1 <= a,
        1 <= b,
        a + rows_for(locale, version, docs, a).len() <= u64::MAX,
        b + rows_for(locale, version, docs, a).len() <= u64::MAX,
    ensures
        rows_for(locale, version, docs, b).len() == rows_for(locale, version, docs, a).len(),
        forall|i: int|
            0 <= i < rows_for(locale, version, docs, a).len() ==> rows_for(
                locale,
                version,
                docs,
                b,
            )[i] == shifted(#[trigger] rows_for(locale, version, docs, a)[i], b - a),
    decreases docs.len(),
{
    if docs.len() > 0 {
        let rest = docs.drop_last();
        let src = docs.last();
        let pa = rows_for(locale, version, rest, a);
        let pb = rows_for(locale, version, rest, b);
        lemma_rows_for_shift(locale, version, rest, a, b);
        lemma_rows_for_ids(locale, version, rest, a);
        let d = b - a;
        assert forall|i: int| 0 <= i < pa.len() implies (#[trigger] pa[i]).id != 0 by {}
        assert forall|k: Kind| #[trigger] earlier_parent(pb, locale, version, src.group, k)
            == shift_id(earlier_parent(pa, locale, version, src.group, k), d) by {
            lemma_earlier_parent_shift(pa, pb, locale, version, src.group, k, d);
        }
        let da = doc_rows(locale, version, src, pa, a + pa.len());
        let db = doc_rows(locale, version, src, pb, b + pb.len());
        let ra = rows_for(locale, version, docs, a);
        let rb = rows_for(locale, version, docs, b);
        assert forall|i: int| 0 <= i < ra.len() implies rb[i] == shifted(#[trigger] ra[i], d) by {
            if i < pa.len() {
                assert(ra[i] == pa[i]);
                assert(rb[i] == pb[i]);
            } else {
                let t = i - pa.len();
                assert(ra[i] == da[t]);
                assert(rb[i] == db[t]);
                crate::hierarchy::lemma_parent_is_nearest_shallower(src.doc.units, t);
            }
        }
    }
}

proof fn lemma_published_partition(
    s: IndexModel,
    locale: Seq<char>,
    version: Seq<char>,
    docs: Seq<SourceModel>,
)
    ensures
        partition(published(s, locale, version, docs).live, locale, version) == rows_for(
            locale,
            version,
            docs,
            s.next_id as nat,
        ),
{
    lemma_rows_for_in_part(locale, version, docs, s.next_id as nat);
    lemma_partition_replaced(s.live, rows_for(locale, version, docs, s.next_id as nat), locale, version);
}

proof fn lemma_rows_for_len(
    locale: Seq<char>,
    version: Seq<char>,
    docs: Seq<SourceModel>,
    a: nat,
    b: nat,
)
    ensures
        rows_for(locale, version, docs, a).len() == rows_for(locale, version, docs, b).len(),
{
    lemma_rows_for_contents(locale, version, docs, a, b);
    assert(contents(rows_for(locale, version, docs, a)).len() == rows_for(locale, version, docs, a).len());
    assert(contents(rows_for(locale, version, docs, b)).len() == rows_for(locale, version, docs, b).len());
}

/// Publishing the same documents into the same partition twice gives the
/// same rows, with the same parent links: only the ids differ, all moved
/// by the number of ids the first publication issued.
#[verifier::rlimit(50)]
pub proof fn lemma_republish_keeps_rows_and_parents(
    s: IndexModel,
    locale: Seq<char>,
    version: Seq<char>,
    docs: Seq<SourceModel>,
)
    requires
        wf_index(s),
        fits(s, locale, version, docs),
        fits(published(s, locale, version, docs), locale, version, docs),
    ensures
        ({
            let once = published(s, locale, version, docs);
            let first = partition(once.live, locale, version);
            let second = partition(published(once, locale, version, docs).live, locale, version);
            &&& second.len() == first.len()
            &&& forall|i: int|
                0 <= i < first.len() ==> second[i] == shifted(
                    #[trigger] first[i],
                    once.next_id - s.next_id,
                )
        }),
{
    let once = published(s, locale, version, docs);
    let a = s.next_id as nat;
    let b = once.next_id as nat;
    lemma_published_partition(s, locale, version, docs);
    lemma_published_partition(once, locale, version, docs);
    lemma_rows_for_len(locale, version, docs, a, b);
    assert(b == a + rows_for(locale, version, docs, a).len());
    assert(b + rows_for(locale, version, docs, a).len() <= u64::MAX);
    lemma_rows_for_shift(locale, version, docs, a, b);
}

} // verus!
