//! The hierarchy resolver: each unit's parent within its document.
use vstd::prelude::*;

use crate::kind::Kind;
use crate::units::{Unit, UnitModel, units_view, wf_units};

verus! {

/// Whether unit `j` may be the parent of unit `i`: both take part in heading
/// nesting and `j` is structurally shallower.
pub open spec fn shallower(us: Seq<UnitModel>, i: int, j: int) -> bool {
    &&& us[i].kind.nests()
    &&& us[j].kind.nests()
    &&& us[j].kind.level() < us[i].kind.level()
}

/// The last unit before position `n` that may be the parent of unit `i`.
pub open spec fn last_shallower(us: Seq<UnitModel>, i: int, n: int) -> Option<int>
    decreases n,
{
    if n <= 0 {
        None
    } else if shallower(us, i, n - 1) {
        Some(n - 1)
    } else {
        last_shallower(us, i, n - 1)
    }
}

/// The parent of unit `i`: the most recent earlier unit of a shallower
/// level; `None` stands for the document root.
pub open spec fn parent_of(us: Seq<UnitModel>, i: int) -> Option<int> {
    last_shallower(us, i, i)
}

pub open spec fn opt_int(p: Option<usize>) -> Option<int> {
    match p {
        Some(j) => Some(j as int),
        None => None,
    }
}

proof fn lemma_last_shallower(us: Seq<UnitModel>, i: int, n: int)
    requires
        0 <= n <= us.len(),
        0 <= i < us.len(),
    ensures
        match last_shallower(us, i, n) {
            Some(j) => 0 <= j < n && shallower(us, i, j) && forall|k: int|
                j < k < n ==> !shallower(us, i, k),
            None => forall|k: int| 0 <= k < n ==> !shallower(us, i, k),
        },
    decreases n,
{
    if n > 0 {
        lemma_last_shallower(us, i, n - 1);
    }
}

/// The resolved parent is the nearest earlier unit of a strictly shallower
/// level, and the root exactly when no earlier unit is shallower; title and
/// summary always hang from the root.
pub proof fn lemma_parent_is_nearest_shallower(us: Seq<UnitModel>, i: int)
    requires
        0 <= i < us.len(),
    ensures
        match parent_of(us, i) {
            Some(j) => {
                &&& 0 <= j < i
                &&& us[j].kind.nests()
                &&& us[j].kind.level() < us[i].kind.level()
                &&& forall|k: int|
                    j < k < i ==> !(us[k].kind.nests() && us[k].kind.level()
                        < us[i].kind.level())
            },
            None => !us[i].kind.nests() || forall|k: int|
                0 <= k < i ==> !(us[k].kind.nests() && us[k].kind.level()
                    < us[i].kind.level()),
        },
{
    lemma_last_shallower(us, i, i);
    if let Some(j) = parent_of(us, i) {
        assert forall|k: int| j < k < i implies !(us[k].kind.nests() && us[k].kind.level()
            < us[i].kind.level()) by {
            assert(!shallower(us, i, k));
        }
    } else if us[i].kind.nests() {
        assert forall|k: int| 0 <= k < i implies !(us[k].kind.nests() && us[k].kind.level()
            < us[i].kind.level()) by {
            assert(!shallower(us, i, k));
        }
    }
}

/// Resolves the parent of every unit of one document.
pub fn resolve_parents(units: &Vec<Unit>) -> (r: Vec<Option<usize>>)
    requires
        wf_units(units_view(units@)),
    ensures
        r@.len() == units@.len(),
        forall|i: int|
            0 <= i < r@.len() ==> opt_int(#[trigger] r@[i]) == parent_of(units_view(units@), i),
{
    let ghost us = units_view(units@);
    let mut r: Vec<Option<usize>> = Vec::new();
    let mut i: usize = 0;
    while i < units.len()
        invariant
            us == units_view(units@),
            wf_units(us),
            i <= units@.len(),
            r@.len() == i,
            forall|k: int| 0 <= k < i ==> opt_int(#[trigger] r@[k]) == parent_of(us, k),
        decreases units@.len() - i,
    {
        let ki = units[i].kind;
        assert(us[i as int].kind == ki);
        let mut found: Option<usize> = None;
        if ki.nests_in_hierarchy() {
            let li = ki.level_of();
            let mut j: usize = i;
            while j > 0 && found.is_none()
                invariant
                    us == units_view(units@),
                    wf_units(us),
                    j <= i < units@.len(),
                    ki == us[i as int].kind,
                    ki.nests(),
                    li as nat == ki.level(),
                    found is None ==> last_shallower(us, i as int, j as int) == parent_of(
                        us,
                        i as int,
                    ),
                    found is Some ==> opt_int(found) == parent_of(us, i as int),
                decreases j,
            {
                let kj = units[j - 1].kind;
                assert(us[j - 1].kind == kj);
                if kj.nests_in_hierarchy() && kj.level_of() < li {
                    found = Some(j - 1);
                }
                j = j - 1;
            }
        }
        proof {
            if !ki.nests() {
                lemma_last_shallower(us, i as int, i as int);
                if let Some(j) = parent_of(us, i as int) {
                    assert(shallower(us, i as int, j));
                }
            }
        }
        r.push(found);
        i = i + 1;
    }
    r
}

/// In a document whose only headings are, in order, an h2 at `a`, an h3 at
/// `b` and an h2 at `c`, the h3 hangs from the first h2 and the second h2
/// from the root.
pub proof fn lemma_two_three_two(us: Seq<UnitModel>, a: int, b: int, c: int)
    requires
        0 <= a < b < c < us.len(),
        us[a].kind == Kind::Heading(2),
        us[b].kind == Kind::Heading(3),
        us[c].kind == Kind::Heading(2),
        forall|k: int|
            0 <= k < us.len() && k != a && k != b && k != c ==> !((#[trigger] us[k]).kind is Heading),
    ensures
        parent_of(us, b) == Some(a),
        parent_of(us, c) is None,
{
    lemma_last_shallower(us, b, b);
    lemma_last_shallower(us, c, c);
    assert(shallower(us, b, a));
    if let Some(j) = parent_of(us, c) {
        assert(shallower(us, c, j));
    }
}

} // verus!
