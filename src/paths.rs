//! Which files of a document tree are indexed, and the group id each one
//! gets from its path relative to the tree's root.
use vstd::prelude::*;
use vstd::string::*;

verus! {

pub open spec fn md_suffix() -> Seq<char> {
    seq!['.', 'm', 'd']
}

pub open spec fn readme() -> Seq<char> {
    seq!['R', 'E', 'A', 'D', 'M', 'E']
}

pub open spec fn slash() -> Seq<char> {
    seq!['/']
}

/// The table of contents at the top of the tree.
pub open spec fn toc() -> Seq<char> {
    seq!['T', 'O', 'C', '.', 'm', 'd']
}

/// The repository metadata directory.
pub open spec fn meta_dir() -> Seq<char> {
    seq!['.', 'g', 'i', 't', 'h', 'u', 'b']
}

pub open spec fn starts_with(s: Seq<char>, pre: Seq<char>) -> bool {
    s.len() >= pre.len() && s.subrange(0, pre.len() as int) == pre
}

pub open spec fn ends_with(s: Seq<char>, suf: Seq<char>) -> bool {
    s.len() >= suf.len() && s.subrange(s.len() - suf.len(), s.len() as int) == suf
}

/// `s` with every trailing repetition of `suf` removed.
pub open spec fn strip_all(s: Seq<char>, suf: Seq<char>) -> Seq<char>
    decreases s.len(),
{
    if suf.len() > 0 && ends_with(s, suf) {
        strip_all(s.subrange(0, s.len() - suf.len()), suf)
    } else {
        s
    }
}

/// Whether a relative path is left out of the index: the top-level table
/// of contents and anything under the metadata directory.
pub open spec fn excluded(rel: Seq<char>) -> bool {
    rel == toc() || rel == meta_dir() || starts_with(rel, meta_dir() + slash())
}

/// The group id of an indexed markdown file: its relative path without
/// `.md`; a last segment `README` is then dropped with the `/` before it.
pub open spec fn group_of(rel: Seq<char>) -> Option<Seq<char>> {
    if ends_with(rel, md_suffix()) && !excluded(rel) {
        let stem = rel.subrange(0, rel.len() - md_suffix().len());
        Some(
            if stem == readme() {
                Seq::empty()
            } else if ends_with(stem, slash() + readme()) {
                stem.subrange(0, stem.len() - 7)
            } else {
                stem
            },
        )
    } else {
        None
    }
}

pub(crate) fn chars_of(s: &str) -> (r: Vec<char>)
    ensures
        r@ == s@,
{
    let n = s.unicode_len();
    let mut r: Vec<char> = Vec::new();
    let mut i: usize = 0;
    while i < n
        invariant
            n == s@.len(),
            i <= n,
            r@ == s@.subrange(0, i as int),
        decreases n - i,
    {
        r.push(s.get_char(i));
        i = i + 1;
        assert(r@ =~= s@.subrange(0, i as int));
    }
    assert(s@.subrange(0, n as int) =~= s@);
    r
}

/// Whether `pat` stands in `cs` at `start`.
pub(crate) fn matches_at(cs: &Vec<char>, start: usize, pat: &Vec<char>) -> (r: bool)
    requires
        start + pat@.len() <= cs@.len(),
    ensures
        r == (cs@.subrange(start as int, start + pat@.len()) == pat@),
{
    let cl = cs.len();
    let mut i: usize = 0;
    while i < pat.len()
        invariant
            cl == cs@.len(),
            start + pat@.len() <= cs@.len(),
            i <= pat@.len(),
            cs@.subrange(start as int, start + i) == pat@.subrange(0, i as int),
        decreases pat@.len() - i,
    {
        if cs[start + i] != pat[i] {
            assert(cs@.subrange(start as int, start + pat@.len())[i as int] != pat@[i as int]);
            return false;
        }
        i = i + 1;
        assert(cs@.subrange(start as int, start + i) =~= pat@.subrange(0, i as int));
    }
    assert(pat@.subrange(0, i as int) =~= pat@);
    true
}

/// Whether a file at `rel`, relative to the tree's root, is indexed.
pub fn is_indexed(rel: &str) -> (r: bool)
    ensures
        r == group_of(rel@) is Some,
{
    group_id(rel).is_some()
}

/// The group id of the file at `rel`, relative to the tree's root; `None`
/// for a file that is not indexed.
pub fn group_id(rel: &str) -> (r: Option<String>)
    ensures
        match r {
            Some(g) => group_of(rel@) == Some(g@),
            None => group_of(rel@) is None,
        },
{
    let cs = chars_of(rel);
    let n = cs.len();
    let md = vec!['.', 'm', 'd'];
    let toc_name = vec!['T', 'O', 'C', '.', 'm', 'd'];
    let meta = vec!['.', 'g', 'i', 't', 'h', 'u', 'b', '/'];
    let readme_name = vec!['R', 'E', 'A', 'D', 'M', 'E'];
    let readme_seg = vec!['/', 'R', 'E', 'A', 'D', 'M', 'E'];
    assert(md@ == md_suffix());
    assert(toc_name@ == toc());
    assert(meta@ =~= meta_dir() + slash());
    assert(readme_name@ == readme());
    assert(readme_seg@ =~= slash() + readme());
    if n < 3 || !matches_at(&cs, n - 3, &md) {
        return None;
    }
    assert(cs@.subrange(0, n as int) =~= cs@);
    let is_toc = n == 6 && matches_at(&cs, 0, &toc_name);
    let in_meta = n >= 8 && matches_at(&cs, 0, &meta);
    proof {
        if cs@ == meta_dir() {
            assert(cs@.len() == 7);
            assert(cs@[6] == 'b');
        }
    }
    if is_toc || in_meta {
        return None;
    }
    let m = n - 3;
    let ghost stem = cs@.subrange(0, m as int);
    assert(stem =~= rel@.subrange(0, rel@.len() - md_suffix().len()));
    let b: usize = if m == 6 && matches_at(&cs, 0, &readme_name) {
        assert(stem =~= cs@.subrange(0, 6));
        0
    } else if m >= 7 && matches_at(&cs, m - 7, &readme_seg) {
        assert(stem.subrange(stem.len() - 7, stem.len() as int) =~= cs@.subrange(m - 7, m as int));
        assert(stem.subrange(0, stem.len() - 7) =~= cs@.subrange(0, m - 7));
        m - 7
    } else {
        proof {
            if stem == readme() {
                assert(stem.len() == 6);
                assert(cs@.subrange(0, 6) =~= stem);
            }
            if stem.len() >= 7 {
                assert(stem.subrange(stem.len() - 7, stem.len() as int) =~= cs@.subrange(
                    m - 7,
                    m as int,
                ));
            }
        }
        m
    };
    proof {
        if stem == readme() {
            assert(b == 0);
            assert(cs@.subrange(0, 0) =~= Seq::<char>::empty());
        }
    }
    Some(String::from_str(rel.substring_char(0, b)))
}

} // verus!
