//! Paths as byte strings: the few operations on them that the engine needs.

use vstd::prelude::*;

verus! {

/// The byte that separates the components of a path.
pub const SEPARATOR: u8 = 47u8;

/// `s` ends with `suffix`.
pub open spec fn has_suffix(s: Seq<u8>, suffix: Seq<u8>) -> bool {
    s.len() >= suffix.len() && s.subrange(s.len() - suffix.len(), s.len() as int) == suffix
}

/// `s` starts with `prefix`.
pub open spec fn has_prefix(s: Seq<u8>, prefix: Seq<u8>) -> bool {
    s.len() >= prefix.len() && s.subrange(0, prefix.len() as int) == prefix
}

/// `k` is where the last separator of `p` stands; -1 where `p` has none.
pub open spec fn is_last_separator(p: Seq<u8>, k: int) -> bool {
    &&& -1 <= k < p.len()
    &&& k >= 0 ==> p[k] == SEPARATOR
    &&& forall|i: int| k < i < p.len() ==> p[i] != SEPARATOR
}

/// The position of the last separator of `p`; -1 where `p` has none.
pub open spec fn last_separator(p: Seq<u8>) -> int
    decreases p.len(),
{
    if p.len() == 0 {
        -1
    } else if p.last() == SEPARATOR {
        p.len() - 1
    } else {
        last_separator(p.drop_last())
    }
}

/// The last component of `p`: what follows its last separator.
pub open spec fn file_name(p: Seq<u8>) -> Seq<u8> {
    p.subrange(last_separator(p) + 1, p.len() as int)
}

/// What stands before the last separator of `p`; empty where `p` has none.
pub open spec fn parent(p: Seq<u8>) -> Seq<u8> {
    if last_separator(p) < 0 {
        Seq::empty()
    } else {
        p.subrange(0, last_separator(p))
    }
}

/// `name` appended to `dir` as a further component. An empty `dir` gives
/// `name` itself, and so does a `name` that starts at the root.
pub open spec fn joined(dir: Seq<u8>, name: Seq<u8>) -> Seq<u8> {
    if dir.len() == 0 || (name.len() > 0 && name[0] == SEPARATOR) {
        name
    } else if dir.last() == SEPARATOR {
        dir + name
    } else {
        dir + seq![SEPARATOR] + name
    }
}

/// `last_separator` is the one position that `is_last_separator` describes.
pub proof fn lemma_last_separator(p: Seq<u8>)
    ensures
        is_last_separator(p, last_separator(p)),
        forall|k: int| is_last_separator(p, k) ==> k == last_separator(p),
    decreases p.len(),
{
    if p.len() > 0 && p.last() != SEPARATOR {
        let q = p.drop_last();
        lemma_last_separator(q);
        let k = last_separator(q);
        assert forall|i: int| k < i < p.len() implies p[i] != SEPARATOR by {
            if i < q.len() {
                assert(q[i] == p[i]);
            }
        }
        if k >= 0 {
            assert(q[k] == p[k]);
        }
    }
    assert forall|k: int| is_last_separator(p, k) implies k == last_separator(p) by {
        let m = last_separator(p);
        if k < m {
            assert(p[m] == SEPARATOR);
        } else if m < k {
            assert(p[k] == SEPARATOR);
        }
    }
}

/// Tells whether `s` ends with `suffix`.
pub fn ends_with(s: &[u8], suffix: &[u8]) -> (b: bool)
    ensures
        b == has_suffix(s@, suffix@),
{
    if s.len() < suffix.len() {
        return false;
    }
    let start: usize = s.len() - suffix.len();
    let mut i: usize = 0;
    while i < suffix.len()
        invariant
            start + suffix.len() == s.len(),
            i <= suffix.len(),
            forall|j: int| 0 <= j < i ==> s@[start + j] == suffix@[j],
        decreases suffix.len() - i,
    {
        if s[start + i] != suffix[i] {
            proof {
                let tail = s@.subrange(s@.len() - suffix@.len(), s@.len() as int);
                assert(tail[i as int] == s@[start + i]);
            }
            return false;
        }
        i += 1;
    }
    assert(s@.subrange(s@.len() - suffix@.len(), s@.len() as int) =~= suffix@);
    true
}

/// Tells whether `s` starts with `prefix`.
pub fn starts_with(s: &[u8], prefix: &[u8]) -> (b: bool)
    ensures
        b == has_prefix(s@, prefix@),
{
    if s.len() < prefix.len() {
        return false;
    }
    let mut i: usize = 0;
    while i < prefix.len()
        invariant
            prefix.len() <= s.len(),
            i <= prefix.len(),
            forall|j: int| 0 <= j < i ==> s@[j] == prefix@[j],
        decreases prefix.len() - i,
    {
        if s[i] != prefix[i] {
            proof {
                let head = s@.subrange(0, prefix@.len() as int);
                assert(head[i as int] == s@[i as int]);
            }
            return false;
        }
        i += 1;
    }
    assert(s@.subrange(0, prefix@.len() as int) =~= prefix@);
    true
}

/// Tells whether two byte strings are equal.
pub fn same_bytes(a: &[u8], b: &[u8]) -> (r: bool)
    ensures
        r == (a@ == b@),
{
    if a.len() != b.len() {
        return false;
    }
    let r = starts_with(a, b);
    assert(a@.subrange(0, a@.len() as int) =~= a@);
    r
}

/// Copies the bytes of `s` from `from` up to `to`.
pub fn copy_range(s: &[u8], from: usize, to: usize) -> (v: Vec<u8>)
    requires
        from <= to <= s@.len(),
    ensures
        v@ == s@.subrange(from as int, to as int),
{
    let mut v: Vec<u8> = Vec::new();
    let mut i: usize = from;
    while i < to
        invariant
            from <= i <= to <= s@.len(),
            v@ == s@.subrange(from as int, i as int),
        decreases to - i,
    {
        v.push(s[i]);
        i += 1;
        assert(v@ =~= s@.subrange(from as int, i as int));
    }
    v
}

/// Where the file name of `p` begins: behind its last separator, or at 0.
pub fn file_name_start(p: &[u8]) -> (start: usize)
    ensures
        start == last_separator(p@) + 1,
        start <= p@.len(),
{
    let mut i: usize = p.len();
    while i > 0
        invariant
            i <= p.len(),
            forall|j: int| i <= j < p@.len() ==> p@[j] != SEPARATOR,
        decreases i,
    {
        if p[i - 1] == SEPARATOR {
            proof {
                lemma_last_separator(p@);
                assert(is_last_separator(p@, i - 1));
            }
            return i;
        }
        i -= 1;
    }
    proof {
        lemma_last_separator(p@);
        assert(is_last_separator(p@, -1));
    }
    0
}

/// Appends `name` to `dir` as a further component.
pub fn join(dir: &[u8], name: &[u8]) -> (path: Vec<u8>)
    ensures
        path@ == joined(dir@, name@),
{
    let absolute = name.len() > 0 && name[0] == SEPARATOR;
    let mut path: Vec<u8> = Vec::new();
    if dir.len() > 0 && !absolute {
        let head = copy_range(dir, 0, dir.len());
        assert(head@ =~= dir@);
        path = head;
        if dir[dir.len() - 1] != SEPARATOR {
            path.push(SEPARATOR);
        }
    }
    let ghost before = path@;
    let mut i: usize = 0;
    while i < name.len()
        invariant
            i <= name.len(),
            path@ == before + name@.subrange(0, i as int),
        decreases name.len() - i,
    {
        path.push(name[i]);
        i += 1;
        assert(path@ =~= before + name@.subrange(0, i as int));
    }
    assert(name@.subrange(0, name@.len() as int) =~= name@);
    assert(path@ =~= joined(dir@, name@));
    path
}

} // verus!
