//! A table of distinct names, each found again by its bytes: the names are
//! numbered in the order they come in, and a hash of the bytes leads to the
//! names that share it.

use crate::paths::same_bytes;
use std::collections::HashMap;
use vstd::prelude::*;
use vstd::std_specs::hash::group_hash_axioms;

verus! {

broadcast use group_hash_axioms;

/// The hash of the empty name.
pub const HASH_SEED: u64 = 7;

/// What the hash is multiplied by for each further byte.
pub const HASH_FACTOR: u64 = 131;

/// The hashes lie below this bound.
pub const HASH_BOUND: u64 = 72057594037927931;

/// The hash of a name.
pub open spec fn name_hash(name: Seq<u8>) -> u64
    decreases name.len(),
{
    if name.len() == 0 {
        HASH_SEED
    } else {
        ((name_hash(name.drop_last()) * HASH_FACTOR + name.last()) % (HASH_BOUND as int)) as u64
    }
}

/// Following the links from `start` leads to `k`. Each link leads to a
/// smaller number.
pub open spec fn in_chain(links: Seq<Option<usize>>, start: int, k: int) -> bool
    decreases start,
{
    if start < 0 || start >= links.len() {
        false
    } else if start == k {
        true
    } else {
        match links[start] {
            Some(j) => j < start && in_chain(links, j as int, k),
            None => false,
        }
    }
}

/// Computes the hash of a name.
pub fn hash_name(name: &[u8]) -> (h: u64)
    ensures
        h == name_hash(name@),
{
    let mut h: u64 = HASH_SEED;
    let mut i: usize = 0;
    assert(name@.subrange(0, 0) =~= Seq::<u8>::empty());
    while i < name.len()
        invariant
            i <= name@.len(),
            h == name_hash(name@.subrange(0, i as int)),
            h < HASH_BOUND,
        decreases name@.len() - i,
    {
        proof {
            let next = name@.subrange(0, i + 1);
            assert(next.drop_last() =~= name@.subrange(0, i as int));
            assert(next.last() == name@[i as int]);
        }
        h = (h * HASH_FACTOR + name[i] as u64) % HASH_BOUND;
        i += 1;
    }
    assert(name@.subrange(0, name@.len() as int) =~= name@);
    h
}

/// Distinct names, numbered in the order they were put in.
pub struct NameTable {
    names: Vec<Vec<u8>>,
    /// For each name, the name before it with the same hash.
    links: Vec<Option<usize>>,
    /// For each hash, the last name with it.
    heads: HashMap<u64, usize>,
}

impl View for NameTable {
    type V = Seq<Seq<u8>>;

    closed spec fn view(&self) -> Seq<Seq<u8>> {
        self.names@.map_values(|n: Vec<u8>| n@)
    }
}

impl NameTable {
    /// No name stands twice, and every name is reached from its hash.
    pub closed spec fn wf(&self) -> bool {
        &&& self.links@.len() == self.names@.len()
        &&& self@.no_duplicates()
        &&& forall|h: u64| #[trigger]
            self.heads@.contains_key(h) ==> self.heads@[h] < self.names@.len()
        &&& forall|k: int|
            0 <= k < self.names@.len() ==> self.heads@.contains_key(
                #[trigger] name_hash(self@[k]),
            ) && in_chain(self.links@, self.heads@[name_hash(self@[k])] as int, k)
    }

    /// A table without names.
    pub fn new() -> (table: NameTable)
        ensures
            table.wf(),
            table@.len() == 0,
    {
        NameTable { names: Vec::new(), links: Vec::new(), heads: HashMap::new() }
    }

    /// The number of names.
    pub fn len(&self) -> (n: usize)
        ensures
            n == self@.len(),
    {
        self.names.len()
    }

    /// The number under which `name` stands in the table, if it does.
    pub fn find(&self, name: &[u8]) -> (found: Option<usize>)
        requires
            self.wf(),
        ensures
            match found {
                Some(k) => k < self@.len() && self@[k as int] == name@,
                None => !self@.contains(name@),
            },
    {
        let h = hash_name(name);
        let mut at: usize = match self.heads.get(&h) {
            Some(start) => *start,
            None => {
                assert forall|k: int| 0 <= k < self@.len() implies self@[k] != name@ by {
                    assert(self.heads@.contains_key(name_hash(self@[k])));
                }
                return None;
            },
        };
        loop
            invariant
                self.wf(),
                at < self.names@.len(),
                forall|k: int|
                    0 <= k < self@.len() && self@[k] == name@ ==> in_chain(
                        self.links@,
                        at as int,
                        k,
                    ),
            decreases at,
        {
            if same_bytes(self.names[at].as_slice(), name) {
                return Some(at);
            }
            assert(self@[at as int] != name@);
            match self.links[at] {
                Some(before) => {
                    assert forall|k: int|
                        0 <= k < self@.len() && self@[k] == name@ implies in_chain(
                        self.links@,
                        before as int,
                        k,
                    ) by {
                        assert(in_chain(self.links@, at as int, k));
                    }
                    if before >= at {
                        // A link leads to a smaller number: nothing stands here.
                        assert forall|k: int| 0 <= k < self@.len() implies self@[k] != name@ by {
                            if self@[k] == name@ {
                                assert(in_chain(self.links@, at as int, k));
                            }
                        }
                        return None;
                    }
                    at = before;
                },
                None => {
                    assert forall|k: int| 0 <= k < self@.len() implies self@[k] != name@ by {
                        if self@[k] == name@ {
                            assert(in_chain(self.links@, at as int, k));
                        }
                    }
                    return None;
                },
            }
        }
    }

    /// Puts a name that the table does not hold behind the others, and gives
    /// its number.
    pub fn insert(&mut self, name: Vec<u8>) -> (k: usize)
        requires
            old(self).wf(),
            !old(self)@.contains(name@),
        ensures
            final(self).wf(),
            final(self)@ == old(self)@.push(name@),
            k == old(self)@.len(),
    {
        let k = self.names.len();
        let h = hash_name(name.as_slice());
        let before: Option<usize> = match self.heads.get(&h) {
            Some(start) => Some(*start),
            None => None,
        };
        let ghost old_links = self.links@;
        let ghost old_heads = self.heads@;
        let ghost old_names = self@;
        self.links.push(before);
        self.names.push(name);
        self.heads.insert(h, k);
        proof {
            assert(self@ =~= old_names.push(name@));
            assert forall|i: int| 0 <= i < self.names@.len() implies self.heads@.contains_key(
                #[trigger] name_hash(self@[i]),
            ) && in_chain(self.links@, self.heads@[name_hash(self@[i])] as int, i) by {
                if i < k {
                    let hi = name_hash(old_names[i]);
                    assert(old_heads.contains_key(hi));
                    lemma_chain_grows(old_links, before, old_heads[hi] as int, i);
                    if hi == h {
                        assert(before == Some(old_heads[hi]));
                        assert(in_chain(self.links@, k as int, i));
                    }
                }
            }
        }
        k
    }
}

/// A chain stays what it is when a link is added behind the others.
pub proof fn lemma_chain_grows(links: Seq<Option<usize>>, added: Option<usize>, start: int, k: int)
    ensures
        in_chain(links, start, k) ==> in_chain(links.push(added), start, k),
    decreases start,
{
    if 0 <= start < links.len() && start != k {
        match links[start] {
            Some(j) => {
                if j < start {
                    lemma_chain_grows(links, added, j as int, k);
                }
            },
            None => {},
        }
    }
}

} // verus!
