use vstd::prelude::*;
use std::collections::HashMap;

verus! {

broadcast use vstd::std_specs::hash::group_hash_axioms;

pub open spec fn mix(h: u64, x: u64) -> u64 {
    ((h as int * 1099511628211 + x as int) % 0x1_0000_0000_0000_0000) as u64
}

/// A hash of a sequence of ids (multiply-and-add, modulo 2^64).
pub open spec fn ids_hash(s: Seq<u32>) -> u64
    decreases s.len(),
{
    if s.len() == 0 {
        14695981039346656037
    } else {
        mix(ids_hash(s.drop_last()), s.last() as u64)
    }
}

/// A hash of a sequence of characters, in the way of `ids_hash`.
pub open spec fn chars_hash(s: Seq<char>) -> u64
    decreases s.len(),
{
    if s.len() == 0 {
        14695981039346656037
    } else {
        mix(chars_hash(s.drop_last()), s.last() as u32 as u64)
    }
}

fn mix_exec(h: u64, x: u64) -> (r: u64)
    ensures
        r == mix(h, x),
{
    let p: u128 = 1099511628211;
    assert(h as u128 * p <= 0xFFFF_FFFF_FFFF_FFFFu128 * 1099511628211u128) by (nonlinear_arith)
        requires
            h <= 0xFFFF_FFFF_FFFF_FFFFu64,
            p == 1099511628211,
    ;
    (((h as u128) * p + (x as u128)) % 0x1_0000_0000_0000_0000u128) as u64
}

pub fn hash_ids(s: &Vec<u32>) -> (r: u64)
    ensures
        r == ids_hash(s@),
{
    let mut h: u64 = 14695981039346656037;
    let mut i: usize = 0;
    while i < s.len()
        invariant
            i <= s@.len(),
            h == ids_hash(s@.take(i as int)),
        decreases s@.len() - i,
    {
        assert(s@.take(i + 1).drop_last() =~= s@.take(i as int));
        h = mix_exec(h, s[i] as u64);
        i = i + 1;
    }
    assert(s@.take(s@.len() as int) =~= s@);
    h
}

pub fn hash_chars(s: &Vec<char>) -> (r: u64)
    ensures
        r == chars_hash(s@),
{
    let mut h: u64 = 14695981039346656037;
    let mut i: usize = 0;
    while i < s.len()
        invariant
            i <= s@.len(),
            h == chars_hash(s@.take(i as int)),
        decreases s@.len() - i,
    {
        assert(s@.take(i + 1).drop_last() =~= s@.take(i as int));
        h = mix_exec(h, s[i] as u32 as u64);
        i = i + 1;
    }
    assert(s@.take(s@.len() as int) =~= s@);
    h
}

/// Buckets of positions by hash: where a position was added under a hash,
/// the bucket of that hash holds it.
pub struct HashIndex {
    map: HashMap<u64, Vec<usize>>,
}

impl HashIndex {
    /// Whether position `i` was added under hash `h`.
    pub closed spec fn holds(&self, h: u64, i: usize) -> bool {
        self.map@.contains_key(h) && self.map@[h]@.contains(i)
    }

    pub fn new() -> (r: HashIndex)
        ensures
            forall|h: u64, i: usize| !r.holds(h, i),
    {
        HashIndex { map: HashMap::new() }
    }

    /// Adds position `i` under hash `h`.
    pub fn add(&mut self, h: u64, i: usize)
        ensures
            forall|h2: u64, j: usize|
                #[trigger] final(self).holds(h2, j) <==> old(self).holds(h2, j) || (h2 == h && j
                    == i),
    {
        let mut b = match self.map.remove(&h) {
            Some(b) => b,
            None => Vec::new(),
        };
        let ghost ob = b@;
        b.push(i);
        self.map.insert(h, b);
        proof {
            assert forall|h2: u64, j: usize|
                #[trigger] self.holds(h2, j) <==> old(self).holds(h2, j) || (h2 == h && j == i) by {
                if h2 == h {
                    if old(self).map@.contains_key(h) {
                        assert(ob == old(self).map@[h]@);
                    } else {
                        assert(ob.len() == 0);
                    }
                    assert(self.map@[h]@ == ob.push(i));
                    if ob.contains(j) {
                        let t = choose|t: int| 0 <= t < ob.len() && ob[t] == j;
                        assert(ob.push(i)[t] == j);
                    }
                    if ob.push(i).contains(j) && j != i {
                        let t = choose|t: int| 0 <= t < ob.len() + 1 && ob.push(i)[t] == j;
                        assert(ob[t] == j);
                    }
                    assert(ob.push(i)[ob.len() as int] == i);
                }
            }
        }
    }

    /// The bucket of hash `h`: every position added under `h` is in it.
    pub fn bucket(&self, h: u64) -> (r: Option<&Vec<usize>>)
        ensures
            r is None ==> forall|i: usize| !self.holds(h, i),
            r matches Some(b) ==> forall|i: usize| self.holds(h, i) ==> b@.contains(i),
    {
        self.map.get(&h)
    }
}

} // verus!
