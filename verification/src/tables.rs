//! Sorted lookup tables.
//!
//! The table-driven codecs keep their mappings in slices sorted by key:
//! encode tables are keyed by Unicode scalar, the double-byte decode
//! tables by pointer.  The association a table denotes is the
//! specification-level linear scan [`assoc`] (respectively [`passoc`]);
//! the executable lookups are binary searches proved to return exactly
//! that association.

use vstd::prelude::*;

verus! {

/// The value associated with scalar `c` in the table, by linear scan.
pub open spec fn assoc<V>(t: Seq<(char, V)>, c: u32) -> Option<V>
    decreases t.len(),
{
    if t.len() == 0 {
        None
    } else if t[0].0 as u32 == c {
        Some(t[0].1)
    } else {
        assoc(t.drop_first(), c)
    }
}

/// True when the table's keys are strictly increasing.
pub open spec fn sorted<V>(t: Seq<(char, V)>) -> bool {
    forall|i: int, j: int|
        0 <= i < j < t.len() ==> ((#[trigger] t[i]).0 as u32) < ((#[trigger] t[j]).0 as u32)
}

/// In a sorted table, a key found at any index gives the association.
pub proof fn lemma_assoc_found<V>(t: Seq<(char, V)>, c: u32, i: int)
    requires
        sorted(t),
        0 <= i < t.len(),
        t[i].0 as u32 == c,
    ensures
        assoc(t, c) == Some(t[i].1),
    decreases t.len(),
{
    if i == 0 {
    } else {
        assert((t[0].0 as u32) < c);
        assert(sorted(t.drop_first())) by {
            assert(forall|x: int, y: int|
                0 <= x < y < t.drop_first().len() ==> ((#[trigger] t.drop_first()[x]).0 as u32) < ((
                #[trigger] t.drop_first()[y]).0 as u32)) by {
                assert(forall|x: int|
                    0 <= x < t.drop_first().len() ==> #[trigger] t.drop_first()[x] == t[x + 1]);
            }
        }
        assert(t.drop_first()[i - 1] == t[i]);
        lemma_assoc_found(t.drop_first(), c, i - 1);
    }
}

/// A key equal to no entry's key has no association.
pub proof fn lemma_assoc_absent<V>(t: Seq<(char, V)>, c: u32)
    requires
        forall|i: int| 0 <= i < t.len() ==> (#[trigger] t[i]).0 as u32 != c,
    ensures
        assoc(t, c) == None::<V>,
    decreases t.len(),
{
    if t.len() == 0 {
    } else {
        assert(forall|x: int|
            0 <= x < t.drop_first().len() ==> #[trigger] t.drop_first()[x] == t[x + 1]);
        lemma_assoc_absent(t.drop_first(), c);
    }
}

/// Binary search for the scalar `c` in a table sorted by scalar.
pub fn lookup<V: Copy>(table: &[(char, V)], c: u32) -> (r: Option<V>)
    requires
        sorted(table@),
    ensures
        r == assoc(table@, c),
{
    let mut lo: usize = 0;
    let mut hi: usize = table.len();
    while lo < hi
        invariant
            lo <= hi <= table@.len(),
            sorted(table@),
            forall|k: int| 0 <= k < lo ==> ((#[trigger] table@[k]).0 as u32) < c,
            forall|k: int| hi <= k < table@.len() ==> ((#[trigger] table@[k]).0 as u32) > c,
        decreases hi - lo,
    {
        let mid = lo + (hi - lo) / 2;
        let key = table[mid].0 as u32;
        if key == c {
            let v = table[mid].1;
            proof {
                lemma_assoc_found(table@, c, mid as int);
            }
            return Some(v);
        } else if key < c {
            lo = mid + 1;
        } else {
            hi = mid;
        }
    }
    proof {
        lemma_assoc_absent(table@, c);
    }
    None
}

/// The scalar associated with pointer `p` in the table, by linear scan.
pub open spec fn passoc(t: Seq<(u32, char)>, p: u32) -> Option<char>
    decreases t.len(),
{
    if t.len() == 0 {
        None
    } else if t[0].0 == p {
        Some(t[0].1)
    } else {
        passoc(t.drop_first(), p)
    }
}

/// True when the table's pointers are strictly increasing.
pub open spec fn psorted(t: Seq<(u32, char)>) -> bool {
    forall|i: int, j: int| 0 <= i < j < t.len() ==> (#[trigger] t[i]).0 < (#[trigger] t[j]).0
}

proof fn lemma_passoc_found(t: Seq<(u32, char)>, p: u32, i: int)
    requires
        psorted(t),
        0 <= i < t.len(),
        t[i].0 == p,
    ensures
        passoc(t, p) == Some(t[i].1),
    decreases t.len(),
{
    if i == 0 {
    } else {
        assert(t[0].0 < p);
        assert(forall|x: int|
            0 <= x < t.drop_first().len() ==> #[trigger] t.drop_first()[x] == t[x + 1]);
        lemma_passoc_found(t.drop_first(), p, i - 1);
    }
}

proof fn lemma_passoc_absent(t: Seq<(u32, char)>, p: u32)
    requires
        forall|i: int| 0 <= i < t.len() ==> (#[trigger] t[i]).0 != p,
    ensures
        passoc(t, p) == None::<char>,
    decreases t.len(),
{
    if t.len() == 0 {
    } else {
        assert(forall|x: int|
            0 <= x < t.drop_first().len() ==> #[trigger] t.drop_first()[x] == t[x + 1]);
        lemma_passoc_absent(t.drop_first(), p);
    }
}

/// Binary search for the pointer `p` in a table sorted by pointer.
pub fn plookup(table: &[(u32, char)], p: u32) -> (r: Option<char>)
    requires
        psorted(table@),
    ensures
        r == passoc(table@, p),
{
    let mut lo: usize = 0;
    let mut hi: usize = table.len();
    while lo < hi
        invariant
            lo <= hi <= table@.len(),
            psorted(table@),
            forall|k: int| 0 <= k < lo ==> (#[trigger] table@[k]).0 < p,
            forall|k: int| hi <= k < table@.len() ==> (#[trigger] table@[k]).0 > p,
        decreases hi - lo,
    {
        let mid = lo + (hi - lo) / 2;
        let key = table[mid].0;
        if key == p {
            let v = table[mid].1;
            proof {
                lemma_passoc_found(table@, p, mid as int);
            }
            return Some(v);
        } else if key < p {
            lo = mid + 1;
        } else {
            hi = mid;
        }
    }
    proof {
        lemma_passoc_absent(table@, p);
    }
    None
}

} // verus!
