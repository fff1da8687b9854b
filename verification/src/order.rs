//! Lists that are kept in the order of a numeric key.
use vstd::prelude::*;

verus! {

pub trait Keyed: Sized {
    /// The number by which values are ordered.
    spec fn key(self) -> int;

    fn get_key(&self) -> (r: u64)
        ensures
            r == self.key(),
    ;
}

/// Strictly increasing keys.
pub open spec fn increasing<T: Keyed>(v: Seq<T>) -> bool {
    forall|i: int, j: int| 0 <= i < j < v.len() ==> (#[trigger] v[i]).key() < (#[trigger] v[j]).key()
}

/// The number of values with a smaller key.
pub open spec fn place<T: Keyed>(v: Seq<T>, key: int) -> int
    decreases v.len(),
{
    if v.len() == 0 {
        0
    } else if v.last().key() < key {
        v.len() as int
    } else {
        place(v.drop_last(), key)
    }
}

pub proof fn place_facts<T: Keyed>(v: Seq<T>, key: int)
    requires
        increasing(v),
    ensures
        0 <= place(v, key) <= v.len(),
        forall|i: int| 0 <= i < place(v, key) ==> (#[trigger] v[i]).key() < key,
        forall|i: int| place(v, key) <= i < v.len() ==> key <= (#[trigger] v[i]).key(),
    decreases v.len(),
{
    if v.len() > 0 {
        if v.last().key() < key {
            assert forall|i: int| 0 <= i < v.len() implies (#[trigger] v[i]).key() < key by {
                if i < v.len() - 1 {
                    assert(v[i].key() < v[v.len() - 1].key());
                }
            }
        } else {
            let t = v.drop_last();
            assert forall|i: int, j: int| 0 <= i < j < t.len() implies (#[trigger] t[i]).key() < (
            #[trigger] t[j]).key() by {
                assert(v[i].key() < v[j].key());
            }
            place_facts(t, key);
            assert forall|i: int| 0 <= i < place(v, key) implies (#[trigger] v[i]).key() < key by {
                assert(t[i] == v[i]);
            }
            assert forall|i: int| place(v, key) <= i < v.len() implies key <= (
            #[trigger] v[i]).key() by {
                if i < v.len() - 1 {
                    assert(t[i] == v[i]);
                }
            }
        }
    }
}

/// Putting a new value at its place keeps the order.
pub proof fn insert_keeps_order<T: Keyed>(v: Seq<T>, x: T)
    requires
        increasing(v),
        forall|i: int| 0 <= i < v.len() ==> (#[trigger] v[i]).key() != x.key(),
    ensures
        increasing(v.insert(place(v, x.key()), x)),
{
    let k = place(v, x.key());
    place_facts(v, x.key());
    let w = v.insert(k, x);
    assert forall|i: int, j: int| 0 <= i < j < w.len() implies (#[trigger] w[i]).key() < (
    #[trigger] w[j]).key() by {
        if i < k && j > k {
            assert(w[i] == v[i] && w[j] == v[j - 1]);
        } else if i < k && j < k {
            assert(w[i] == v[i] && w[j] == v[j]);
        } else if i > k {
            assert(w[i] == v[i - 1] && w[j] == v[j - 1]);
        } else if i == k {
            assert(w[j] == v[j - 1]);
        } else {
            assert(w[i] == v[i]);
        }
    }
}

/// The place for a key in an ordered list.
pub fn find_place<T: Keyed>(v: &Vec<T>, key: u64) -> (r: usize)
    requires
        increasing(v@),
    ensures
        r == place(v@, key as int),
        r <= v@.len(),
{
    let mut n: usize = v.len();
    assert(v@.take(n as int) =~= v@);
    while n > 0 && v[n - 1].get_key() >= key
        invariant
            n <= v@.len(),
            place(v@.take(n as int), key as int) == place(v@, key as int),
        decreases n,
    {
        assert(v@.take(n as int).drop_last() =~= v@.take(n - 1));
        n -= 1;
    }
    n
}

/// The position of the value with this key.
pub fn find_key<T: Keyed>(v: &Vec<T>, key: u64) -> (r: Option<usize>)
    requires
        increasing(v@),
    ensures
        match r {
            Some(i) => i < v@.len() && v@[i as int].key() == key,
            None => forall|i: int| 0 <= i < v@.len() ==> (#[trigger] v@[i]).key() != key,
        },
{
    let i = find_place(v, key);
    proof {
        place_facts(v@, key as int);
    }
    if i < v.len() && v[i].get_key() == key {
        Some(i)
    } else {
        proof {
            assert forall|k: int| 0 <= k < v@.len() implies (#[trigger] v@[k]).key() != key by {
                if i < k {
                    assert(v@[i as int].key() < v@[k].key());
                }
            }
        }
        None
    }
}

/// Put a value at its place. A value with the same key stays, and the new one is
/// dropped.
pub fn insert_ordered<T: Keyed>(v: &mut Vec<T>, x: T)
    requires
        increasing(old(v)@),
    ensures
        increasing(final(v)@),
        final(v)@ == if exists|i: int|
            0 <= i < old(v)@.len() && (#[trigger] old(v)@[i]).key() == x.key() {
            old(v)@
        } else {
            old(v)@.insert(place(old(v)@, x.key()), x)
        },
{
    let key = x.get_key();
    match find_key(v, key) {
        Some(_) => {},
        None => {
            let at = find_place(v, key);
            proof {
                insert_keeps_order(v@, x);
            }
            v.insert(at, x);
        },
    }
}

} // verus!
