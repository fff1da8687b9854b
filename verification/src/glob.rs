//! Wildcard matching in linear space, without recursion at run time.
use vstd::prelude::*;

verus! {

/// Whether the whole text matches the pattern: `*` stands for any run of bytes,
/// `?` for any one byte, every other byte for itself.
pub open spec fn glob(p: Seq<u8>, t: Seq<u8>) -> bool
    decreases p.len(), t.len(),
{
    if p.len() == 0 {
        t.len() == 0
    } else if p[0] == 0x2a {
        glob(p.drop_first(), t) || (t.len() > 0 && glob(p, t.drop_first()))
    } else {
        t.len() > 0 && (p[0] == 0x3f || p[0] == t[0]) && glob(p.drop_first(), t.drop_first())
    }
}

/// No star in this part of the pattern.
spec fn plain(p: Seq<u8>, from: int, to: int) -> bool {
    forall|k: int| from <= k < to ==> #[trigger] p[k] != 0x2a
}

/// The rest of the pattern matches the rest of the text from some later place.
spec fn later(p: Seq<u8>, at: int, t: Seq<u8>, from: int) -> bool {
    exists|k: int| from <= k <= t.len() && #[trigger] glob(p.skip(at), t.skip(k))
}

/// A star matches exactly where what follows it matches at some later place.
proof fn star_is_later(p: Seq<u8>, i: int, t: Seq<u8>, j: int)
    requires
        0 <= i < p.len(),
        p[i] == 0x2a,
        0 <= j <= t.len(),
    ensures
        glob(p.skip(i), t.skip(j)) == later(p, i + 1, t, j),
    decreases t.len() - j,
{
    assert(p.skip(i).drop_first() =~= p.skip(i + 1));
    if j < t.len() {
        assert(t.skip(j).drop_first() =~= t.skip(j + 1));
        star_is_later(p, i, t, j + 1);
        if later(p, i + 1, t, j) {
            let k = choose|k: int| j <= k <= t.len() && #[trigger] glob(p.skip(i + 1), t.skip(k));
            if k > j {
                assert(later(p, i + 1, t, j + 1));
            }
        }
        if later(p, i + 1, t, j + 1) {
            let k = choose|k: int|
                j + 1 <= k <= t.len() && #[trigger] glob(p.skip(i + 1), t.skip(k));
            assert(later(p, i + 1, t, j));
        }
        if glob(p.skip(i + 1), t.skip(j)) {
            assert(later(p, i + 1, t, j));
        }
    } else {
        if glob(p.skip(i + 1), t.skip(j)) {
            assert(later(p, i + 1, t, j));
        }
        if later(p, i + 1, t, j) {
            let k = choose|k: int| j <= k <= t.len() && #[trigger] glob(p.skip(i + 1), t.skip(k));
            assert(k == j);
        }
    }
}

/// A part without stars takes exactly as many bytes of the text.
proof fn plain_part(p: Seq<u8>, a: int, i: int, t: Seq<u8>, k: int)
    requires
        0 <= a <= i <= p.len(),
        0 <= k <= t.len(),
        plain(p, a, i),
        glob(p.skip(a), t.skip(k)),
    ensures
        k + (i - a) <= t.len(),
        glob(p.skip(i), t.skip(k + (i - a))),
    decreases i - a,
{
    if a < i {
        assert(p[a] != 0x2a);
        assert(p.skip(a).drop_first() =~= p.skip(a + 1));
        assert(p.skip(a)[0] == p[a]);
        assert(t.skip(k).drop_first() =~= t.skip(k + 1));
        plain_part(p, a + 1, i, t, k + 1);
    }
}

/// Only stars match nothing.
proof fn only_stars(p: Seq<u8>, i: int, n: int)
    requires
        0 <= i <= n <= p.len(),
        forall|k: int| i <= k < n ==> #[trigger] p[k] == 0x2a,
        n < p.len() ==> p[n] != 0x2a,
    ensures
        glob(p.skip(i), Seq::<u8>::empty()) == (n == p.len()),
    decreases n - i,
{
    if i < n {
        assert(p[i] == 0x2a);
        assert(p.skip(i)[0] == p[i]);
        assert(p.skip(i).drop_first() =~= p.skip(i + 1));
        only_stars(p, i + 1, n);
    } else if n < p.len() {
        assert(p.skip(i)[0] == p[n]);
    }
}

/// Match a wildcard pattern against a text, byte by byte.
pub fn glob_bytes(p: &[u8], t: &[u8]) -> (r: bool)
    ensures
        r == glob(p@, t@),
{
    let mut i: usize = 0;
    let mut j: usize = 0;
    let mut star: Option<usize> = None;
    let mut retry: usize = 0;
    assert(p@.skip(0) =~= p@);
    assert(t@.skip(0) =~= t@);
    while j < t.len()
        invariant
            i <= p@.len(),
            j <= t@.len(),
            match star {
                None => i == j && plain(p@, 0, i as int) && glob(p@, t@) == glob(
                    p@.skip(i as int),
                    t@.skip(j as int),
                ),
                Some(at) => {
                    &&& at < i
                    &&& p@[at as int] == 0x2a
                    &&& plain(p@, at + 1, i as int)
                    &&& retry <= j
                    &&& i - at - 1 == j - retry
                    &&& glob(p@, t@) == (glob(p@.skip(i as int), t@.skip(j as int)) || later(
                        p@,
                        at + 1,
                        t@,
                        retry + 1,
                    ))
                },
            },
        decreases
                (match star {
                    None => t@.len() as int + 1,
                    Some(_) => t@.len() - retry,
                }),
                t@.len() - j + p@.len() - i,
    {
        let ghost i0 = i as int;
        let ghost j0 = j as int;
        assert(t@.skip(j0)[0] == t@[j0]);
        assert(t@.skip(j0).drop_first() =~= t@.skip(j0 + 1));
        if i < p.len() {
            assert(p@.skip(i0)[0] == p@[i0]);
            assert(p@.skip(i0).drop_first() =~= p@.skip(i0 + 1));
        }
        if i < p.len() && p[i] != 0x2a && (p[i] == 0x3f || p[i] == t[j]) {
            i += 1;
            j += 1;
        } else if i < p.len() && p[i] == 0x2a {
            proof {
                star_is_later(p@, i0, t@, j0);
                if let Some(at) = star {
                    if later(p@, at + 1, t@, retry + 1) {
                        let k = choose|k: int|
                            retry + 1 <= k <= t@.len() && #[trigger] glob(
                                p@.skip(at + 1),
                                t@.skip(k),
                            );
                        plain_part(p@, at + 1, i0, t@, k);
                        let m = k + (i0 - at - 1);
                        star_is_later(p@, i0, t@, m);
                        let z = choose|z: int|
                            m <= z <= t@.len() && #[trigger] glob(p@.skip(i0 + 1), t@.skip(z));
                        assert(later(p@, i0 + 1, t@, j0));
                    }
                }
                split_later(p@, i0 + 1, t@, j0);
            }
            star = Some(i);
            i += 1;
            retry = j;
        } else if let Some(at) = star {
            assert(!glob(p@.skip(i0), t@.skip(j0)));
            proof {
                split_later(p@, at + 1, t@, retry + 1);
            }
            retry += 1;
            j = retry;
            i = at + 1;
        } else {
            assert(!glob(p@.skip(i0), t@.skip(j0)));
            return false;
        }
    }
    proof {
        assert(t@.skip(j as int) =~= Seq::<u8>::empty());
        if let Some(at) = star {
            if later(p@, at + 1, t@, retry + 1) {
                let k = choose|k: int|
                    retry + 1 <= k <= t@.len() && #[trigger] glob(p@.skip(at + 1), t@.skip(k));
                plain_part(p@, at + 1, i as int, t@, k);
            }
        }
    }
    let ghost from = i as int;
    while i < p.len() && p[i] == 0x2a
        invariant
            from <= i <= p@.len(),
            forall|k: int| from <= k < i ==> #[trigger] p@[k] == 0x2a,
        decreases p@.len() - i,
    {
        i += 1;
    }
    proof {
        only_stars(p@, from, i as int);
    }
    i == p.len()
}

proof fn split_later(p: Seq<u8>, at: int, t: Seq<u8>, from: int)
    requires
        0 <= from <= t.len(),
    ensures
        later(p, at, t, from) == (glob(p.skip(at), t.skip(from)) || later(p, at, t, from + 1)),
{
    if later(p, at, t, from) {
        let k = choose|k: int| from <= k <= t.len() && #[trigger] glob(p.skip(at), t.skip(k));
        if k > from {
            assert(later(p, at, t, from + 1));
        }
    }
    if later(p, at, t, from + 1) {
        let k = choose|k: int| from + 1 <= k <= t.len() && #[trigger] glob(p.skip(at), t.skip(k));
        assert(later(p, at, t, from));
    }
    if glob(p.skip(at), t.skip(from)) {
        assert(later(p, at, t, from));
    }
}

/// A pattern without wildcards matches itself and nothing else.
pub proof fn literal_patterns_match_themselves(p: Seq<u8>, t: Seq<u8>)
    requires
        forall|i: int| 0 <= i < p.len() ==> #[trigger] p[i] != 0x2a && p[i] != 0x3f,
    ensures
        glob(p, t) == (p == t),
    decreases p.len(),
{
    if p.len() == 0 {
        assert(t.len() == 0 ==> p =~= t);
    } else if t.len() > 0 {
        let q = p.drop_first();
        assert forall|i: int| 0 <= i < q.len() implies #[trigger] q[i] != 0x2a && q[i] != 0x3f by {
            assert(q[i] == p[i + 1]);
        }
        literal_patterns_match_themselves(q, t.drop_first());
        assert(p =~= seq![p[0]] + q);
        assert(t =~= seq![t[0]] + t.drop_first());
        if p == t {
            assert(q == t.drop_first());
        }
    }
}

/// A single star matches every text.
pub proof fn star_matches_everything(t: Seq<u8>)
    ensures
        glob(seq![0x2au8], t),
    decreases t.len(),
{
    let p = seq![0x2au8];
    assert(p.drop_first() =~= Seq::<u8>::empty());
    if t.len() == 0 {
        assert(glob(Seq::<u8>::empty(), t));
    } else {
        star_matches_everything(t.drop_first());
    }
}

/// A question mark stands for exactly one byte, whatever it is, and what stands before and
/// behind it for itself.
pub proof fn a_question_mark_stands_for_one_byte(a: Seq<u8>, b: Seq<u8>, t: Seq<u8>)
    requires
        forall|i: int| 0 <= i < a.len() ==> #[trigger] a[i] != 0x2a && a[i] != 0x3f,
        forall|i: int| 0 <= i < b.len() ==> #[trigger] b[i] != 0x2a && b[i] != 0x3f,
    ensures
        glob(a + seq![0x3fu8] + b, t) == (t.len() == a.len() + 1 + b.len() && t.take(
            a.len() as int,
        ) == a && t.skip(a.len() as int + 1) == b),
    decreases a.len(),
{
    let p = a + seq![0x3fu8] + b;
    if a.len() == 0 {
        assert(p.drop_first() =~= b);
        if t.len() > 0 {
            literal_patterns_match_themselves(b, t.drop_first());
            assert(t.drop_first() =~= t.skip(1));
            assert(t.take(0) =~= a);
        }
    } else if t.len() > 0 {
        let q = a.drop_first();
        assert forall|i: int| 0 <= i < q.len() implies #[trigger] q[i] != 0x2a && q[i] != 0x3f by {
            assert(q[i] == a[i + 1]);
        }
        assert(p.drop_first() =~= q + seq![0x3fu8] + b);
        assert(p[0] == a[0]);
        let u = t.drop_first();
        a_question_mark_stands_for_one_byte(q, b, u);
        if t.len() == a.len() + 1 + b.len() {
            assert(u.skip(q.len() as int + 1) =~= t.skip(a.len() as int + 1));
            assert(a =~= seq![a[0]] + q);
            assert(t.take(a.len() as int) =~= seq![t[0]] + u.take(q.len() as int));
            if t.take(a.len() as int) == a {
                assert(t[0] == a[0]);
                assert(u.take(q.len() as int) =~= q) by {
                    assert(t.take(a.len() as int).drop_first() =~= u.take(q.len() as int));
                }
            }
        }
    }
}

/// A star stands for any run of bytes, or for none: what stands before it begins the text,
/// and what stands behind it ends the text, and the two do not overlap.
pub proof fn a_star_stands_for_any_run(a: Seq<u8>, b: Seq<u8>, t: Seq<u8>)
    requires
        forall|i: int| 0 <= i < a.len() ==> #[trigger] a[i] != 0x2a && a[i] != 0x3f,
        forall|i: int| 0 <= i < b.len() ==> #[trigger] b[i] != 0x2a && b[i] != 0x3f,
    ensures
        glob(a + seq![0x2au8] + b, t) == (t.len() >= a.len() + b.len() && t.take(a.len() as int)
            == a && t.skip(t.len() - b.len()) == b),
    decreases a.len(), t.len(),
{
    let p = a + seq![0x2au8] + b;
    if a.len() == 0 {
        assert(p.drop_first() =~= b);
        literal_patterns_match_themselves(b, t);
        assert(t.take(0) =~= a);
        if t.len() == 0 {
            if b.len() == 0 {
                assert(t.skip(0) =~= b);
                assert(t =~= b);
            }
        } else {
            let u = t.drop_first();
            a_star_stands_for_any_run(a, b, u);
            assert(u.take(0) =~= a);
            if u.len() >= b.len() {
                assert(u.skip(u.len() - b.len()) =~= t.skip(t.len() - b.len()));
            }
            if t.len() == b.len() {
                assert(t.skip(0) =~= t);
            }
        }
    } else if t.len() > 0 {
        let q = a.drop_first();
        assert forall|i: int| 0 <= i < q.len() implies #[trigger] q[i] != 0x2a && q[i] != 0x3f by {
            assert(q[i] == a[i + 1]);
        }
        assert(p.drop_first() =~= q + seq![0x2au8] + b);
        assert(p[0] == a[0]);
        let u = t.drop_first();
        a_star_stands_for_any_run(q, b, u);
        if t.len() >= a.len() + b.len() {
            assert(u.skip(u.len() - b.len()) =~= t.skip(t.len() - b.len()));
            assert(a =~= seq![a[0]] + q);
            assert(t.take(a.len() as int) =~= seq![t[0]] + u.take(q.len() as int));
            if t.take(a.len() as int) == a {
                assert(t[0] == a[0]);
                assert(u.take(q.len() as int) =~= q) by {
                    assert(t.take(a.len() as int).drop_first() =~= u.take(q.len() as int));
                }
            }
        }
    }
}

} // verus!
