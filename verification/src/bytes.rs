//! Substring, prefix and ordering tests on the UTF-8 bytes of strings, the
//! way `str::contains`, `str::starts_with` and `str`'s `Ord` see them.
use crate::text::bytes_of;
use vstd::prelude::*;

verus! {

/// `n` occurs in `h` at byte `i`.
pub open spec fn occurs_at(h: Seq<u8>, n: Seq<u8>, i: int) -> bool {
    0 <= i && i + n.len() <= h.len() && h.subrange(i, i + n.len()) == n
}

/// `n` occurs somewhere in `h`.
pub open spec fn contains_bytes(h: Seq<u8>, n: Seq<u8>) -> bool {
    exists|i: int| occurs_at(h, n, i)
}

/// `h` begins with `n`.
pub open spec fn starts_with_bytes(h: Seq<u8>, n: Seq<u8>) -> bool {
    occurs_at(h, n, 0)
}

/// Lexicographic order on bytes, a proper prefix first.
pub open spec fn lex_lt(a: Seq<u8>, b: Seq<u8>) -> bool
    decreases a.len(),
{
    if b.len() == 0 {
        false
    } else if a.len() == 0 {
        true
    } else if a[0] != b[0] {
        a[0] < b[0]
    } else {
        lex_lt(a.drop_first(), b.drop_first())
    }
}

pub proof fn lemma_lex_irreflexive(a: Seq<u8>)
    ensures
        !lex_lt(a, a),
    decreases a.len(),
{
    if a.len() > 0 {
        lemma_lex_irreflexive(a.drop_first());
    }
}

pub proof fn lemma_lex_total(a: Seq<u8>, b: Seq<u8>)
    ensures
        lex_lt(a, b) || a == b || lex_lt(b, a),
    decreases a.len(),
{
    if a.len() > 0 && b.len() > 0 && a[0] == b[0] {
        lemma_lex_total(a.drop_first(), b.drop_first());
        if a.drop_first() == b.drop_first() {
            assert(a =~= seq![a[0]] + a.drop_first());
            assert(b =~= seq![b[0]] + b.drop_first());
        }
    }
    if a.len() == 0 && b.len() == 0 {
        assert(a =~= b);
    }
}

pub proof fn lemma_lex_asymmetric(a: Seq<u8>, b: Seq<u8>)
    requires
        lex_lt(a, b),
    ensures
        !lex_lt(b, a),
    decreases a.len(),
{
    if a.len() > 0 && b.len() > 0 && a[0] == b[0] {
        lemma_lex_asymmetric(a.drop_first(), b.drop_first());
    }
}

pub proof fn lemma_lex_transitive(a: Seq<u8>, b: Seq<u8>, c: Seq<u8>)
    requires
        lex_lt(a, b),
        lex_lt(b, c),
    ensures
        lex_lt(a, c),
    decreases a.len(),
{
    if a.len() > 0 && b.len() > 0 && c.len() > 0 && a[0] == b[0] && b[0] == c[0] {
        lemma_lex_transitive(a.drop_first(), b.drop_first(), c.drop_first());
    }
}

/// A string that begins with `f` is not below `f`.
pub proof fn lemma_prefix_not_below(f: Seq<u8>, x: Seq<u8>)
    requires
        starts_with_bytes(x, f),
    ensures
        !lex_lt(x, f),
    decreases f.len(),
{
    if f.len() > 0 {
        assert(x.drop_first().subrange(0, f.len() - 1) =~= x.subrange(0, f.len() as int).drop_first());
        assert(f.drop_first() =~= x.subrange(0, f.len() as int).drop_first());
        lemma_prefix_not_below(f.drop_first(), x.drop_first());
    }
}

/// Past the names that begin with `f`: once a name at or above `f` does not
/// begin with `f`, no name above it does either.
pub proof fn lemma_prefix_run_ends(f: Seq<u8>, x: Seq<u8>, y: Seq<u8>)
    requires
        !lex_lt(x, f),
        !starts_with_bytes(x, f),
        lex_lt(x, y),
    ensures
        !starts_with_bytes(y, f),
    decreases f.len(),
{
    if f.len() == 0 {
        assert(x.subrange(0, 0) =~= f);
    } else if starts_with_bytes(y, f) {
        if x.len() == 0 {
        } else if y.len() == 0 {
        } else {
            assert(y[0] == f[0]) by {
                assert(y.subrange(0, f.len() as int)[0] == y[0]);
            }
            if x[0] != y[0] {
                // x[0] < y[0] == f[0], so x is below f
                assert(x[0] < f[0]);
            } else {
                assert(y.drop_first().subrange(0, f.len() - 1) =~= y.subrange(
                    0,
                    f.len() as int,
                ).drop_first());
                assert(f.drop_first() =~= y.subrange(0, f.len() as int).drop_first());
                if starts_with_bytes(x.drop_first(), f.drop_first()) {
                    assert forall|k: int| 0 <= k < f.len() implies x.subrange(0, f.len() as int)[k]
                        == f[k] by {
                        if k > 0 {
                            assert(x.drop_first().subrange(0, f.len() - 1)[k - 1] == f.drop_first()[k
                                - 1]);
                        }
                    }
                    assert(x.subrange(0, f.len() as int) =~= f);
                }
                lemma_prefix_run_ends(f.drop_first(), x.drop_first(), y.drop_first());
            }
        }
    }
}

/// `str::contains` with a string pattern: the needle's bytes occur in the haystack's.
pub fn str_contains(h: &str, n: &str) -> (r: bool)
    ensures
        r == contains_bytes(bytes_of(h), bytes_of(n)),
{
    let hb = h.as_bytes();
    let nb = n.as_bytes();
    proof {
        crate::text::lemma_chars_of_bytes(h);
        crate::text::lemma_chars_of_bytes(n);
    }
    if nb.len() > hb.len() {
        proof {
            assert forall|i: int| !occurs_at(bytes_of(h), bytes_of(n), i) by {}
        }
        return false;
    }
    if nb.len() == 0 {
        proof {
            assert(bytes_of(h).subrange(0, 0) =~= bytes_of(n));
            assert(occurs_at(bytes_of(h), bytes_of(n), 0));
        }
        return true;
    }
    let last = hb.len() - nb.len();
    let mut i: usize = 0;
    while i <= last
        invariant
            hb@ == bytes_of(h),
            nb@ == bytes_of(n),
            last == hb.len() - nb.len(),
            1 <= nb.len() <= hb.len(),
            forall|k: int| 0 <= k < i ==> !occurs_at(bytes_of(h), bytes_of(n), k),
        decreases last + 1 - i,
    {
        if bytes_at(hb, nb, i) {
            return true;
        }
        i += 1;
    }
    proof {
        assert forall|k: int| !occurs_at(bytes_of(h), bytes_of(n), k) by {
            if k > last {
                assert(!(k + bytes_of(n).len() <= bytes_of(h).len()));
            }
        }
    }
    false
}

/// `str::starts_with` with a string pattern.
pub fn str_starts_with(h: &str, n: &str) -> (r: bool)
    ensures
        r == starts_with_bytes(bytes_of(h), bytes_of(n)),
{
    proof {
        crate::text::lemma_chars_of_bytes(h);
        crate::text::lemma_chars_of_bytes(n);
    }
    bytes_starts_with(h.as_bytes(), n.as_bytes())
}

/// `h` begins with `n`.
pub fn bytes_starts_with(h: &[u8], n: &[u8]) -> (r: bool)
    ensures
        r == starts_with_bytes(h@, n@),
{
    if n.len() > h.len() {
        return false;
    }
    bytes_at(h, n, 0)
}

pub(crate) fn bytes_at(hb: &[u8], nb: &[u8], i: usize) -> (r: bool)
    requires
        i + nb.len() <= hb.len(),
    ensures
        r == occurs_at(hb@, nb@, i as int),
{
    let mut j: usize = 0;
    while j < nb.len()
        invariant
            i + nb.len() <= hb.len(),
            j <= nb.len(),
            forall|k: int| 0 <= k < j ==> hb@[i + k] == nb@[k],
        decreases nb.len() - j,
    {
        if hb[i + j] != nb[j] {
            proof {
                assert(hb@.subrange(i as int, i + nb.len())[j as int] != nb@[j as int]);
            }
            return false;
        }
        j += 1;
    }
    proof {
        assert(hb@.subrange(i as int, i + nb.len()) =~= nb@);
    }
    true
}

proof fn lemma_lex_skip(a: Seq<u8>, b: Seq<u8>, i: int)
    requires
        0 <= i <= a.len(),
        i <= b.len(),
        a.take(i) == b.take(i),
    ensures
        lex_lt(a, b) == lex_lt(a.skip(i), b.skip(i)),
    decreases i,
{
    if i > 0 {
        assert(a[0] == a.take(i)[0]);
        assert(b[0] == b.take(i)[0]);
        assert(a.drop_first().take(i - 1) =~= a.take(i).drop_first());
        assert(b.drop_first().take(i - 1) =~= b.take(i).drop_first());
        lemma_lex_skip(a.drop_first(), b.drop_first(), i - 1);
        assert(a.drop_first().skip(i - 1) =~= a.skip(i));
        assert(b.drop_first().skip(i - 1) =~= b.skip(i));
    } else {
        assert(a.skip(0) =~= a);
        assert(b.skip(0) =~= b);
    }
}

/// `a < b` in `str`'s order (bytewise, a proper prefix first).
pub fn str_less(a: &str, b: &str) -> (r: bool)
    ensures
        r == lex_lt(bytes_of(a), bytes_of(b)),
{
    proof {
        crate::text::lemma_chars_of_bytes(a);
        crate::text::lemma_chars_of_bytes(b);
    }
    bytes_less(a.as_bytes(), b.as_bytes())
}

/// `a < b` bytewise, a proper prefix first.
pub fn bytes_less(ab: &[u8], bb: &[u8]) -> (r: bool)
    ensures
        r == lex_lt(ab@, bb@),
{
    let mut i: usize = 0;
    while i < ab.len() && i < bb.len()
        invariant
            i <= ab.len(),
            i <= bb.len(),
            ab@.take(i as int) == bb@.take(i as int),
        decreases ab.len() - i,
    {
        if ab[i] != bb[i] {
            proof {
                lemma_lex_skip(ab@, bb@, i as int);
            }
            return ab[i] < bb[i];
        }
        proof {
            assert(ab@.take(i + 1) =~= ab@.take(i as int).push(ab@[i as int]));
            assert(bb@.take(i + 1) =~= bb@.take(i as int).push(bb@[i as int]));
        }
        i += 1;
    }
    proof {
        lemma_lex_skip(ab@, bb@, i as int);
    }
    i == ab.len() && i < bb.len()
}

/// `a` and `b` hold the same bytes.
pub fn bytes_equal(a: &[u8], b: &[u8]) -> (r: bool)
    ensures
        r == (a@ == b@),
{
    if a.len() != b.len() {
        return false;
    }
    let r = bytes_at(a, b, 0);
    proof {
        assert(a@.subrange(0, b@.len() as int) =~= a@);
    }
    r
}

/// Two strings are equal exactly when their bytes are.
pub fn str_eq(a: &str, b: &str) -> (r: bool)
    ensures
        r == (a@ == b@),
{
    proof {
        crate::text::lemma_chars_of_bytes(a);
        crate::text::lemma_chars_of_bytes(b);
    }
    bytes_equal(a.as_bytes(), b.as_bytes())
}

/// A copy of `b[from..to]`.
pub fn copy_bytes(b: &[u8], from: usize, to: usize) -> (r: Vec<u8>)
    requires
        from <= to <= b.len(),
    ensures
        r@ == b@.subrange(from as int, to as int),
{
    let mut r: Vec<u8> = Vec::new();
    let mut i = from;
    while i < to
        invariant
            from <= i <= to <= b.len(),
            r@ == b@.subrange(from as int, i as int),
        decreases to - i,
    {
        r.push(b[i]);
        proof {
            assert(r@ =~= b@.subrange(from as int, i + 1));
        }
        i += 1;
    }
    r
}

} // verus!
