//! Byte-offset text primitives over UTF-8 strings.
//!
//! Every position in the editor is a byte offset into UTF-8 text. The specs
//! here speak of the encoded bytes of a string (`encode_utf8(s@)`), its char
//! boundaries, and the char whose encoding starts at a boundary.
use vstd::prelude::*;
use vstd::utf8::*;
use vstd::string::{StringExecFns, StringSliceAdditionalSpecFns};

verus! {

broadcast use {
    vstd::string::group_string_axioms,
    vstd::utf8::encode_utf8_valid_utf8,
    vstd::utf8::encode_utf8_decode_utf8,
    vstd::utf8::is_char_boundary_start_end_of_seq,
};

/// The UTF-8 bytes of a char sequence.
pub open spec fn utf8(chars: Seq<char>) -> Seq<u8> {
    encode_utf8(chars)
}

/// The chars encoded in `bytes[from..to]`.
pub open spec fn chars_in(bytes: Seq<u8>, from: int, to: int) -> Seq<char> {
    decode_utf8(bytes.subrange(from, to))
}

/// The char whose encoding starts at byte `i`.
pub open spec fn char_at_spec(bytes: Seq<u8>, i: int) -> char {
    chars_in(bytes, i, bytes.len() as int)[0]
}

/// `p` is the last char boundary before `i` (or `i` is `0` and so is `p`).
pub open spec fn is_prev_boundary(bytes: Seq<u8>, i: int, p: int) -> bool {
    if i == 0 {
        p == 0
    } else {
        &&& 0 <= p < i
        &&& is_char_boundary(bytes, p)
        &&& forall|k: int| p < k < i ==> !is_char_boundary(bytes, k)
    }
}

/// `q` is the first char boundary after `i` (or `i` is the end and so is `q`).
pub open spec fn is_next_boundary(bytes: Seq<u8>, i: int, q: int) -> bool {
    if i == bytes.len() {
        q == i
    } else {
        &&& i < q <= bytes.len()
        &&& is_char_boundary(bytes, q)
        &&& forall|k: int| i < k < q ==> !is_char_boundary(bytes, k)
    }
}

/// The char that ends at boundary `i`, i.e. the one starting at the boundary before it.
pub open spec fn char_before_spec(bytes: Seq<u8>, i: int) -> char {
    char_at_spec(bytes, choose|p: int| is_prev_boundary(bytes, i, p))
}

pub proof fn lemma_utf8_concat(a: Seq<char>, b: Seq<char>)
    ensures
        encode_utf8(a + b) == encode_utf8(a) + encode_utf8(b),
    decreases a.len(),
{
    if a.len() == 0 {
        assert(a + b =~= b);
        assert(encode_utf8(a) =~= Seq::<u8>::empty());
        assert(encode_utf8(a) + encode_utf8(b) =~= encode_utf8(b));
    } else {
        lemma_utf8_concat(a.drop_first(), b);
        assert((a + b).drop_first() =~= a.drop_first() + b);
        assert((a + b)[0] == a[0]);
        assert(encode_utf8(a + b) =~= encode_scalar(a[0] as u32) + encode_utf8(a.drop_first() + b));
        assert(encode_utf8(a) + encode_utf8(b) =~= encode_scalar(a[0] as u32) + (encode_utf8(
            a.drop_first(),
        ) + encode_utf8(b)));
    }
}

/// Two char sequences where one starts the other and whose encodings are
/// equally long are the same.
pub proof fn lemma_same_prefix_same_bytes(a: Seq<char>, b: Seq<char>)
    requires
        forall|k: int| 0 <= k < a.len() && k < b.len() ==> a[k] == b[k],
        encode_utf8(a).len() == encode_utf8(b).len(),
    ensures
        a == b,
{
    if a.len() <= b.len() {
        let rest = b.skip(a.len() as int);
        assert(b =~= a + rest);
        lemma_utf8_concat(a, rest);
        if rest.len() > 0 {
            assert(encode_utf8(rest).len() >= 1) by {
                assert(encode_scalar(rest[0] as u32).len() >= 1);
            }
        }
        assert(rest.len() == 0);
        assert(a =~= b);
    } else {
        let rest = a.skip(b.len() as int);
        assert(a =~= b + rest);
        lemma_utf8_concat(b, rest);
        assert(encode_scalar(rest[0] as u32).len() >= 1);
    }
}

/// A boundary stays a boundary in the part of the bytes that starts at another boundary.
pub proof fn lemma_boundary_suffix(bytes: Seq<u8>, a: int, k: int)
    requires
        valid_utf8(bytes),
        is_char_boundary(bytes, a),
        a <= k <= bytes.len(),
    ensures
        valid_utf8(bytes.subrange(a, bytes.len() as int)),
        is_char_boundary(bytes.subrange(a, bytes.len() as int), k - a) == is_char_boundary(
            bytes,
            k,
        ),
{
    let suf = bytes.subrange(a, bytes.len() as int);
    valid_utf8_split(bytes, a);
    is_char_boundary_start_end_of_seq(suf);
    if k == bytes.len() {
        assert(k - a == suf.len());
    } else {
        is_char_boundary_iff_not_is_continuation_byte(suf, k - a);
        is_char_boundary_iff_not_is_continuation_byte(bytes, k);
        assert(suf[k - a] == bytes[k]);
        if k == a {
        }
    }
}

/// A boundary stays a boundary in the part of the bytes that ends at another boundary.
pub proof fn lemma_boundary_prefix(bytes: Seq<u8>, b: int, k: int)
    requires
        valid_utf8(bytes),
        is_char_boundary(bytes, b),
        0 <= k <= b,
    ensures
        valid_utf8(bytes.subrange(0, b)),
        is_char_boundary(bytes.subrange(0, b), k) == is_char_boundary(bytes, k),
{
    let pre = bytes.subrange(0, b);
    valid_utf8_split(bytes, b);
    is_char_boundary_start_end_of_seq(pre);
    is_char_boundary_start_end_of_seq(bytes);
    if k == b {
    } else {
        is_char_boundary_iff_not_is_continuation_byte(pre, k);
        is_char_boundary_iff_not_is_continuation_byte(bytes, k);
    }
}

/// The bytes between two boundaries are valid UTF-8, and their chars split at any boundary in between.
pub proof fn lemma_range_split(bytes: Seq<u8>, a: int, m: int, b: int)
    requires
        valid_utf8(bytes),
        is_char_boundary(bytes, a),
        is_char_boundary(bytes, m),
        is_char_boundary(bytes, b),
        0 <= a <= m <= b <= bytes.len(),
    ensures
        valid_utf8(bytes.subrange(a, b)),
        chars_in(bytes, a, b) == chars_in(bytes, a, m) + chars_in(bytes, m, b),
{
    lemma_boundary_suffix(bytes, a, b);
    lemma_boundary_suffix(bytes, a, m);
    let suf = bytes.subrange(a, bytes.len() as int);
    lemma_boundary_prefix(suf, b - a, m - a);
    let mid = suf.subrange(0, b - a);
    assert(mid =~= bytes.subrange(a, b));
    valid_utf8_split(suf, b - a);
    decode_utf8_split(mid, m - a);
    assert(mid.subrange(0, m - a) =~= bytes.subrange(a, m));
    assert(mid.subrange(m - a, mid.len() as int) =~= bytes.subrange(m, b));
    valid_utf8_split(mid, m - a);
}

/// The bytes between two boundaries are valid UTF-8.
pub proof fn lemma_range_valid(bytes: Seq<u8>, a: int, b: int)
    requires
        valid_utf8(bytes),
        is_char_boundary(bytes, a),
        is_char_boundary(bytes, b),
        0 <= a <= b <= bytes.len(),
    ensures
        valid_utf8(bytes.subrange(a, b)),
{
    lemma_range_split(bytes, a, a, b);
}

/// From a boundary before the end, the next boundary is one scalar away and
/// that scalar is the char at the boundary.
pub proof fn lemma_boundary_step(bytes: Seq<u8>, p: int)
    requires
        valid_utf8(bytes),
        is_char_boundary(bytes, p),
        0 <= p < bytes.len(),
    ensures
        ({
            let l = length_of_first_scalar(bytes.subrange(p, bytes.len() as int));
            &&& 1 <= l <= 4
            &&& p + l <= bytes.len()
            &&& is_char_boundary(bytes, p + l)
            &&& forall|k: int| p < k < p + l ==> !is_char_boundary(bytes, k)
            &&& chars_in(bytes, p, p + l) == seq![char_at_spec(bytes, p)]
            &&& is_next_boundary(bytes, p, p + l)
        }),
{
    let n = bytes.len() as int;
    let suf = bytes.subrange(p, n);
    valid_utf8_split(bytes, p);
    assert(valid_first_scalar(suf));
    let l = length_of_first_scalar(suf);
    let rest = pop_first_scalar(suf);
    assert(valid_utf8(rest));
    assert(rest =~= bytes.subrange(p + l, n));
    is_char_boundary_start_end_of_seq(bytes);
    if p + l < n {
        is_char_boundary_iff_not_is_continuation_byte(bytes, p + l);
        assert(valid_first_scalar(rest));
        assert(rest[0] == bytes[p + l]);
    }
    assert forall|k: int| p < k < p + l implies !is_char_boundary(bytes, k) by {
        is_char_boundary_iff_not_is_continuation_byte(bytes, k);
        assert(bytes[k] == suf[k - p]);
    }
    // the chars of the single scalar
    lemma_range_split(bytes, p, p + l, n);
    assert(chars_in(bytes, p, n) == seq![decode_first_scalar(suf) as char] + decode_utf8(rest));
    let one = bytes.subrange(p, p + l);
    lemma_range_valid(bytes, p, p + l);
    assert(one.len() == l);
    assert(valid_first_scalar(one)) by {
        assert(one[0] == suf[0]);
        if l >= 2 {
            assert(one[1] == suf[1]);
        }
        if l >= 3 {
            assert(one[2] == suf[2]);
        }
        if l >= 4 {
            assert(one[3] == suf[3]);
        }
    }
    assert(pop_first_scalar(one) =~= Seq::<u8>::empty());
    assert(decode_first_scalar(one) == decode_first_scalar(suf)) by {
        assert(one[0] == suf[0]);
        if l >= 2 {
            assert(one[1] == suf[1]);
        }
        if l >= 3 {
            assert(one[2] == suf[2]);
        }
        if l >= 4 {
            assert(one[3] == suf[3]);
        }
    }
    assert(decode_utf8(one) =~= seq![decode_first_scalar(suf) as char]);
}

/// The UTF-8 bytes of a string slice.
pub open spec fn bytes_of(s: &str) -> Seq<u8> {
    encode_utf8(s@)
}

/// The UTF-8 bytes of a string.
pub open spec fn string_bytes(s: &String) -> Seq<u8> {
    encode_utf8(s@)
}

/// The chars of a string slice are those its bytes decode to.
pub proof fn lemma_chars_of_bytes(s: &str)
    ensures
        valid_utf8(bytes_of(s)),
        decode_utf8(bytes_of(s)) == s@,
        s.spec_bytes() == bytes_of(s),
        is_char_boundary(bytes_of(s), 0),
        is_char_boundary(bytes_of(s), bytes_of(s).len() as int),
{
}

/// The char boundary before boundary `i` (`0` at the start).
pub open spec fn prev_boundary_spec(b: Seq<u8>, i: int) -> int {
    choose|p: int| is_prev_boundary(b, i, p)
}

/// The char boundary after boundary `i` (the end at the end).
pub open spec fn next_boundary_spec(b: Seq<u8>, i: int) -> int {
    choose|q: int| is_next_boundary(b, i, q)
}

pub proof fn lemma_prev_unique(b: Seq<u8>, i: int, p: int)
    requires
        is_prev_boundary(b, i, p),
    ensures
        prev_boundary_spec(b, i) == p,
        char_before_spec(b, i) == char_at_spec(b, p),
{
    let c = prev_boundary_spec(b, i);
    assert(is_prev_boundary(b, i, c));
    if i != 0 {
        if c < p {
            assert(!is_char_boundary(b, p));
        } else if p < c {
            assert(!is_char_boundary(b, c));
        }
    }
}

pub proof fn lemma_next_unique(b: Seq<u8>, i: int, q: int)
    requires
        is_next_boundary(b, i, q),
    ensures
        next_boundary_spec(b, i) == q,
{
    let c = next_boundary_spec(b, i);
    assert(is_next_boundary(b, i, c));
    if i != b.len() {
        if c < q {
            assert(!is_char_boundary(b, c));
        } else if q < c {
            assert(!is_char_boundary(b, q));
        }
    }
}

/// Every boundary after the start has a boundary before it.
pub proof fn lemma_prev_exists(b: Seq<u8>, i: int)
    requires
        valid_utf8(b),
        0 <= i <= b.len(),
    ensures
        exists|p: int| is_prev_boundary(b, i, p),
{
    is_char_boundary_start_end_of_seq(b);
    if i == 0 {
        assert(is_prev_boundary(b, i, 0));
    } else {
        let p = choose_prev(b, i, i - 1);
        assert(is_prev_boundary(b, i, p));
    }
}

proof fn choose_prev(b: Seq<u8>, i: int, hi: int) -> (p: int)
    requires
        valid_utf8(b),
        0 <= hi < i <= b.len(),
        forall|k: int| hi < k < i ==> !is_char_boundary(b, k),
    ensures
        0 <= p <= hi,
        is_char_boundary(b, p),
        forall|k: int| p < k < i ==> !is_char_boundary(b, k),
    decreases hi,
{
    is_char_boundary_start_end_of_seq(b);
    if is_char_boundary(b, hi) {
        hi
    } else {
        choose_prev(b, i, hi - 1)
    }
}

/// Length of `s` in bytes.
pub fn byte_len(s: &str) -> (n: usize)
    ensures
        n == bytes_of(s).len(),
{
    s.as_bytes().len()
}

/// The char boundary before boundary `i`, or `0` at the start.
pub fn prev_boundary(s: &str, i: usize) -> (p: usize)
    requires
        i <= bytes_of(s).len(),
        is_char_boundary(bytes_of(s), i as int),
    ensures
        is_prev_boundary(bytes_of(s), i as int, p as int),
{
    if i == 0 {
        return 0;
    }
    let mut p = i - 1;
    while !s.is_char_boundary(p)
        invariant
            0 <= p < i <= bytes_of(s).len(),
            valid_utf8(bytes_of(s)),
            is_char_boundary(bytes_of(s), 0),
            forall|k: int| p < k < i ==> !is_char_boundary(bytes_of(s), k),
        decreases p,
    {
        p = p - 1;
    }
    p
}

/// The char boundary after boundary `i`, or the end of the text at the end.
pub fn next_boundary(s: &str, i: usize) -> (q: usize)
    requires
        i <= bytes_of(s).len(),
        is_char_boundary(bytes_of(s), i as int),
    ensures
        is_next_boundary(bytes_of(s), i as int, q as int),
{
    let n = byte_len(s);
    if i == n {
        return i;
    }
    let mut q = i + 1;
    while q < n && !s.is_char_boundary(q)
        invariant
            i < q <= n,
            n == bytes_of(s).len(),
            valid_utf8(bytes_of(s)),
            is_char_boundary(bytes_of(s), n as int),
            forall|k: int| i < k < q ==> !is_char_boundary(bytes_of(s), k),
        decreases n - q,
    {
        q = q + 1;
    }
    q
}

/// The part of `s` from boundary `a` to boundary `b`.
pub fn substr(s: &str, a: usize, b: usize) -> (r: &str)
    requires
        a <= b <= bytes_of(s).len(),
        is_char_boundary(bytes_of(s), a as int),
        is_char_boundary(bytes_of(s), b as int),
    ensures
        bytes_of(r) == bytes_of(s).subrange(a as int, b as int),
        r@ == chars_in(bytes_of(s), a as int, b as int),
{
    proof {
        lemma_boundary_suffix(bytes_of(s), a as int, b as int);
    }
    let (_, tail) = s.split_at(a);
    let (mid, _) = tail.split_at(b - a);
    proof {
        assert(bytes_of(s).subrange(a as int, bytes_of(s).len() as int).subrange(0, b - a)
            =~= bytes_of(s).subrange(a as int, b as int));
        lemma_range_valid(bytes_of(s), a as int, b as int);
    }
    mid
}

/// The char whose encoding starts at boundary `i`.
pub fn char_at(s: &str, i: usize) -> (c: char)
    requires
        i < bytes_of(s).len(),
        is_char_boundary(bytes_of(s), i as int),
    ensures
        c == char_at_spec(bytes_of(s), i as int),
{
    let n = byte_len(s);
    let rest = substr(s, i, n);
    proof {
        assert(rest@.len() > 0) by {
            if rest@.len() == 0 {
                assert(bytes_of(rest) =~= Seq::<u8>::empty());
            }
        }
    }
    let mut it = rest.chars();
    let r = it.next();
    r.unwrap()
}

/// A boundary of a valid prefix stays a boundary once more valid bytes follow.
pub proof fn lemma_boundary_concat(p: Seq<u8>, r: Seq<u8>, x: int)
    requires
        valid_utf8(p),
        valid_utf8(r),
        is_char_boundary(p, x),
        0 <= x <= p.len(),
    ensures
        valid_utf8(p + r),
        is_char_boundary(p + r, x),
{
    valid_utf8_concat(p, r);
    let pr = p + r;
    is_char_boundary_start_end_of_seq(pr);
    if x < p.len() {
        is_char_boundary_iff_not_is_continuation_byte(p, x);
        is_char_boundary_iff_not_is_continuation_byte(pr, x);
        assert(pr[x] == p[x]);
    } else if r.len() > 0 {
        is_char_boundary_iff_not_is_continuation_byte(pr, x);
        assert(pr[x] == r[0]);
        assert(valid_first_scalar(r));
    } else {
        assert(pr =~= p);
    }
}

/// What follows a valid prefix inside valid bytes is valid.
pub proof fn lemma_valid_rest(p: Seq<u8>, r: Seq<u8>)
    requires
        valid_utf8(p),
        valid_utf8(p + r),
    ensures
        valid_utf8(r),
    decreases p.len(),
{
    if p.len() == 0 {
        assert(p + r =~= r);
    } else {
        let pr = p + r;
        let l = length_of_first_scalar(p);
        assert(pr[0] == p[0]);
        if l >= 2 {
            assert(pr[1] == p[1]);
        }
        if l >= 3 {
            assert(pr[2] == p[2]);
        }
        if l >= 4 {
            assert(pr[3] == p[3]);
        }
        assert(length_of_first_scalar(pr) == l);
        assert(pop_first_scalar(pr) =~= pop_first_scalar(p) + r);
        lemma_valid_rest(pop_first_scalar(p), r);
    }
}

/// The chars of `s`, one by one.
pub fn chars_vec(s: &str) -> (v: Vec<char>)
    ensures
        v@ == s@,
{
    let n = byte_len(s);
    let ghost b = bytes_of(s);
    let mut v: Vec<char> = Vec::new();
    let mut pos: usize = 0;
    proof {
        assert(b.subrange(0, 0) =~= Seq::<u8>::empty());
        assert(chars_in(b, 0, 0) =~= Seq::<char>::empty());
    }
    while pos < n
        invariant
            b == bytes_of(s),
            n == b.len(),
            valid_utf8(b),
            pos <= n,
            is_char_boundary(b, pos as int),
            is_char_boundary(b, 0),
            v@ == chars_in(b, 0, pos as int),
        decreases n - pos,
    {
        let c = char_at(s, pos);
        let q = next_boundary(s, pos);
        proof {
            lemma_boundary_step(b, pos as int);
            let l = length_of_first_scalar(b.subrange(pos as int, b.len() as int));
            assert(q == pos + l) by {
                if q < pos + l {
                    assert(!is_char_boundary(b, q as int));
                } else if q > pos + l {
                    assert(!is_char_boundary(b, pos + l));
                }
            }
            lemma_range_split(b, 0, pos as int, q as int);
        }
        v.push(c);
        pos = q;
    }
    proof {
        assert(b.subrange(0, n as int) =~= b);
    }
    v
}

/// The first `max` chars of `s` (all of it when it is shorter).
pub open spec fn prefix_chars(s: Seq<char>, max: usize) -> Seq<char> {
    if max < s.len() {
        s.take(max as int)
    } else {
        s
    }
}

/// The first `max` chars of `s` (all of it when it is shorter).
pub fn take_chars(s: &str, max: usize) -> (r: &str)
    ensures
        r@ == prefix_chars(s@, max),
{
    let n = byte_len(s);
    let ghost b = bytes_of(s);
    let mut pos: usize = 0;
    let mut k: usize = 0;
    proof {
        assert(b.subrange(0, 0) =~= Seq::<u8>::empty());
        assert(chars_in(b, 0, 0) =~= Seq::<char>::empty());
    }
    while k < max && pos < n
        invariant
            b == bytes_of(s),
            n == b.len(),
            valid_utf8(b),
            pos <= n,
            k <= max,
            is_char_boundary(b, pos as int),
            is_char_boundary(b, 0),
            chars_in(b, 0, pos as int).len() == k,
        decreases n - pos,
    {
        let q = next_boundary(s, pos);
        proof {
            lemma_boundary_step(b, pos as int);
            let l = length_of_first_scalar(b.subrange(pos as int, b.len() as int));
            assert(q == pos + l) by {
                if q < pos + l {
                    assert(!is_char_boundary(b, q as int));
                } else if q > pos + l {
                    assert(!is_char_boundary(b, pos + l));
                }
            }
            lemma_range_split(b, 0, pos as int, q as int);
        }
        pos = q;
        k = k + 1;
    }
    let r = substr(s, 0, pos);
    proof {
        lemma_range_split(b, 0, pos as int, n as int);
        assert(b.subrange(0, n as int) =~= b);
        let whole = chars_in(b, 0, n as int);
        assert(whole == s@);
        assert(whole == chars_in(b, 0, pos as int) + chars_in(b, pos as int, n as int));
        if pos == n {
            assert(chars_in(b, pos as int, n as int).len() == 0) by {
                assert(b.subrange(pos as int, n as int) =~= Seq::<u8>::empty());
            }
            assert(r@ =~= s@);
        } else {
            assert(k == max);
            assert(r@ =~= s@.take(max as int));
        }
    }
    r
}

/// The seam between two valid byte sequences is a boundary.
pub proof fn lemma_boundary_concat_back(p: Seq<u8>, r: Seq<u8>)
    requires
        valid_utf8(p),
        valid_utf8(r),
    ensures
        is_char_boundary(p + r, p.len() as int),
{
    is_char_boundary_start_end_of_seq(p);
    lemma_boundary_concat(p, r, p.len() as int);
}

/// A new string: `s` with bytes `a..b` replaced by `t`.
pub fn splice(s: &str, a: usize, b: usize, t: &str) -> (r: String)
    requires
        a <= b <= bytes_of(s).len(),
        is_char_boundary(bytes_of(s), a as int),
        is_char_boundary(bytes_of(s), b as int),
    ensures
        string_bytes(&r) == bytes_of(s).subrange(0, a as int) + bytes_of(t) + bytes_of(s).subrange(
            b as int,
            bytes_of(s).len() as int,
        ),
{
    let n = byte_len(s);
    let head = substr(s, 0, a);
    let tail = substr(s, b, n);
    let mut r = String::new();
    r.append(head);
    r.append(t);
    r.append(tail);
    proof {
        lemma_utf8_concat(head@, t@);
        lemma_utf8_concat(head@ + t@, tail@);
        assert(r@ == head@ + t@ + tail@);
    }
    r
}

/// Calls `String::push`: `c` goes at the end of `s`.
#[verifier::external_body]
pub fn push_char(s: &mut String, c: char)
    ensures
        final(s)@ == old(s)@.push(c),
{
    s.push(c);
}

// ─── UTF-16 ────────────────────────────────────────────────────────────────

/// How many UTF-16 code units a char takes.
pub open spec fn utf16_width(c: char) -> nat {
    if c as u32 >= 0x10000 {
        2
    } else {
        1
    }
}

/// The length of a text in UTF-16 code units, as JavaScript counts it.
pub open spec fn utf16_units(s: Seq<char>) -> nat
    decreases s.len(),
{
    if s.len() == 0 {
        0
    } else {
        utf16_units(s.drop_last()) + utf16_width(s.last())
    }
}

/// A text takes no more UTF-16 code units than UTF-8 bytes.
pub proof fn lemma_utf16_below_utf8(s: Seq<char>)
    ensures
        utf16_units(s) <= encode_utf8(s).len(),
    decreases s.len(),
{
    if s.len() > 0 {
        lemma_utf16_below_utf8(s.drop_last());
        lemma_utf8_concat(s.drop_last(), seq![s.last()]);
        assert(s.drop_last() + seq![s.last()] =~= s);
        let one = seq![s.last()];
        assert(one.drop_first() =~= Seq::<char>::empty());
        assert(encode_utf8(one.drop_first()) =~= Seq::<u8>::empty());
        assert(encode_utf8(one) =~= encode_scalar(one[0] as u32) + encode_utf8(one.drop_first()));
    }
}

/// A prefix of a text takes no more UTF-16 code units than the text.
pub proof fn lemma_utf16_prefix(s: Seq<char>, j: int)
    requires
        0 <= j <= s.len(),
    ensures
        utf16_units(s.take(j)) <= utf16_units(s),
    decreases s.len(),
{
    if j < s.len() {
        lemma_utf16_prefix(s.drop_last(), j);
        assert(s.drop_last().take(j) =~= s.take(j));
    } else {
        assert(s.take(j) =~= s);
    }
}

/// The length of `s` in UTF-16 code units.
pub fn utf16_len(s: &str) -> (r: usize)
    ensures
        r == utf16_units(s@),
{
    let chars = chars_vec(s);
    let n = byte_len(s);
    proof {
        lemma_utf16_below_utf8(s@);
    }
    let mut count: usize = 0;
    let mut i: usize = 0;
    while i < chars.len()
        invariant
            chars@ == s@,
            i <= chars@.len(),
            count == utf16_units(chars@.take(i as int)),
            utf16_units(s@) <= n,
        decreases chars@.len() - i,
    {
        proof {
            assert(chars@.take(i + 1).drop_last() =~= chars@.take(i as int));
            lemma_utf16_prefix(chars@, i + 1);
        }
        if chars[i] as u32 >= 0x10000 {
            count = count + 2;
        } else {
            count = count + 1;
        }
        i += 1;
    }
    proof {
        assert(chars@.take(i as int) =~= chars@);
    }
    count
}

} // verus!
