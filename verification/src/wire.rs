//! Big-endian primitive encoding used by snapshots: writers, readers, and the
//! facts that tie a reader to its writer.
//!
//! A reader works at a byte position `p` into a buffer `b`: on success it
//! returns the value and advances `p` past it. Reading past the end fails.

use vstd::prelude::*;
use crate::fix::{Fix64, Vec2};

verus! {

// ---------------------------------------------------------------------------
// Byte-level specifications
// ---------------------------------------------------------------------------

/// `e` occurs in `s` starting at index `i`.
pub open spec fn has_at(s: Seq<u8>, i: int, e: Seq<u8>) -> bool {
    0 <= i && i + e.len() <= s.len() && s.subrange(i, i + e.len()) == e
}

/// The encoding of a byte.
pub open spec fn enc_u8(v: u8) -> Seq<u8> {
    seq![v]
}

/// The encoding of a flag: 1 for true, 0 for false.
pub open spec fn enc_bool(v: bool) -> Seq<u8> {
    seq![if v { 1u8 } else { 0u8 }]
}

/// The big-endian encoding of a 32-bit word.
pub open spec fn enc_u32(v: u32) -> Seq<u8> {
    seq![(v >> 24u32) as u8, (v >> 16u32) as u8, (v >> 8u32) as u8, v as u8]
}

/// The big-endian encoding of a 64-bit word.
pub open spec fn enc_u64(v: u64) -> Seq<u8> {
    seq![
        (v >> 56u64) as u8,
        (v >> 48u64) as u8,
        (v >> 40u64) as u8,
        (v >> 32u64) as u8,
        (v >> 24u64) as u8,
        (v >> 16u64) as u8,
        (v >> 8u64) as u8,
        v as u8,
    ]
}

/// The encoding of a fixed-point number: its raw bits as a big-endian 64-bit word.
pub open spec fn enc_fix(v: Fix64) -> Seq<u8> {
    enc_u64(v.0 as u64)
}

/// The encoding of a vector: `x` then `y`.
pub open spec fn enc_vec(v: Vec2) -> Seq<u8> {
    enc_fix(v.x) + enc_fix(v.y)
}

/// The encoding of an optional vector: a 1 followed by the vector, or a single 0.
pub open spec fn enc_opt_vec(v: Option<Vec2>) -> Seq<u8> {
    match v {
        Some(t) => enc_u8(1) + enc_vec(t),
        None => enc_u8(0),
    }
}

/// The 32-bit word stored big-endian at index `i`.
pub open spec fn rd_u32(s: Seq<u8>, i: int) -> u32 {
    ((s[i] as u32) << 24u32) | ((s[i + 1] as u32) << 16u32) | ((s[i + 2] as u32) << 8u32) | (s[
        i + 3
    ] as u32)
}

/// The 64-bit word stored big-endian at index `i`.
pub open spec fn rd_u64(s: Seq<u8>, i: int) -> u64 {
    ((s[i] as u64) << 56u64) | ((s[i + 1] as u64) << 48u64) | ((s[i + 2] as u64) << 40u64) | ((s[i
        + 3] as u64) << 32u64) | ((s[i + 4] as u64) << 24u64) | ((s[i + 5] as u64) << 16u64) | ((s[i
        + 6] as u64) << 8u64) | (s[i + 7] as u64)
}

/// The fixed-point number stored at index `i`.
pub open spec fn rd_fix(s: Seq<u8>, i: int) -> Fix64 {
    Fix64(rd_u64(s, i) as i64)
}

/// Whether `n` bytes can be read at index `i`.
pub open spec fn fits(s: Seq<u8>, i: int, n: int) -> bool {
    0 <= i && i + n <= s.len()
}

/// Reading a byte at `i`: the value and the index after it.
pub open spec fn sp_u8(s: Seq<u8>, i: int) -> Option<(u8, int)> {
    if fits(s, i, 1) { Some((s[i], i + 1)) } else { None }
}

/// Reading a flag (any nonzero byte is true).
pub open spec fn sp_bool(s: Seq<u8>, i: int) -> Option<(bool, int)> {
    if fits(s, i, 1) { Some((s[i] != 0, i + 1)) } else { None }
}

/// Reading a 32-bit word.
pub open spec fn sp_u32(s: Seq<u8>, i: int) -> Option<(u32, int)> {
    if fits(s, i, 4) { Some((rd_u32(s, i), i + 4)) } else { None }
}

/// Reading a 64-bit word.
pub open spec fn sp_u64(s: Seq<u8>, i: int) -> Option<(u64, int)> {
    if fits(s, i, 8) { Some((rd_u64(s, i), i + 8)) } else { None }
}

/// Reading a fixed-point number.
pub open spec fn sp_fix(s: Seq<u8>, i: int) -> Option<(Fix64, int)> {
    if fits(s, i, 8) { Some((rd_fix(s, i), i + 8)) } else { None }
}

/// Reading a vector.
pub open spec fn sp_vec(s: Seq<u8>, i: int) -> Option<(Vec2, int)> {
    if fits(s, i, 16) { Some((Vec2 { x: rd_fix(s, i), y: rd_fix(s, i + 8) }, i + 16)) } else { None }
}

/// Reading an optional vector: a nonzero tag is followed by the vector.
pub open spec fn sp_opt_vec(s: Seq<u8>, i: int) -> Option<(Option<Vec2>, int)> {
    match sp_u8(s, i) {
        Some((t, j)) => if t != 0 {
            match sp_vec(s, j) {
                Some((v, k)) => Some((Some(v), k)),
                None => None,
            }
        } else {
            Some((None, j))
        },
        None => None,
    }
}

/// Reading a length prefix that must not exceed `max`.
pub open spec fn sp_count(s: Seq<u8>, i: int, max: usize) -> Option<(usize, int)> {
    match sp_u32(s, i) {
        Some((n, j)) => if n > max { None } else { Some((n as usize, j)) },
        None => None,
    }
}

/// A reader's outcome agrees with the specified reading `sp`: the same value, and the
/// position moved to the index after it; the position never moves backwards.
pub open spec fn decoded<X>(r: Option<X>, p_old: usize, p_new: usize, sp: Option<(X, int)>) -> bool {
    &&& p_old <= p_new
    &&& match sp {
        Some((x, j)) => r == Some(x) && p_new == j,
        None => r is None,
    }
}

/// Like [`decoded`], for readers whose result is compared by its view.
pub open spec fn decoded_view<X: View>(r: Option<X>, p_old: usize, p_new: usize, sp: Option<(X::V, int)>) -> bool {
    &&& p_old <= p_new
    &&& match sp {
        Some((v, j)) => (r matches Some(x) && x@ == v) && p_new == j,
        None => r is None,
    }
}

/// Positions and buffer lengths within the machine's address range, where no position
/// arithmetic of a reader can overflow.
pub open spec fn readable(b: Seq<u8>, p: usize) -> bool {
    p <= isize::MAX && b.len() <= isize::MAX
}

// ---------------------------------------------------------------------------
// Repetition
// ---------------------------------------------------------------------------

/// Reading `n` items one after another with the item reader `p`.
pub open spec fn sp_repeat<X>(
    p: spec_fn(Seq<u8>, int) -> Option<(X, int)>,
    s: Seq<u8>,
    i: int,
    n: nat,
) -> Option<(Seq<X>, int)>
    decreases n,
{
    if n == 0 {
        Some((Seq::empty(), i))
    } else {
        match sp_repeat(p, s, i, (n - 1) as nat) {
            Some((xs, j)) => match p(s, j) {
                Some((x, k)) => Some((xs.push(x), k)),
                None => None,
            },
            None => None,
        }
    }
}

/// The encodings of `xs`, one after another.
pub open spec fn enc_all<X>(e: spec_fn(X) -> Seq<u8>, xs: Seq<X>) -> Seq<u8>
    decreases xs.len(),
{
    if xs.len() == 0 {
        Seq::empty()
    } else {
        enc_all(e, xs.drop_last()) + e(xs.last())
    }
}

/// `p` reads back what `e` writes, for every item accepted by `ok`.
pub open spec fn inverts<X>(
    p: spec_fn(Seq<u8>, int) -> Option<(X, int)>,
    e: spec_fn(X) -> Seq<u8>,
    ok: spec_fn(X) -> bool,
) -> bool {
    forall|x: X, s: Seq<u8>, i: int|
        ok(x) && #[trigger] has_at(s, i, e(x)) ==> p(s, i) == Some((x, i + e(x).len()))
}

/// The predicate that accepts everything.
pub open spec fn always<X>() -> spec_fn(X) -> bool {
    |x: X| true
}

/// Encoding of an optional value: 1 and the value, or a single 0.
pub open spec fn enc_opt<X>(e: spec_fn(X) -> Seq<u8>, v: Option<X>) -> Seq<u8> {
    match v {
        Some(x) => enc_u8(1) + e(x),
        None => enc_u8(0),
    }
}

/// Reading an optional value: a nonzero tag byte is followed by the value.
pub open spec fn sp_opt<X>(body: spec_fn(Seq<u8>, int) -> Option<(X, int)>, s: Seq<u8>, i: int) -> Option<(Option<X>, int)> {
    match sp_u8(s, i) {
        Some((t, j)) => if t != 0 {
            match body(s, j) {
                Some((x, k)) => Some((Some(x), k)),
                None => None,
            }
        } else {
            Some((None, j))
        },
        None => None,
    }
}

/// Reading an optional value whose presence byte must be exactly 1; any other byte
/// stands for none.
pub open spec fn sp_opt1<X>(body: spec_fn(Seq<u8>, int) -> Option<(X, int)>, s: Seq<u8>, i: int) -> Option<(Option<X>, int)> {
    match sp_u8(s, i) {
        Some((t, j)) => if t == 1 {
            match body(s, j) {
                Some((x, k)) => Some((Some(x), k)),
                None => None,
            }
        } else {
            Some((None, j))
        },
        None => None,
    }
}

/// The first `n` items of `v`, or all of them when there are fewer.
pub open spec fn take_upto<X>(v: Seq<X>, n: int) -> Seq<X> {
    if v.len() <= n { v } else { v.take(n) }
}

// ---------------------------------------------------------------------------
// Lemmas
// ---------------------------------------------------------------------------

/// A concatenation occurs at `i` exactly when its first part does and the second part follows it.
pub proof fn lemma_has_at_split(s: Seq<u8>, i: int, a: Seq<u8>, b: Seq<u8>)
    requires
        has_at(s, i, a + b),
    ensures
        has_at(s, i, a),
        has_at(s, i + a.len(), b),
{
    let t = s.subrange(i, i + a.len() + b.len());
    assert(t == a + b);
    assert(s.subrange(i, i + a.len()) =~= a) by {
        assert forall|k: int| 0 <= k < a.len() implies s.subrange(i, i + a.len())[k] == a[k] by {
            assert(t[k] == (a + b)[k]);
        }
    }
    assert(s.subrange(i + a.len(), i + a.len() + b.len()) =~= b) by {
        assert forall|k: int| 0 <= k < b.len() implies s.subrange(
            i + a.len(),
            i + a.len() + b.len(),
        )[k] == b[k] by {
            assert(t[a.len() + k] == (a + b)[a.len() + k]);
        }
    }
}

/// Two adjacent occurrences form an occurrence of the concatenation.
pub proof fn lemma_has_at_join(s: Seq<u8>, i: int, a: Seq<u8>, b: Seq<u8>)
    requires
        has_at(s, i, a),
        has_at(s, i + a.len(), b),
    ensures
        has_at(s, i, a + b),
{
    assert(s.subrange(i, i + (a + b).len()) =~= a + b) by {
        assert forall|k: int| 0 <= k < (a + b).len() implies s.subrange(i, i + (a + b).len())[k] == (a
            + b)[k] by {
            if k < a.len() {
                assert(s.subrange(i, i + a.len())[k] == a[k]);
            } else {
                assert(s.subrange(i + a.len(), i + a.len() + b.len())[k - a.len()] == b[k - a.len()]);
            }
        }
    }
}

proof fn lemma_u32_bytes(v: u32)
    by (bit_vector)
    ensures
        ((((v >> 24u32) as u8) as u32) << 24u32) | ((((v >> 16u32) as u8) as u32) << 16u32) | ((((v
            >> 8u32) as u8) as u32) << 8u32) | ((v as u8) as u32) == v,
{
}

proof fn lemma_u64_bytes(v: u64)
    by (bit_vector)
    ensures
        ((((v >> 56u64) as u8) as u64) << 56u64) | ((((v >> 48u64) as u8) as u64) << 48u64) | ((((v
            >> 40u64) as u8) as u64) << 40u64) | ((((v >> 32u64) as u8) as u64) << 32u64) | ((((v
            >> 24u64) as u8) as u64) << 24u64) | ((((v >> 16u64) as u8) as u64) << 16u64) | ((((v
            >> 8u64) as u8) as u64) << 8u64) | ((v as u8) as u64) == v,
{
}

proof fn lemma_i64_bits(v: i64)
    by (bit_vector)
    ensures
        (v as u64) as i64 == v,
{
}

/// Reading a byte back.
pub proof fn lemma_u8_rt(v: u8, s: Seq<u8>, i: int)
    requires
        has_at(s, i, enc_u8(v)),
    ensures
        sp_u8(s, i) == Some((v, i + 1)),
{
    assert(s.subrange(i, i + 1)[0] == s[i]);
}

/// Reading a flag back.
pub proof fn lemma_bool_rt(v: bool, s: Seq<u8>, i: int)
    requires
        has_at(s, i, enc_bool(v)),
    ensures
        sp_bool(s, i) == Some((v, i + 1)),
{
    assert(s.subrange(i, i + 1)[0] == s[i]);
}

/// Reading a 32-bit word back.
pub proof fn lemma_u32_rt(v: u32, s: Seq<u8>, i: int)
    requires
        has_at(s, i, enc_u32(v)),
    ensures
        sp_u32(s, i) == Some((v, i + 4)),
{
    let t = s.subrange(i, i + 4);
    assert(s[i] == t[0] && s[i + 1] == t[1] && s[i + 2] == t[2] && s[i + 3] == t[3]);
    lemma_u32_bytes(v);
}

/// Reading a 64-bit word back.
pub proof fn lemma_u64_rt(v: u64, s: Seq<u8>, i: int)
    requires
        has_at(s, i, enc_u64(v)),
    ensures
        sp_u64(s, i) == Some((v, i + 8)),
{
    let t = s.subrange(i, i + 8);
    assert(s[i] == t[0] && s[i + 1] == t[1] && s[i + 2] == t[2] && s[i + 3] == t[3]);
    assert(s[i + 4] == t[4] && s[i + 5] == t[5] && s[i + 6] == t[6] && s[i + 7] == t[7]);
    lemma_u64_bytes(v);
}

/// Reading a fixed-point number back.
pub proof fn lemma_fix_rt(v: Fix64, s: Seq<u8>, i: int)
    requires
        has_at(s, i, enc_fix(v)),
    ensures
        sp_fix(s, i) == Some((v, i + 8)),
{
    lemma_u64_rt(v.0 as u64, s, i);
    lemma_i64_bits(v.0);
}

/// Reading a vector back.
pub proof fn lemma_vec_rt(v: Vec2, s: Seq<u8>, i: int)
    requires
        has_at(s, i, enc_vec(v)),
    ensures
        sp_vec(s, i) == Some((v, i + 16)),
{
    lemma_has_at_split(s, i, enc_fix(v.x), enc_fix(v.y));
    lemma_fix_rt(v.x, s, i);
    lemma_fix_rt(v.y, s, i + 8);
}

/// Reading an optional vector back.
pub proof fn lemma_opt_vec_rt(v: Option<Vec2>, s: Seq<u8>, i: int)
    requires
        has_at(s, i, enc_opt_vec(v)),
    ensures
        sp_opt_vec(s, i) == Some((v, i + enc_opt_vec(v).len())),
{
    match v {
        Some(t) => {
            lemma_has_at_split(s, i, enc_u8(1), enc_vec(t));
            lemma_u8_rt(1, s, i);
            lemma_vec_rt(t, s, i + 1);
        },
        None => {
            lemma_u8_rt(0, s, i);
        },
    }
}

/// Reading an optional value back, given that the value reads back.
pub proof fn lemma_opt_rt<X>(
    body: spec_fn(Seq<u8>, int) -> Option<(X, int)>,
    e: spec_fn(X) -> Seq<u8>,
    v: Option<X>,
    s: Seq<u8>,
    i: int,
)
    requires
        inverts(body, e, always()),
        has_at(s, i, enc_opt(e, v)),
    ensures
        sp_opt(body, s, i) == Some((v, i + enc_opt(e, v).len())),
{
    match v {
        Some(x) => {
            lemma_has_at_split(s, i, enc_u8(1), e(x));
            lemma_u8_rt(1, s, i);
            assert((always::<X>())(x));
            assert(has_at(s, i + 1, e(x)));
        },
        None => {
            lemma_u8_rt(0, s, i);
        },
    }
}

/// Reading an optional value back (presence byte exactly 1), given that every value
/// accepted by `ok` reads back.
pub proof fn lemma_opt1_rt<X>(
    body: spec_fn(Seq<u8>, int) -> Option<(X, int)>,
    e: spec_fn(X) -> Seq<u8>,
    ok: spec_fn(X) -> bool,
    v: Option<X>,
    s: Seq<u8>,
    i: int,
)
    requires
        inverts(body, e, ok),
        v matches Some(x) ==> ok(x),
        has_at(s, i, enc_opt(e, v)),
    ensures
        sp_opt1(body, s, i) == Some((v, i + enc_opt(e, v).len())),
{
    match v {
        Some(x) => {
            lemma_has_at_split(s, i, enc_u8(1), e(x));
            lemma_u8_rt(1, s, i);
            assert(has_at(s, i + 1, e(x)));
        },
        None => {
            lemma_u8_rt(0, s, i);
        },
    }
}

/// Writing the items of `v[..k+1]` is writing those of `v[..k]` and then `v[k]`.
pub proof fn lemma_enc_all_step<X>(e: spec_fn(X) -> Seq<u8>, v: Seq<X>, k: int)
    requires
        0 <= k < v.len(),
    ensures
        enc_all(e, v.take(k + 1)) == enc_all(e, v.take(k)) + e(v[k]),
{
    assert(v.take(k + 1).drop_last() =~= v.take(k));
}

/// A failed reading of `k` items makes every longer reading fail.
pub proof fn lemma_repeat_fail<X>(
    p: spec_fn(Seq<u8>, int) -> Option<(X, int)>,
    s: Seq<u8>,
    i: int,
    k: nat,
    n: nat,
)
    requires
        k <= n,
        sp_repeat(p, s, i, k) is None,
    ensures
        sp_repeat(p, s, i, n) is None,
    decreases n,
{
    if n > k {
        lemma_repeat_fail(p, s, i, k, (n - 1) as nat);
    }
}

/// A successful reading of `n` items yields `n` items, each of them one that the item
/// reader can yield.
pub proof fn lemma_repeat_all<X>(
    p: spec_fn(Seq<u8>, int) -> Option<(X, int)>,
    ok: spec_fn(X) -> bool,
    s: Seq<u8>,
    i: int,
    n: nat,
)
    requires
        forall|t: Seq<u8>, j: int| #[trigger] p(t, j) is Some ==> ok(p(t, j).unwrap().0),
        sp_repeat(p, s, i, n) is Some,
    ensures
        sp_repeat(p, s, i, n).unwrap().0.len() == n,
        forall|k: int| 0 <= k < n ==> ok(#[trigger] sp_repeat(p, s, i, n).unwrap().0[k]),
    decreases n,
{
    if n > 0 {
        lemma_repeat_all(p, ok, s, i, (n - 1) as nat);
        let (xs, j) = sp_repeat(p, s, i, (n - 1) as nat).unwrap();
        assert(p(s, j) is Some);
        let ys = sp_repeat(p, s, i, n).unwrap().0;
        assert(ys == xs.push(p(s, j).unwrap().0));
        assert forall|k: int| 0 <= k < n implies ok(#[trigger] ys[k]) by {
            if k < n - 1 {
                assert(ys[k] == xs[k]);
            }
        }
    }
}

/// Reading back the encodings of a sequence of items, given that each item reads back.
pub proof fn lemma_repeat_rt<X>(
    p: spec_fn(Seq<u8>, int) -> Option<(X, int)>,
    e: spec_fn(X) -> Seq<u8>,
    ok: spec_fn(X) -> bool,
    xs: Seq<X>,
    s: Seq<u8>,
    i: int,
)
    requires
        inverts(p, e, ok),
        forall|k: int| 0 <= k < xs.len() ==> ok(#[trigger] xs[k]),
        has_at(s, i, enc_all(e, xs)),
    ensures
        sp_repeat(p, s, i, xs.len()) == Some((xs, i + enc_all(e, xs).len())),
    decreases xs.len(),
{
    if xs.len() > 0 {
        let ys = xs.drop_last();
        let x = xs.last();
        lemma_has_at_split(s, i, enc_all(e, ys), e(x));
        assert forall|k: int| 0 <= k < ys.len() implies ok(#[trigger] ys[k]) by {
            assert(ys[k] == xs[k]);
        }
        lemma_repeat_rt(p, e, ok, ys, s, i);
        assert(ok(xs[xs.len() - 1]));
        let j = i + enc_all(e, ys).len();
        assert(has_at(s, j, e(x)));
        assert(p(s, j) == Some((x, j + e(x).len())));
        assert(ys.push(x) =~= xs);
        assert(ys.len() == (xs.len() - 1) as nat);
    }
}

// ---------------------------------------------------------------------------
// Writers
// ---------------------------------------------------------------------------

/// Appends a 64-bit word, big-endian.
pub fn wu64(o: &mut Vec<u8>, v: u64)
    ensures
        final(o)@ == old(o)@ + enc_u64(v),
{
    o.push((v >> 56u64) as u8);
    o.push((v >> 48u64) as u8);
    o.push((v >> 40u64) as u8);
    o.push((v >> 32u64) as u8);
    o.push((v >> 24u64) as u8);
    o.push((v >> 16u64) as u8);
    o.push((v >> 8u64) as u8);
    o.push(v as u8);
    assert(o@ =~= old(o)@ + enc_u64(v));
}

/// Appends a 32-bit word, big-endian.
pub fn wu32(o: &mut Vec<u8>, v: u32)
    ensures
        final(o)@ == old(o)@ + enc_u32(v),
{
    o.push((v >> 24u32) as u8);
    o.push((v >> 16u32) as u8);
    o.push((v >> 8u32) as u8);
    o.push(v as u8);
    assert(o@ =~= old(o)@ + enc_u32(v));
}

/// Appends a byte.
pub fn wu8(o: &mut Vec<u8>, v: u8)
    ensures
        final(o)@ == old(o)@ + enc_u8(v),
{
    o.push(v);
    assert(o@ =~= old(o)@ + enc_u8(v));
}

/// Appends a flag as one byte (1 or 0).
pub fn wbool(o: &mut Vec<u8>, v: bool)
    ensures
        final(o)@ == old(o)@ + enc_bool(v),
{
    let b: u8 = if v { 1 } else { 0 };
    o.push(b);
    assert(o@ =~= old(o)@ + enc_bool(v));
}

/// Appends a fixed-point number (its raw bits as a 64-bit word).
pub fn wfix(o: &mut Vec<u8>, v: Fix64)
    ensures
        final(o)@ == old(o)@ + enc_fix(v),
{
    wu64(o, v.to_bits() as u64);
}

/// Appends a vector (`x` then `y`).
pub fn wvec(o: &mut Vec<u8>, v: Vec2)
    ensures
        final(o)@ == old(o)@ + enc_vec(v),
{
    wfix(o, v.x);
    wfix(o, v.y);
    assert(o@ =~= old(o)@ + enc_vec(v));
}

/// Appends an optional vector: 1 and the vector, or a single 0.
pub fn wopt_vec(o: &mut Vec<u8>, v: Option<Vec2>)
    ensures
        final(o)@ == old(o)@ + enc_opt_vec(v),
{
    match v {
        Some(t) => {
            wu8(o, 1);
            wvec(o, t);
            assert(o@ =~= old(o)@ + enc_opt_vec(v));
        },
        None => wu8(o, 0),
    }
}

// ---------------------------------------------------------------------------
// Readers
// ---------------------------------------------------------------------------

/// Reads a 64-bit big-endian word at `*p`.
pub fn u64at(b: &[u8], p: &mut usize) -> (r: Option<u64>)
    requires
        *old(p) <= usize::MAX - 8,
    ensures
        decoded(r, *old(p), *final(p), sp_u64(b@, *old(p) as int)),
        r is None ==> *final(p) == *old(p),
{
    let q = *p;
    if q + 8 > b.len() {
        return None;
    }
    let v: u64 = ((b[q] as u64) << 56u64) | ((b[q + 1] as u64) << 48u64) | ((b[q + 2] as u64)
        << 40u64) | ((b[q + 3] as u64) << 32u64) | ((b[q + 4] as u64) << 24u64) | ((b[q + 5] as u64)
        << 16u64) | ((b[q + 6] as u64) << 8u64) | (b[q + 7] as u64);
    *p = q + 8;
    Some(v)
}

/// Reads a 32-bit big-endian word at `*p`.
pub fn u32at(b: &[u8], p: &mut usize) -> (r: Option<u32>)
    requires
        *old(p) <= usize::MAX - 4,
    ensures
        decoded(r, *old(p), *final(p), sp_u32(b@, *old(p) as int)),
        r is None ==> *final(p) == *old(p),
{
    let q = *p;
    if q + 4 > b.len() {
        return None;
    }
    let v: u32 = ((b[q] as u32) << 24u32) | ((b[q + 1] as u32) << 16u32) | ((b[q + 2] as u32)
        << 8u32) | (b[q + 3] as u32);
    *p = q + 4;
    Some(v)
}

/// Reads a byte at `*p`.
pub fn u8at(b: &[u8], p: &mut usize) -> (r: Option<u8>)
    requires
        *old(p) <= usize::MAX - 1,
    ensures
        decoded(r, *old(p), *final(p), sp_u8(b@, *old(p) as int)),
        r is None ==> *final(p) == *old(p),
{
    let q = *p;
    if q >= b.len() {
        return None;
    }
    let v = b[q];
    *p = q + 1;
    Some(v)
}

/// Reads a flag at `*p` (any nonzero byte is true).
pub fn boolat(b: &[u8], p: &mut usize) -> (r: Option<bool>)
    requires
        *old(p) <= usize::MAX - 1,
    ensures
        decoded(r, *old(p), *final(p), sp_bool(b@, *old(p) as int)),
        r is None ==> *final(p) == *old(p),
{
    match u8at(b, p) {
        Some(v) => Some(v != 0),
        None => None,
    }
}

/// Reads a fixed-point number at `*p`.
pub fn fixat(b: &[u8], p: &mut usize) -> (r: Option<Fix64>)
    requires
        *old(p) <= usize::MAX - 8,
    ensures
        decoded(r, *old(p), *final(p), sp_fix(b@, *old(p) as int)),
        r is None ==> *final(p) == *old(p),
{
    let v = u64at(b, p)?;
    Some(Fix64::from_bits(v as i64))
}

/// Reads a vector at `*p`.
pub fn vecat(b: &[u8], p: &mut usize) -> (r: Option<Vec2>)
    requires
        *old(p) <= usize::MAX - 16,
    ensures
        decoded(r, *old(p), *final(p), sp_vec(b@, *old(p) as int)),
{
    let x = fixat(b, p)?;
    let y = fixat(b, p)?;
    Some(Vec2::new(x, y))
}

/// Reads an optional vector at `*p`: a nonzero tag byte is followed by the vector.
pub fn opt_vec(b: &[u8], p: &mut usize) -> (r: Option<Option<Vec2>>)
    requires
        *old(p) <= usize::MAX - 17,
    ensures
        decoded(r, *old(p), *final(p), sp_opt_vec(b@, *old(p) as int)),
{
    Some(if u8at(b, p)? != 0 { Some(vecat(b, p)?) } else { None })
}

/// Reads a length prefix (a 32-bit word) and accepts it only up to `max`, so that a
/// hostile count is refused before anything is allocated for it.
pub fn count_at(b: &[u8], p: &mut usize, max: usize) -> (r: Option<usize>)
    requires
        *old(p) <= usize::MAX - 4,
    ensures
        decoded(r, *old(p), *final(p), sp_count(b@, *old(p) as int, max)),
{
    let n = u32at(b, p)? as usize;
    if n > max {
        None
    } else {
        Some(n)
    }
}

} // verus!
