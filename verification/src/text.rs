//! Small verified helpers on string slices.

use vstd::prelude::*;
use vstd::string::*;

verus! {

/// Character-wise equality of two string slices.
pub fn str_eq(a: &str, b: &str) -> (r: bool)
    ensures
        r == (a@ == b@),
{
    let n = a.unicode_len();
    let m = b.unicode_len();
    if n != m {
        return false;
    }
    let mut i: usize = 0;
    while i < n
        invariant
            n == a@.len(),
            m == b@.len(),
            n == m,
            i <= n,
            forall|j: int| 0 <= j < i ==> a@[j] == b@[j],
        decreases n - i,
    {
        if a.get_char(i) != b.get_char(i) {
            return false;
        }
        i = i + 1;
    }
    assert(a@ =~= b@);
    true
}


/// Lexicographic order of character sequences by code point: the order of strings.
pub open spec fn lex_lt(a: Seq<char>, b: Seq<char>) -> bool
    decreases a.len(),
{
    if a.len() == 0 {
        b.len() > 0
    } else if b.len() == 0 {
        false
    } else if a[0] != b[0] {
        (a[0] as int) < (b[0] as int)
    } else {
        lex_lt(a.drop_first(), b.drop_first())
    }
}

/// No sequence comes before itself.
pub proof fn lemma_lex_irreflexive(a: Seq<char>)
    ensures
        !lex_lt(a, a),
    decreases a.len(),
{
    if a.len() > 0 {
        lemma_lex_irreflexive(a.drop_first());
    }
}

/// Of two different sequences exactly one comes first.
pub proof fn lemma_lex_total(a: Seq<char>, b: Seq<char>)
    ensures
        a != b ==> (lex_lt(a, b) || lex_lt(b, a)),
        !(lex_lt(a, b) && lex_lt(b, a)),
    decreases a.len(),
{
    if a.len() > 0 && b.len() > 0 {
        lemma_lex_total(a.drop_first(), b.drop_first());
        if a[0] == b[0] && a.drop_first() == b.drop_first() {
            assert(a =~= seq![a[0]] + a.drop_first());
            assert(b =~= seq![b[0]] + b.drop_first());
        }
        if a[0] != b[0] {
            assert((a[0] as int) != (b[0] as int));
        }
    } else if a.len() == 0 && b.len() == 0 {
        assert(a =~= b);
    }
}

/// The order is transitive.
pub proof fn lemma_lex_transitive(a: Seq<char>, b: Seq<char>, c: Seq<char>)
    requires
        lex_lt(a, b),
        lex_lt(b, c),
    ensures
        lex_lt(a, c),
    decreases a.len(),
{
    if a.len() > 0 && b.len() > 0 && c.len() > 0 {
        if a[0] == b[0] && b[0] == c[0] {
            lemma_lex_transitive(a.drop_first(), b.drop_first(), c.drop_first());
        }
    }
}

/// Past a common first element, the order is that of the rests.
proof fn lemma_lex_skip(a: Seq<char>, b: Seq<char>, i: int)
    requires
        0 <= i < a.len(),
        i < b.len(),
    ensures
        a[i] != b[i] ==> lex_lt(a.skip(i), b.skip(i)) == ((a[i] as int) < (b[i] as int)),
        a[i] == b[i] ==> lex_lt(a.skip(i), b.skip(i)) == lex_lt(a.skip(i + 1), b.skip(i + 1)),
{
    assert(a.skip(i).drop_first() =~= a.skip(i + 1));
    assert(b.skip(i).drop_first() =~= b.skip(i + 1));
}

/// Whether `a` comes before `b` in string order.
pub fn str_lex_lt(a: &str, b: &str) -> (r: bool)
    ensures
        r == lex_lt(a@, b@),
{
    let n = a.unicode_len();
    let m = b.unicode_len();
    let mut i: usize = 0;
    proof {
        assert(a@.skip(0) =~= a@);
        assert(b@.skip(0) =~= b@);
    }
    while i < n && i < m
        invariant
            n == a@.len(),
            m == b@.len(),
            i <= n,
            i <= m,
            lex_lt(a@, b@) == lex_lt(a@.skip(i as int), b@.skip(i as int)),
        decreases n - i,
    {
        let ca = a.get_char(i);
        let cb = b.get_char(i);
        proof {
            lemma_lex_skip(a@, b@, i as int);
        }
        if ca != cb {
            return (ca as u32) < (cb as u32);
        }
        i = i + 1;
    }
    i == n && i < m
}

/// Whether `c` is white space: the Unicode `White_Space` code points.
pub open spec fn is_white_space(c: char) -> bool {
    let u = c as int;
    ||| 0x9 <= u <= 0xD
    ||| u == 0x20
    ||| u == 0x85
    ||| u == 0xA0
    ||| u == 0x1680
    ||| 0x2000 <= u <= 0x200A
    ||| u == 0x2028
    ||| u == 0x2029
    ||| u == 0x202F
    ||| u == 0x205F
    ||| u == 0x3000
}

/// `r` is `s` without its leading and trailing white space.
pub open spec fn is_trimmed(s: Seq<char>, r: Seq<char>) -> bool {
    exists|lo: int, hi: int|
        {
            &&& 0 <= lo <= hi <= s.len()
            &&& r == s.subrange(lo, hi)
            &&& forall|i: int| 0 <= i < lo ==> is_white_space(#[trigger] s[i])
            &&& forall|i: int| hi <= i < s.len() ==> is_white_space(#[trigger] s[i])
            &&& lo < hi ==> !is_white_space(s[lo]) && !is_white_space(s[hi - 1])
        }
}

/// Whether `c` is white space, as [`is_white_space`] says.
fn white_space(c: char) -> (r: bool)
    ensures
        r == is_white_space(c),
{
    let u = c as u32;
    (0x9 <= u && u <= 0xD) || u == 0x20 || u == 0x85 || u == 0xA0 || u == 0x1680 || (0x2000 <= u && u
        <= 0x200A) || u == 0x2028 || u == 0x2029 || u == 0x202F || u == 0x205F || u == 0x3000
}

/// The text without its leading and trailing white space (what `str::trim` gives).
pub(crate) fn trim_str(s: &str) -> (r: &str)
    ensures
        is_trimmed(s@, r@),
{
    let n = s.unicode_len();
    let mut lo: usize = 0;
    while lo < n && white_space(s.get_char(lo))
        invariant
            n == s@.len(),
            lo <= n,
            forall|i: int| 0 <= i < lo ==> is_white_space(#[trigger] s@[i]),
        decreases n - lo,
    {
        lo = lo + 1;
    }
    let mut hi: usize = n;
    while hi > lo && white_space(s.get_char(hi - 1))
        invariant
            n == s@.len(),
            lo <= hi <= n,
            lo < n ==> !is_white_space(s@[lo as int]),
            forall|i: int| hi <= i < n ==> is_white_space(#[trigger] s@[i]),
        decreases hi,
    {
        hi = hi - 1;
    }
    let r = s.substring_char(lo, hi);
    proof {
        assert(lo < hi ==> !is_white_space(s@[lo as int]) && !is_white_space(s@[hi - 1]));
        assert({
            &&& 0 <= lo <= hi <= s@.len()
            &&& r@ == s@.subrange(lo as int, hi as int)
            &&& forall|i: int| 0 <= i < lo ==> is_white_space(#[trigger] s@[i])
            &&& forall|i: int| hi <= i < s@.len() ==> is_white_space(#[trigger] s@[i])
            &&& lo < hi ==> !is_white_space(s@[lo as int]) && !is_white_space(s@[hi - 1])
        });
    }
    r
}

/// Law (what trimming removes): with the Unicode `White_Space` characters (tab, line
/// feed, vertical tab, form feed, carriage return, space, next line, no-break space,
/// ogham space mark, the spaces U+2000 to U+200A, line and paragraph separators, narrow
/// no-break space, medium mathematical space and ideographic space):
/// - a one-character text trims to nothing exactly when its character is one of them,
///   and is kept whole otherwise;
/// - adding one of them before or after a text leaves its trimmed form unchanged.
pub proof fn law_trim_white_space(s: Seq<char>, r: Seq<char>, c: char)
    requires
        is_trimmed(s, r),
    ensures
        (0x9 <= c as u32 <= 0xD || c as u32 == 0x20 || c as u32 == 0x85 || c as u32 == 0xA0 || c as u32 == 0x1680
            || 0x2000 <= c as u32 <= 0x200A || c as u32 == 0x2028 || c as u32 == 0x2029 || c as u32 == 0x202F
            || c as u32 == 0x205F || c as u32 == 0x3000) ==> is_trimmed(seq![c], Seq::empty()),
        !(0x9 <= c as u32 <= 0xD || c as u32 == 0x20 || c as u32 == 0x85 || c as u32 == 0xA0 || c as u32 == 0x1680
            || 0x2000 <= c as u32 <= 0x200A || c as u32 == 0x2028 || c as u32 == 0x2029 || c as u32 == 0x202F
            || c as u32 == 0x205F || c as u32 == 0x3000) ==> is_trimmed(seq![c], seq![c]),
        (0x9 <= c as u32 <= 0xD || c as u32 == 0x20 || c as u32 == 0x85 || c as u32 == 0xA0 || c as u32 == 0x1680
            || 0x2000 <= c as u32 <= 0x200A || c as u32 == 0x2028 || c as u32 == 0x2029 || c as u32 == 0x202F
            || c as u32 == 0x205F || c as u32 == 0x3000) ==> is_trimmed(s.push(c), r),
        (0x9 <= c as u32 <= 0xD || c as u32 == 0x20 || c as u32 == 0x85 || c as u32 == 0xA0 || c as u32 == 0x1680
            || 0x2000 <= c as u32 <= 0x200A || c as u32 == 0x2028 || c as u32 == 0x2029 || c as u32 == 0x202F
            || c as u32 == 0x205F || c as u32 == 0x3000) ==> is_trimmed(seq![c] + s, r),
{
    let one = seq![c];
    if is_white_space(c) {
        assert(one.subrange(0, 0) =~= Seq::<char>::empty());
        assert(one[0] == c);
        assert({
            &&& 0 <= 0int <= 0int <= one.len()
            &&& Seq::<char>::empty() == one.subrange(0, 0)
            &&& forall|i: int| 0 <= i < 0int ==> is_white_space(#[trigger] one[i])
            &&& forall|i: int| 0int <= i < one.len() ==> is_white_space(#[trigger] one[i])
            &&& 0int < 0int ==> !is_white_space(one[0int]) && !is_white_space(one[0int - 1])
        });
        let (lo, hi) = choose|lo: int, hi: int|
            {
                &&& 0 <= lo <= hi <= s.len()
                &&& r == s.subrange(lo, hi)
                &&& forall|i: int| 0 <= i < lo ==> is_white_space(#[trigger] s[i])
                &&& forall|i: int| hi <= i < s.len() ==> is_white_space(#[trigger] s[i])
                &&& lo < hi ==> !is_white_space(s[lo]) && !is_white_space(s[hi - 1])
            };
        let t = s.push(c);
        assert(t.subrange(lo, hi) =~= s.subrange(lo, hi));
        assert forall|i: int| 0 <= i < lo implies is_white_space(#[trigger] t[i]) by {
            assert(t[i] == s[i]);
        }
        assert forall|i: int| hi <= i < t.len() implies is_white_space(#[trigger] t[i]) by {
            if i < s.len() {
                assert(t[i] == s[i]);
            }
        }
        if lo < hi {
            assert(t[lo] == s[lo] && t[hi - 1] == s[hi - 1]);
        }
        assert({
            &&& 0 <= lo <= hi <= t.len()
            &&& r == t.subrange(lo, hi)
            &&& forall|i: int| 0 <= i < lo ==> is_white_space(#[trigger] t[i])
            &&& forall|i: int| hi <= i < t.len() ==> is_white_space(#[trigger] t[i])
            &&& lo < hi ==> !is_white_space(t[lo]) && !is_white_space(t[hi - 1])
        });
        let u = seq![c] + s;
        assert(u.subrange(lo + 1, hi + 1) =~= s.subrange(lo, hi));
        assert forall|i: int| 0 <= i < lo + 1 implies is_white_space(#[trigger] u[i]) by {
            if i > 0 {
                assert(u[i] == s[i - 1]);
            }
        }
        assert forall|i: int| hi + 1 <= i < u.len() implies is_white_space(#[trigger] u[i]) by {
            assert(u[i] == s[i - 1]);
        }
        if lo < hi {
            assert(u[lo + 1] == s[lo] && u[hi] == s[hi - 1]);
        }
        assert({
            &&& 0 <= lo + 1 <= hi + 1 <= u.len()
            &&& r == u.subrange(lo + 1, hi + 1)
            &&& forall|i: int| 0 <= i < lo + 1 ==> is_white_space(#[trigger] u[i])
            &&& forall|i: int| hi + 1 <= i < u.len() ==> is_white_space(#[trigger] u[i])
            &&& lo + 1 < hi + 1 ==> !is_white_space(u[lo + 1]) && !is_white_space(u[hi + 1 - 1])
        });
    } else {
        assert(one.subrange(0, 1) =~= one);
        assert(one[0] == c);
        assert({
            &&& 0 <= 0int <= 1int <= one.len()
            &&& one == one.subrange(0, 1)
            &&& forall|i: int| 0 <= i < 0int ==> is_white_space(#[trigger] one[i])
            &&& forall|i: int| 1int <= i < one.len() ==> is_white_space(#[trigger] one[i])
            &&& 0int < 1int ==> !is_white_space(one[0int]) && !is_white_space(one[1int - 1])
        });
    }
}

/// A trimmed text is empty exactly when the whole text is white space.
pub proof fn lemma_trimmed_empty(s: Seq<char>, r: Seq<char>)
    requires
        is_trimmed(s, r),
    ensures
        (r.len() == 0) == (forall|i: int| 0 <= i < s.len() ==> is_white_space(#[trigger] s[i])),
{
    let (lo, hi) = choose|lo: int, hi: int|
        {
            &&& 0 <= lo <= hi <= s.len()
            &&& r == s.subrange(lo, hi)
            &&& forall|i: int| 0 <= i < lo ==> is_white_space(#[trigger] s[i])
            &&& forall|i: int| hi <= i < s.len() ==> is_white_space(#[trigger] s[i])
            &&& lo < hi ==> !is_white_space(s[lo]) && !is_white_space(s[hi - 1])
        };
    if r.len() == 0 {
        assert forall|i: int| 0 <= i < s.len() implies is_white_space(#[trigger] s[i]) by {
            if i >= lo {
                assert(i >= hi);
            }
        }
    } else {
        assert(!is_white_space(s[lo]));
    }
}

} // verus!
