//! Searches over the bytes of a node's text. Every byte searched for is
//! ASCII, and in UTF-8 an ASCII byte only ever encodes that character.
use crate::wrap::{is_white, white};
use vstd::prelude::*;

verus! {

/// Whether the position `r` found in code is the position `p` of a specification.
pub open spec fn same_pos(r: Option<usize>, p: Option<int>) -> bool {
    match r {
        Some(i) => p == Some(i as int),
        None => p is None,
    }
}

/// Whether `i` is the first position of `b` in `t`.
pub open spec fn is_first(t: Seq<u8>, b: u8, i: int) -> bool {
    0 <= i < t.len() && t[i] == b && forall|j: int| 0 <= j < i ==> t[j] != b
}

/// Whether `i` is the last position of `b` in `t`.
pub open spec fn is_last(t: Seq<u8>, b: u8, i: int) -> bool {
    0 <= i < t.len() && t[i] == b && forall|j: int| i < j < t.len() ==> t[j] != b
}

/// The first position of `b` in `t`, if any.
pub open spec fn first_of(t: Seq<u8>, b: u8) -> Option<int> {
    if t.contains(b) {
        Some(choose|i: int| is_first(t, b, i))
    } else {
        None
    }
}

/// The last position of `b` in `t`, if any.
pub open spec fn last_of(t: Seq<u8>, b: u8) -> Option<int> {
    if t.contains(b) {
        Some(choose|i: int| is_last(t, b, i))
    } else {
        None
    }
}

/// Whether `t` holds the two bytes `a`, `b` in a row at `i`.
pub open spec fn pair_at(t: Seq<u8>, a: u8, b: u8, i: int) -> bool {
    0 <= i && i + 1 < t.len() && t[i] == a && t[i + 1] == b
}

/// Whether `i` is the last position of the pair `a`, `b` in `t`.
pub open spec fn is_last_pair(t: Seq<u8>, a: u8, b: u8, i: int) -> bool {
    pair_at(t, a, b, i) && forall|j: int| i < j ==> !pair_at(t, a, b, j)
}

/// The last position of the pair `a`, `b` in `t`, if any.
pub open spec fn last_pair_of(t: Seq<u8>, a: u8, b: u8) -> Option<int> {
    if exists|i: int| pair_at(t, a, b, i) {
        Some(choose|i: int| is_last_pair(t, a, b, i))
    } else {
        None
    }
}

/// `t` without its white-space characters.
pub open spec fn compact(t: Seq<char>) -> Seq<char>
    decreases t.len(),
{
    if t.len() == 0 {
        t
    } else if is_white(t.last()) {
        compact(t.drop_last())
    } else {
        compact(t.drop_last()).push(t.last())
    }
}

/// Whether `needle` occurs in `t`.
pub open spec fn occurs(t: Seq<char>, needle: Seq<char>) -> bool {
    exists|i: int|
        0 <= i && i + needle.len() <= t.len() && #[trigger] t.subrange(i, i + needle.len()) == needle
}

proof fn lemma_first_unique(t: Seq<u8>, b: u8, i: int)
    requires
        is_first(t, b, i),
    ensures
        first_of(t, b) == Some(i),
{
    assert(t.contains(b)) by {
        assert(t[i] == b);
    }
    let k = choose|k: int| is_first(t, b, k);
    assert(is_first(t, b, k));
    if k < i {
        assert(t[k] != b);
    }
    if i < k {
        assert(t[i] != b);
    }
}

proof fn lemma_last_unique(t: Seq<u8>, b: u8, i: int)
    requires
        is_last(t, b, i),
    ensures
        last_of(t, b) == Some(i),
{
    assert(t.contains(b)) by {
        assert(t[i] == b);
    }
    let k = choose|k: int| is_last(t, b, k);
    assert(is_last(t, b, k));
    if k < i {
        assert(t[i] != b);
    }
    if i < k {
        assert(t[k] != b);
    }
}

/// The first position of `b` among `t[lo..hi]`, counted from `lo`.
pub fn find_byte(t: &[u8], lo: usize, hi: usize, b: u8) -> (r: Option<usize>)
    requires
        lo <= hi <= t@.len(),
    ensures
        same_pos(r, first_of(t@.subrange(lo as int, hi as int), b)),
        r is Some ==> is_first(t@.subrange(lo as int, hi as int), b, r->0 as int),
{
    let ghost s = t@.subrange(lo as int, hi as int);
    let mut i: usize = lo;
    while i < hi
        invariant
            lo <= i <= hi <= t@.len(),
            s == t@.subrange(lo as int, hi as int),
            forall|j: int| 0 <= j < i - lo ==> s[j] != b,
        decreases hi - i,
    {
        if t[i] == b {
            proof {
                assert(s[i - lo] == b);
                lemma_first_unique(s, b, i - lo);
            }
            return Some(i - lo);
        }
        i = i + 1;
    }
    proof {
        assert(!s.contains(b)) by {
            if s.contains(b) {
                let k = choose|k: int| 0 <= k < s.len() && s[k] == b;
                assert(s[k] != b);
            }
        }
    }
    None
}

/// The last position of `b` among `t[lo..hi]`, counted from `lo`.
pub fn rfind_byte(t: &[u8], lo: usize, hi: usize, b: u8) -> (r: Option<usize>)
    requires
        lo <= hi <= t@.len(),
    ensures
        same_pos(r, last_of(t@.subrange(lo as int, hi as int), b)),
        r is Some ==> is_last(t@.subrange(lo as int, hi as int), b, r->0 as int),
{
    let ghost s = t@.subrange(lo as int, hi as int);
    let mut i: usize = hi;
    while i > lo
        invariant
            lo <= i <= hi <= t@.len(),
            s == t@.subrange(lo as int, hi as int),
            forall|j: int| i - lo <= j < s.len() ==> s[j] != b,
        decreases i - lo,
    {
        if t[i - 1] == b {
            proof {
                assert(s[i - 1 - lo] == b);
                lemma_last_unique(s, b, i - 1 - lo);
            }
            return Some(i - 1 - lo);
        }
        i = i - 1;
    }
    proof {
        assert(!s.contains(b)) by {
            if s.contains(b) {
                let k = choose|k: int| 0 <= k < s.len() && s[k] == b;
                assert(s[k] != b);
            }
        }
    }
    None
}

/// The last position of the pair `a`, `b` among `t[lo..hi]`, counted from `lo`.
pub fn rfind_pair(t: &[u8], lo: usize, hi: usize, a: u8, b: u8) -> (r: Option<usize>)
    requires
        lo <= hi <= t@.len(),
    ensures
        same_pos(r, last_pair_of(t@.subrange(lo as int, hi as int), a, b)),
        r is Some ==> is_last_pair(t@.subrange(lo as int, hi as int), a, b, r->0 as int),
{
    let ghost s = t@.subrange(lo as int, hi as int);
    let mut i: usize = hi;
    while i - lo >= 2
        invariant
            lo <= i <= hi <= t@.len(),
            s == t@.subrange(lo as int, hi as int),
            forall|j: int| i - lo - 1 <= j ==> !pair_at(s, a, b, j),
        decreases i,
    {
        if t[i - 2] == a && t[i - 1] == b {
            proof {
                let k = i - 2 - lo;
                assert(pair_at(s, a, b, k));
                assert(exists|x: int| pair_at(s, a, b, x));
                let c = choose|x: int| is_last_pair(s, a, b, x);
                assert(is_last_pair(s, a, b, k));
                assert(is_last_pair(s, a, b, c));
                if c < k {
                    assert(!pair_at(s, a, b, k));
                }
                if k < c {
                    assert(!pair_at(s, a, b, c));
                }
            }
            return Some(i - 2 - lo);
        }
        i = i - 1;
    }
    proof {
        assert(!exists|x: int| pair_at(s, a, b, x)) by {
            if exists|x: int| pair_at(s, a, b, x) {
                let k = choose|x: int| pair_at(s, a, b, x);
                assert(!pair_at(s, a, b, k));
            }
        }
    }
    None
}

/// `t` without its white-space characters.
pub fn compact_of(t: &[char]) -> (r: Vec<char>)
    ensures
        r@ == compact(t@),
{
    let mut r: Vec<char> = Vec::new();
    let mut i: usize = 0;
    while i < t.len()
        invariant
            i <= t@.len(),
            r@ == compact(t@.take(i as int)),
        decreases t@.len() - i,
    {
        proof {
            assert(t@.take(i + 1).drop_last() =~= t@.take(i as int));
            assert(t@.take(i + 1).last() == t@[i as int]);
        }
        let c = t[i];
        if !white(c) {
            r.push(c);
        }
        i = i + 1;
    }
    proof {
        assert(t@.take(t@.len() as int) =~= t@);
    }
    r
}

/// Whether `needle` occurs in `t`.
pub fn occurs_in(t: &[char], needle: &[char]) -> (r: bool)
    ensures
        r == occurs(t@, needle@),
{
    let n = needle.len();
    let tl = t.len();
    if n == 0 {
        proof {
            assert(t@.subrange(0, 0 + needle@.len() as int) =~= needle@);
        }
        return true;
    }
    if n > tl {
        proof {
            assert(!occurs(t@, needle@));
        }
        return false;
    }
    let count = tl - n + 1;
    let mut i: usize = 0;
    while i < count
        invariant
            n == needle@.len(),
            tl == t@.len(),
            1 <= n <= tl,
            count == tl - n + 1,
            i <= count,
            forall|k: int| 0 <= k < i ==> #[trigger] t@.subrange(k, k + n) != needle@,
        decreases count - i,
    {
        let mut j: usize = 0;
        let mut same = true;
        while j < n
            invariant
                n == needle@.len(),
                tl == t@.len(),
                i + n <= tl,
                0 <= j <= n,
                same == forall|m: int| 0 <= m < j ==> t@[i + m] == #[trigger] needle@[m],
            decreases n - j,
        {
            if t[i + j] != needle[j] {
                same = false;
            }
            j = j + 1;
        }
        if same {
            proof {
                assert(t@.subrange(i as int, i + n) =~= needle@);
            }
            return true;
        }
        proof {
            assert(t@.subrange(i as int, i + n) != needle@) by {
                let m = choose|m: int| 0 <= m < n && t@[i + m] != needle@[m];
                assert(t@.subrange(i as int, i + n)[m] != needle@[m]);
            }
        }
        i = i + 1;
    }
    false
}

} // verus!
