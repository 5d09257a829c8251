//! Byte-level helpers shared by the parser and the cleaner: whitespace
//! classification, whitespace removal, and copying a range of a vector.

use vstd::prelude::*;

verus! {

/// ASCII whitespace: space, horizontal tab, line feed, vertical tab,
/// form feed, carriage return.
pub open spec fn is_space(b: u8) -> bool {
    b == 32 || b == 9 || b == 10 || b == 11 || b == 12 || b == 13
}

/// The bytes of `s` that are not whitespace, in order.
pub open spec fn strip(s: Seq<u8>) -> Seq<u8>
    decreases s.len(),
{
    if s.len() == 0 {
        Seq::empty()
    } else if is_space(s.last()) {
        strip(s.drop_last())
    } else {
        strip(s.drop_last()).push(s.last())
    }
}

/// Whitespace removal leaves no whitespace behind.
pub proof fn lemma_strip_no_space(s: Seq<u8>)
    ensures
        forall|i: int| 0 <= i < strip(s).len() ==> !is_space(#[trigger] strip(s)[i]),
    decreases s.len(),
{
    if s.len() > 0 {
        lemma_strip_no_space(s.drop_last());
        if !is_space(s.last()) {
            let t = strip(s.drop_last()).push(s.last());
            assert forall|i: int| 0 <= i < t.len() implies !is_space(t[i]) by {
                if i < t.len() - 1 {
                    assert(t[i] == strip(s.drop_last())[i]);
                } else {
                    assert(t[i] == s.last());
                }
            }
        }
    }
}

/// Decide `is_space` on a concrete byte.
pub fn space_byte(b: u8) -> (r: bool)
    ensures
        r == is_space(b),
{
    b == 32 || b == 9 || b == 10 || b == 11 || b == 12 || b == 13
}

/// Remove every whitespace byte, wherever it stands.
pub fn strip_whitespace(v: &Vec<u8>) -> (r: Vec<u8>)
    ensures
        r@ == strip(v@),
{
    let mut r: Vec<u8> = Vec::new();
    let mut i: usize = 0;
    while i < v.len()
        invariant
            i <= v.len(),
            r@ == strip(v@.take(i as int)),
        decreases v.len() - i,
    {
        let b = v[i];
        if !space_byte(b) {
            r.push(b);
        }
        i = i + 1;
        proof {
            assert(v@.take(i as int).drop_last() =~= v@.take(i - 1));
            assert(v@.take(i as int).last() == v@[i - 1]);
        }
    }
    proof {
        assert(v@.take(v@.len() as int) =~= v@);
    }
    r
}

/// The number of leading whitespace bytes.
pub open spec fn head_spaces(s: Seq<u8>) -> int
    decreases s.len(),
{
    if s.len() > 0 && is_space(s[0]) {
        1 + head_spaces(s.drop_first())
    } else {
        0
    }
}

/// The number of trailing whitespace bytes.
pub open spec fn tail_spaces(s: Seq<u8>) -> int
    decreases s.len(),
{
    if s.len() > 0 && is_space(s.last()) {
        1 + tail_spaces(s.drop_last())
    } else {
        0
    }
}

/// `s` with whitespace removed from both ends, but not from inside.
pub open spec fn trim_spaces(s: Seq<u8>) -> Seq<u8> {
    if head_spaces(s) < s.len() - tail_spaces(s) {
        s.subrange(head_spaces(s), s.len() - tail_spaces(s))
    } else {
        Seq::empty()
    }
}

/// Where the leading whitespace run ends: everything before is
/// whitespace, and the first kept byte, if any, is not.
pub proof fn lemma_head_spaces(s: Seq<u8>)
    ensures
        0 <= head_spaces(s) <= s.len(),
        forall|j: int| 0 <= j < head_spaces(s) ==> is_space(#[trigger] s[j]),
        head_spaces(s) < s.len() ==> !is_space(s[head_spaces(s)]),
    decreases s.len(),
{
    if s.len() > 0 && is_space(s[0]) {
        lemma_head_spaces(s.drop_first());
        assert forall|j: int| 0 <= j < head_spaces(s) implies is_space(s[j]) by {
            if j > 0 {
                assert(s[j] == s.drop_first()[j - 1]);
            }
        }
        if head_spaces(s) < s.len() {
            assert(s[head_spaces(s)] == s.drop_first()[head_spaces(s.drop_first())]);
        }
    }
}

/// Where the trailing whitespace run begins: everything from there on is
/// whitespace, and the last kept byte, if any, is not.
pub proof fn lemma_tail_spaces(s: Seq<u8>)
    ensures
        0 <= tail_spaces(s) <= s.len(),
        forall|j: int| s.len() - tail_spaces(s) <= j < s.len() ==> is_space(#[trigger] s[j]),
        tail_spaces(s) < s.len() ==> !is_space(s[s.len() - tail_spaces(s) - 1]),
    decreases s.len(),
{
    if s.len() > 0 && is_space(s.last()) {
        lemma_tail_spaces(s.drop_last());
        assert forall|j: int| s.len() - tail_spaces(s) <= j < s.len() implies is_space(s[j]) by {
            if j < s.len() - 1 {
                assert(s[j] == s.drop_last()[j]);
            }
        }
    }
}

/// Copy `v` with whitespace removed from both ends.
pub fn trim_space_ends(v: &Vec<u8>) -> (r: Vec<u8>)
    ensures
        r@ == trim_spaces(v@),
{
    let n = v.len();
    proof {
        lemma_head_spaces(v@);
        lemma_tail_spaces(v@);
    }
    let mut lo: usize = 0;
    while lo < n && space_byte(v[lo])
        invariant
            0 <= lo <= n,
            n == v@.len(),
            forall|j: int| 0 <= j < lo ==> is_space(#[trigger] v@[j]),
        decreases n - lo,
    {
        lo = lo + 1;
    }
    proof {
        let c = head_spaces(v@);
        if (lo as int) < c {
            assert(is_space(v@[lo as int]));
            assert(false);
        }
        if c < lo as int {
            assert(is_space(v@[c]));
            assert(false);
        }
    }
    let mut hi: usize = n;
    while hi > 0 && space_byte(v[hi - 1])
        invariant
            0 <= hi <= n,
            n == v@.len(),
            forall|j: int| hi <= j < n ==> is_space(#[trigger] v@[j]),
        decreases hi,
    {
        hi = hi - 1;
    }
    proof {
        let t = v@.len() - tail_spaces(v@);
        if (hi as int) < t {
            assert(is_space(v@[t - 1]));
            assert(false);
        }
        if t < hi as int {
            assert(is_space(v@[hi - 1]));
            assert(false);
        }
    }
    if lo < hi {
        copy_range(v, lo, hi)
    } else {
        Vec::new()
    }
}

/// Copy the bytes of `v` between `lo` (inclusive) and `hi` (exclusive).
pub fn copy_range(v: &Vec<u8>, lo: usize, hi: usize) -> (r: Vec<u8>)
    requires
        lo <= hi <= v.len(),
    ensures
        r@ == v@.subrange(lo as int, hi as int),
{
    let mut r: Vec<u8> = Vec::new();
    let mut i: usize = lo;
    while i < hi
        invariant
            lo <= i <= hi <= v.len(),
            r@ == v@.subrange(lo as int, i as int),
        decreases hi - i,
    {
        r.push(v[i]);
        i = i + 1;
        proof {
            assert(v@.subrange(lo as int, i as int) =~= v@.subrange(lo as int, i - 1).push(
                v@[i - 1],
            ));
        }
    }
    r
}

} // verus!
