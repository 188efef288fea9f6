//! Whitespace and trimming, at the level of character sequences.

use vstd::prelude::*;

verus! {

/// The characters with the Unicode `White_Space` property, which is the set
/// that `char::is_whitespace` recognises.
pub open spec fn is_whitespace_char(c: char) -> bool {
    let u = c as u32;
    ||| u == 0x09
    ||| u == 0x0A
    ||| u == 0x0B
    ||| u == 0x0C
    ||| u == 0x0D
    ||| u == 0x20
    ||| u == 0x85
    ||| u == 0xA0
    ||| u == 0x1680
    ||| (0x2000 <= u && u <= 0x200A)
    ||| u == 0x2028
    ||| u == 0x2029
    ||| u == 0x202F
    ||| u == 0x205F
    ||| u == 0x3000
}

/// Decides `is_whitespace_char`.
pub fn is_space(c: char) -> (r: bool)
    ensures
        r == is_whitespace_char(c),
{
    let u = c as u32;
    (u == 0x09) || (u == 0x0A) || (u == 0x0B) || (u == 0x0C) || (u == 0x0D) || (u == 0x20) || (u
        == 0x85) || (u == 0xA0) || (u == 0x1680) || (0x2000 <= u && u <= 0x200A) || (u == 0x2028)
        || (u == 0x2029) || (u == 0x202F) || (u == 0x205F) || (u == 0x3000)
}

/// The sequence with its leading whitespace removed.
pub open spec fn trim_start_spec(s: Seq<char>) -> Seq<char>
    decreases s.len(),
{
    if s.len() > 0 && is_whitespace_char(s[0]) {
        trim_start_spec(s.drop_first())
    } else {
        s
    }
}

/// The sequence with its trailing whitespace removed.
pub open spec fn trim_end_spec(s: Seq<char>) -> Seq<char>
    decreases s.len(),
{
    if s.len() > 0 && is_whitespace_char(s.last()) {
        trim_end_spec(s.drop_last())
    } else {
        s
    }
}

/// The sequence with both leading and trailing whitespace removed: what
/// `str::trim` leaves.
pub open spec fn trim_spec(s: Seq<char>) -> Seq<char> {
    trim_end_spec(trim_start_spec(s))
}

proof fn lemma_trim_start_at(s: Seq<char>, lo: int)
    requires
        0 <= lo <= s.len(),
        forall|m: int| 0 <= m < lo ==> is_whitespace_char(#[trigger] s[m]),
        lo < s.len() ==> !is_whitespace_char(s[lo]),
    ensures
        trim_start_spec(s) == s.subrange(lo, s.len() as int),
    decreases lo,
{
    if lo == 0 {
        assert(s.subrange(0, s.len() as int) =~= s);
    } else {
        lemma_trim_start_at(s.drop_first(), lo - 1);
        assert(s.drop_first().subrange(lo - 1, s.drop_first().len() as int) =~= s.subrange(
            lo,
            s.len() as int,
        ));
    }
}

proof fn lemma_trim_end_at(s: Seq<char>, hi: int)
    requires
        0 <= hi <= s.len(),
        forall|m: int| hi <= m < s.len() ==> is_whitespace_char(#[trigger] s[m]),
        hi > 0 ==> !is_whitespace_char(s[hi - 1]),
    ensures
        trim_end_spec(s) == s.subrange(0, hi),
    decreases s.len(),
{
    if hi == s.len() {
        if s.len() > 0 {
            assert(s.subrange(0, s.len() as int) =~= s);
        } else {
            assert(s.subrange(0, 0) =~= s);
        }
    } else {
        lemma_trim_end_at(s.drop_last(), hi);
        assert(s.drop_last().subrange(0, hi) =~= s.subrange(0, hi));
    }
}

/// Trims the characters `from..to` of `s`, as `str::trim` would trim that
/// segment on its own.
pub fn trim_range(s: &str, from: usize, to: usize) -> (r: String)
    requires
        from <= to <= s@.len(),
    ensures
        r@ == trim_spec(s@.subrange(from as int, to as int)),
{
    let ghost seg = s@.subrange(from as int, to as int);
    let mut lo = from;
    while lo < to && is_space(s.get_char(lo))
        invariant
            from <= lo <= to <= s@.len(),
            forall|m: int| from <= m < lo ==> is_whitespace_char(#[trigger] s@[m]),
        decreases to - lo,
    {
        lo = lo + 1;
    }
    let mut hi = to;
    while hi > lo && is_space(s.get_char(hi - 1))
        invariant
            from <= lo <= hi <= to <= s@.len(),
            forall|m: int| from <= m < lo ==> is_whitespace_char(#[trigger] s@[m]),
            lo < to ==> !is_whitespace_char(s@[lo as int]),
            forall|m: int| hi <= m < to ==> is_whitespace_char(#[trigger] s@[m]),
        decreases hi,
    {
        hi = hi - 1;
    }
    let out = s.substring_char(lo, hi);
    proof {
        lemma_trim_start_at(seg, lo - from);
        assert(seg.subrange(lo - from, seg.len() as int) =~= s@.subrange(lo as int, to as int));
        let mid = s@.subrange(lo as int, to as int);
        lemma_trim_end_at(mid, hi - lo);
        assert(mid.subrange(0, hi - lo) =~= s@.subrange(lo as int, hi as int));
    }
    out.to_owned()
}

} // verus!
