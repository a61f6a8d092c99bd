//! Byte-string primitives: equality, whitespace trimming, newline splitting.
//!
//! Command text is modelled as byte strings. The output of a shell command is
//! trimmed of leading and trailing ASCII whitespace before use, and wildcard
//! value lists produced by a shell command are the newline-separated segments
//! of that trimmed output.

use vstd::prelude::*;

verus! {

/// The newline byte, the separator of shell-produced value lists.
pub const NEWLINE: u8 = 0x0a;

/// ASCII whitespace: space, tab, line feed, vertical tab, form feed, carriage
/// return.
pub open spec fn is_ws(b: u8) -> bool {
    b == 0x20 || (0x09 <= b && b <= 0x0d)
}

/// `s` with leading ASCII whitespace removed.
pub open spec fn trim_front(s: Seq<u8>) -> Seq<u8>
    decreases s.len(),
{
    if s.len() > 0 && is_ws(s[0]) {
        trim_front(s.skip(1))
    } else {
        s
    }
}

/// `s` with trailing ASCII whitespace removed.
pub open spec fn trim_back(s: Seq<u8>) -> Seq<u8>
    decreases s.len(),
{
    if s.len() > 0 && is_ws(s.last()) {
        trim_back(s.drop_last())
    } else {
        s
    }
}

/// `s` with ASCII whitespace removed from both ends.
pub open spec fn trim_spec(s: Seq<u8>) -> Seq<u8> {
    trim_back(trim_front(s))
}

/// The segments of `s` between newline bytes, in order. A string without a
/// newline is one segment, so the result is never empty; an empty input is
/// one empty segment.
pub open spec fn split_newlines_spec(s: Seq<u8>) -> Seq<Seq<u8>>
    decreases s.len(),
{
    if s.len() == 0 {
        seq![Seq::<u8>::empty()]
    } else if s[0] == NEWLINE {
        seq![Seq::<u8>::empty()] + split_newlines_spec(s.skip(1))
    } else {
        let rest = split_newlines_spec(s.skip(1));
        seq![seq![s[0]] + rest[0]] + rest.skip(1)
    }
}

pub proof fn lemma_split_newlines_nonempty(s: Seq<u8>)
    ensures
        split_newlines_spec(s).len() >= 1,
    decreases s.len(),
{
    if s.len() == 0 {
    } else if s[0] == NEWLINE {
        lemma_split_newlines_nonempty(s.skip(1));
    } else {
        lemma_split_newlines_nonempty(s.skip(1));
    }
}

/// Byte-string equality.
pub fn bytes_eq(a: &Vec<u8>, b: &Vec<u8>) -> (r: bool)
    ensures
        r == (a@ == b@),
{
    if a.len() != b.len() {
        assert(a@ != b@);
        return false;
    }
    let n = a.len();
    let mut i: usize = 0;
    while i < n
        invariant
            n == a@.len() == b@.len(),
            i <= n,
            forall|j: int| 0 <= j < i ==> a@[j] == b@[j],
        decreases n - i,
    {
        if a[i] != b[i] {
            assert(a@ != b@);
            return false;
        }
        i += 1;
    }
    assert(a@ =~= b@);
    true
}

proof fn lemma_trim_front_range(s: Seq<u8>, lo: int)
    requires
        0 <= lo <= s.len(),
        forall|j: int| 0 <= j < lo ==> is_ws(s[j]),
        lo < s.len() ==> !is_ws(s[lo]),
    ensures
        trim_front(s) == s.skip(lo),
    decreases lo,
{
    if lo == 0 {
        if s.len() > 0 {
            assert(!is_ws(s[0]));
        }
        assert(s.skip(0) =~= s);
    } else {
        assert(is_ws(s[0]));
        lemma_trim_front_range(s.skip(1), lo - 1);
        assert(s.skip(1).skip(lo - 1) =~= s.skip(lo));
    }
}

proof fn lemma_trim_back_range(s: Seq<u8>, hi: int)
    requires
        0 <= hi <= s.len(),
        forall|j: int| hi <= j < s.len() ==> is_ws(s[j]),
        hi > 0 ==> !is_ws(s[hi - 1]),
    ensures
        trim_back(s) == s.take(hi),
    decreases s.len() - hi,
{
    if hi == s.len() {
        if s.len() > 0 {
            assert(!is_ws(s.last()));
        }
        assert(s.take(hi) =~= s);
    } else {
        assert(is_ws(s.last()));
        lemma_trim_back_range(s.drop_last(), hi);
        assert(s.drop_last().take(hi) =~= s.take(hi));
    }
}

/// Remove leading and trailing ASCII whitespace, as the raw output of a shell
/// command is trimmed before it stands in for a variable or a value list.
pub fn trim_ascii(s: &Vec<u8>) -> (r: Vec<u8>)
    ensures
        r@ == trim_spec(s@),
{
    let n = s.len();
    let mut lo: usize = 0;
    while lo < n && is_ws_exec(s[lo])
        invariant
            n == s@.len(),
            lo <= n,
            forall|j: int| 0 <= j < lo ==> is_ws(s@[j]),
        decreases n - lo,
    {
        lo += 1;
    }
    proof {
        lemma_trim_front_range(s@, lo as int);
    }
    let mut hi: usize = n;
    while hi > lo && is_ws_exec(s[hi - 1])
        invariant
            n == s@.len(),
            lo <= hi <= n,
            forall|j: int| hi <= j < n ==> is_ws(s@[j]),
        decreases hi,
    {
        hi -= 1;
    }
    proof {
        if lo < n {
            lemma_trim_back_range(s@.skip(lo as int), hi - lo);
        } else {
            assert(s@.skip(lo as int) =~= Seq::<u8>::empty());
            assert(trim_back(s@.skip(lo as int)) =~= s@.skip(lo as int).take(hi - lo));
        }
    }
    let mut out: Vec<u8> = Vec::new();
    let mut i: usize = lo;
    while i < hi
        invariant
            lo <= i <= hi <= n,
            n == s@.len(),
            out@ =~= s@.subrange(lo as int, i as int),
        decreases hi - i,
    {
        out.push(s[i]);
        i += 1;
    }
    proof {
        assert(s@.skip(lo as int).take(hi - lo) =~= s@.subrange(lo as int, hi as int));
    }
    out
}

/// Exec mirror of `is_ws`.
pub fn is_ws_exec(b: u8) -> (r: bool)
    ensures
        r == is_ws(b),
{
    b == 0x20 || (0x09 <= b && b <= 0x0d)
}

/// Copy the bytes of `s` between `a` and `b`.
pub fn copy_range(s: &Vec<u8>, a: usize, b: usize) -> (r: Vec<u8>)
    requires
        a <= b <= s@.len(),
    ensures
        r@ == s@.subrange(a as int, b as int),
{
    let mut out: Vec<u8> = Vec::new();
    let mut i: usize = a;
    while i < b
        invariant
            a <= i <= b <= s@.len(),
            out@ =~= s@.subrange(a as int, i as int),
        decreases b - i,
    {
        out.push(s[i]);
        i += 1;
    }
    out
}

/// Split on newline bytes; the segments of a shell command's trimmed output
/// become the value list of a shell-driven wildcard source.
pub fn split_newlines(s: &Vec<u8>) -> (r: Vec<Vec<u8>>)
    ensures
        r.deep_view() == split_newlines_spec(s@),
        r.len() >= 1,
{
    let n = s.len();
    let mut out: Vec<Vec<u8>> = Vec::new();
    let mut cur: Vec<u8> = Vec::new();
    let mut i: usize = 0;
    proof {
        lemma_split_newlines_nonempty(s@);
        assert(s@.skip(0) =~= s@);
        let segs = split_newlines_spec(s@);
        assert(Seq::<u8>::empty() + segs[0] =~= segs[0]);
        assert(segs =~~= out.deep_view() + seq![cur@ + segs[0]] + segs.skip(1));
    }
    while i < n
        invariant
            i <= n,
            n == s@.len(),
            split_newlines_spec(s@) =~~= out.deep_view() + seq![cur@ + split_newlines_spec(
                s@.skip(i as int),
            )[0]] + split_newlines_spec(s@.skip(i as int)).skip(1),
        decreases n - i,
    {
        proof {
            lemma_split_newlines_nonempty(s@.skip(i as int + 1));
            assert(s@.skip(i as int).skip(1) =~= s@.skip(i as int + 1));
        }
        let ghost segs = split_newlines_spec(s@.skip(i as int));
        let ghost tail = split_newlines_spec(s@.skip(i as int + 1));
        if s[i] == NEWLINE {
            proof {
                assert(segs =~= seq![Seq::<u8>::empty()] + tail);
                assert(segs[0] =~= Seq::<u8>::empty());
                assert(segs.skip(1) =~= tail);
            }
            let ghost odv = out.deep_view();
            let ghost oc = cur@;
            out.push(cur);
            cur = Vec::new();
            proof {
                assert(out.deep_view() =~~= odv + seq![oc]);
                assert(oc + segs[0] =~= oc);
                assert(cur@ + tail[0] =~= tail[0]);
                assert(odv + seq![oc + segs[0]] + segs.skip(1) =~= (odv + seq![oc]) + seq![
                    cur@ + tail[0]
                ] + tail.skip(1));
            }
        } else {
            let b = s[i];
            let ghost oc = cur@;
            cur.push(b);
            proof {
                assert(segs =~= seq![seq![b] + tail[0]] + tail.skip(1));
                assert(segs[0] =~= seq![b] + tail[0]);
                assert(segs.skip(1) =~= tail.skip(1));
                assert(oc + segs[0] =~= cur@ + tail[0]);
            }
        }
        i += 1;
    }
    proof {
        assert(s@.skip(n as int) =~= Seq::<u8>::empty());
        let segs = split_newlines_spec(Seq::<u8>::empty());
        assert(segs =~= seq![Seq::<u8>::empty()]);
        assert(cur@ + segs[0] =~= cur@);
        assert(segs.skip(1) =~= Seq::<Seq<u8>>::empty());
    }
    let ghost odv = out.deep_view();
    let ghost oc = cur@;
    out.push(cur);
    proof {
        assert(out.deep_view() =~~= odv + seq![oc]);
        assert(split_newlines_spec(s@) =~~= odv + seq![oc]);
        assert(out.deep_view() =~~= split_newlines_spec(s@));
        lemma_split_newlines_nonempty(s@);
    }
    out
}

} // verus!
