//! Wildcard expansion: one command template, many concrete commands.
//!
//! A command template may hold positional `@@` markers. A target's wildcard
//! sources, once resolved, are value lists; expansion produces one command
//! per row, substituting each source's value for that row into the markers,
//! sources matched to markers strictly by declaration order, left to right.
//!
//! Validation is strict and happens before anything runs: the number of `@@`
//! markers must equal the number of sources, there must be at least one
//! source when the `wildcards` key is present, and all value lists must have
//! the same length (the row count). Any violation yields an error and no
//! commands.

use vstd::prelude::*;

verus! {

/// The `@` byte; two in a row form a positional wildcard marker.
pub const AT: u8 = 0x40;

/// The two-byte marker `@@`.
pub open spec fn marker() -> Seq<u8> {
    seq![AT, AT]
}

/// How many non-overlapping occurrences of `pat` appear in `s`, counted left
/// to right.
pub open spec fn count_occ(s: Seq<u8>, pat: Seq<u8>) -> nat
    decreases s.len(),
    when pat.len() > 0
{
    if s.len() < pat.len() {
        0
    } else if s.subrange(0, pat.len() as int) == pat {
        1 + count_occ(s.skip(pat.len() as int), pat)
    } else {
        count_occ(s.skip(1), pat)
    }
}

/// `s` with the first occurrence of `pat`, if any, replaced by `val`.
pub open spec fn replace_first(s: Seq<u8>, pat: Seq<u8>, val: Seq<u8>) -> Seq<u8>
    decreases s.len(),
    when pat.len() > 0
{
    if s.len() < pat.len() {
        s
    } else if s.subrange(0, pat.len() as int) == pat {
        val + s.skip(pat.len() as int)
    } else {
        seq![s[0]] + replace_first(s.skip(1), pat, val)
    }
}

/// Row `i` of the expansion: for each source in declaration order, the first
/// remaining `@@` is replaced by that source's `i`-th value.
pub open spec fn expand_row(cmd: Seq<u8>, lists: Seq<Seq<Seq<u8>>>, i: int) -> Seq<u8>
    decreases lists.len(),
{
    if lists.len() == 0 {
        cmd
    } else {
        expand_row(replace_first(cmd, marker(), lists[0][i]), lists.skip(1), i)
    }
}

/// The whole expansion: one command per row.
pub open spec fn expand_rows(cmd: Seq<u8>, lists: Seq<Seq<Seq<u8>>>, rows: nat) -> Seq<Seq<u8>> {
    Seq::new(rows, |i: int| expand_row(cmd, lists, i))
}

/// All value lists share one length: the row count.
pub open spec fn source_len_ok(lists: Seq<Seq<Seq<u8>>>) -> bool {
    forall|k: int| 0 <= k < lists.len() ==> #[trigger] lists[k].len() == lists[0].len()
}

/// Why an expansion was rejected.
#[derive(Clone, Copy, Debug, PartialEq, Eq, Structural)]
pub enum WildcardError {
    /// The `@@` markers in the template and the wildcard sources differ in
    /// number.
    CountMismatch,
    /// A `wildcards` key is present but names no source at all.
    NoSources,
    /// The resolved value lists differ in length, so there is no common row
    /// count.
    RowMismatch,
}

/// Count the `@@` markers of a command template.
pub fn count_markers(cmd: &Vec<u8>) -> (r: usize)
    ensures
        r == count_occ(cmd@, marker()),
{
    let n = cmd.len();
    let mut count: usize = 0;
    let mut i: usize = 0;
    proof {
        assert(cmd@.skip(0) =~= cmd@);
    }
    while i < n
        invariant
            i <= n,
            n == cmd@.len(),
            count <= i,
            count_occ(cmd@, marker()) == count + count_occ(cmd@.skip(i as int), marker()),
        decreases n - i,
    {
        let ghost rest = cmd@.skip(i as int);
        if 2 <= n - i && cmd[i] == AT && cmd[i + 1] == AT {
            proof {
                assert(rest.subrange(0, 2) =~= seq![cmd@[i as int], cmd@[i as int + 1]]);
                assert(rest.subrange(0, 2) =~= marker());
                assert(rest.skip(2) =~= cmd@.skip(i as int + 2));
            }
            count += 1;
            i += 2;
        } else {
            proof {
                if 2 <= rest.len() {
                    assert(rest.subrange(0, 2) =~= seq![cmd@[i as int], cmd@[i as int + 1]]);
                    assert(rest.subrange(0, 2) != marker());
                }
                assert(rest.skip(1) =~= cmd@.skip(i as int + 1));
            }
            i += 1;
        }
    }
    proof {
        assert(cmd@.skip(n as int) =~= Seq::<u8>::empty());
    }
    count
}

/// Replace the first `@@` of `s`, if any, by `val`.
fn replace_first_marker(s: &Vec<u8>, val: &Vec<u8>) -> (r: Vec<u8>)
    ensures
        r@ == replace_first(s@, marker(), val@),
{
    let n = s.len();
    let mut out: Vec<u8> = Vec::new();
    let mut i: usize = 0;
    proof {
        assert(s@.skip(0) =~= s@);
    }
    while i < n
        invariant
            i <= n,
            n == s@.len(),
            replace_first(s@, marker(), val@) =~= out@ + replace_first(
                s@.skip(i as int),
                marker(),
                val@,
            ),
        decreases n - i,
    {
        let ghost rest = s@.skip(i as int);
        if 2 <= n - i && s[i] == AT && s[i + 1] == AT {
            proof {
                assert(rest.subrange(0, 2) =~= seq![s@[i as int], s@[i as int + 1]]);
                assert(rest.subrange(0, 2) =~= marker());
                assert(rest.skip(2) =~= s@.skip(i as int + 2));
            }
            let ghost obase = out@;
            let mut w: usize = 0;
            while w < val.len()
                invariant
                    w <= val@.len(),
                    out@ =~= obase + val@.take(w as int),
                decreases val@.len() - w,
            {
                out.push(val[w]);
                w += 1;
            }
            proof {
                assert(val@.take(val@.len() as int) =~= val@);
            }
            let mut t: usize = i + 2;
            while t < n
                invariant
                    i + 2 <= t <= n,
                    n == s@.len(),
                    out@ =~= obase + val@ + s@.subrange(i as int + 2, t as int),
                decreases n - t,
            {
                out.push(s[t]);
                t += 1;
            }
            proof {
                assert(s@.subrange(i as int + 2, n as int) =~= s@.skip(i as int + 2));
            }
            return out;
        } else {
            proof {
                if 2 <= rest.len() {
                    assert(rest.subrange(0, 2) =~= seq![s@[i as int], s@[i as int + 1]]);
                    assert(rest.subrange(0, 2) != marker());
                }
                assert(rest.skip(1) =~= s@.skip(i as int + 1));
            }
            out.push(s[i]);
            i += 1;
        }
    }
    proof {
        assert(s@.skip(n as int) =~= Seq::<u8>::empty());
    }
    out
}

/// Expand a resolved command template against its resolved wildcard value
/// lists. On success the result holds one command per row, in row order;
/// otherwise the error says which validation failed, and nothing may run.
pub fn expand_wildcards(cmd: &Vec<u8>, lists: &Vec<Vec<Vec<u8>>>) -> (r: Result<
    Vec<Vec<u8>>,
    WildcardError,
>)
    ensures
        match r {
            Ok(rows) => {
                &&& count_occ(cmd@, marker()) == lists@.len()
                &&& lists@.len() > 0
                &&& forall|k: int|
                    0 <= k < lists@.len() ==> #[trigger] lists.deep_view()[k].len()
                        == lists.deep_view()[0].len()
                &&& rows.deep_view() == expand_rows(
                    cmd@,
                    lists.deep_view(),
                    lists.deep_view()[0].len(),
                )
            },
            Err(e) => match e {
                WildcardError::CountMismatch => count_occ(cmd@, marker()) != lists@.len(),
                WildcardError::NoSources => count_occ(cmd@, marker()) == lists@.len()
                    && lists@.len() == 0,
                WildcardError::RowMismatch => count_occ(cmd@, marker()) == lists@.len()
                    && lists@.len() > 0 && exists|k: int|
                    0 <= k < lists@.len() && #[trigger] lists.deep_view()[k].len()
                        != lists.deep_view()[0].len(),
            },
        },
{
    let count = count_markers(cmd);
    if count != lists.len() {
        return Err(WildcardError::CountMismatch);
    }
    if lists.len() == 0 {
        return Err(WildcardError::NoSources);
    }
    let rows = lists[0].len();
    proof {
        assert(lists.deep_view()[0] =~~= lists@[0].deep_view());
    }
    let mut k: usize = 1;
    while k < lists.len()
        invariant
            1 <= k <= lists@.len(),
            count_occ(cmd@, marker()) == lists@.len(),
            rows == lists.deep_view()[0].len(),
            forall|j: int| 0 <= j < k ==> #[trigger] lists.deep_view()[j].len() == lists.deep_view()[0].len(),
        decreases lists@.len() - k,
    {
        proof {
            assert(lists.deep_view()[k as int] =~~= lists@[k as int].deep_view());
        }
        if lists[k].len() != rows {
            proof {
                assert(lists.deep_view()[k as int].len() == lists@[k as int].deep_view().len());
                assert(lists@[k as int].deep_view().len() == lists@[k as int]@.len());
                assert(lists.deep_view()[k as int].len() != lists.deep_view()[0].len());
            }
            return Err(WildcardError::RowMismatch);
        }
        k += 1;
    }
    let ghost ld = lists.deep_view();
    let mut out: Vec<Vec<u8>> = Vec::new();
    let mut i: usize = 0;
    while i < rows
        invariant
            i <= rows,
            rows == ld[0].len(),
            ld == lists.deep_view(),
            lists@.len() > 0,
            forall|q: int| 0 <= q < ld.len() ==> #[trigger] ld[q].len() == rows,
            out.deep_view() =~~= expand_rows(cmd@, ld, i as nat),
        decreases rows - i,
    {
        let mut cur = crate::vars::clone_bytes(cmd);
        let mut j: usize = 0;
        proof {
            assert(ld.skip(0) =~= ld);
        }
        while j < lists.len()
            invariant
                j <= lists@.len(),
                i < rows,
                ld == lists.deep_view(),
                forall|q: int| 0 <= q < ld.len() ==> #[trigger] ld[q].len() == rows,
                expand_row(cmd@, ld, i as int) == expand_row(cur@, ld.skip(j as int), i as int),
            decreases lists@.len() - j,
        {
            proof {
                assert(ld.skip(j as int).skip(1) =~= ld.skip(j as int + 1));
                assert(ld.skip(j as int)[0] == ld[j as int]);
                assert(ld[j as int] =~~= lists@[j as int].deep_view());
                assert(lists@[j as int].deep_view().len() == lists@[j as int]@.len());
            }
            let row_val = crate::vars::clone_bytes(&lists[j][i]);
            proof {
                assert(lists@[j as int].deep_view()[i as int] =~= lists@[j as int]@[i as int]@);
            }
            cur = replace_first_marker(&cur, &row_val);
            j += 1;
        }
        proof {
            assert(ld.skip(lists@.len() as int) =~= Seq::<Seq<Seq<u8>>>::empty());
        }
        let ghost odv = out.deep_view();
        out.push(cur);
        proof {
            assert(out.deep_view() =~~= odv.push(expand_row(cmd@, ld, i as int)));
            assert(odv.push(expand_row(cmd@, ld, i as int)) =~~= expand_rows(
                cmd@,
                ld,
                (i + 1) as nat,
            ));
        }
        i += 1;
    }
    Ok(out)
}

} // verus!
