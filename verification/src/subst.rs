//! Placeholder scanning and variable substitution.
//!
//! A command template holds placeholders of the shape `${name}`, where the
//! name is a nonempty run of bytes other than `}`. Resolution scans the
//! template once, left to right, collecting the placeholder names in order of
//! occurrence, and then, for each collected name bound in the variable
//! mapping, replaces every occurrence of that placeholder with the variable's
//! value. A name not bound in the mapping is left verbatim. A value that
//! begins with `!` is a shell-evaluated variable: the remainder is a shell
//! command, and the trimmed output of that command stands in for the value.
//!
//! The shell itself runs outside this crate. [`shell_requests`] lists, in
//! order, the shell commands that resolving a template needs; the caller runs
//! them and hands their trimmed outputs to [`substitute`], which consumes one
//! output per shell-evaluated occurrence, in the same order. Repeated
//! occurrences of a shell-evaluated placeholder are requested repeatedly; no
//! caching happens within a resolution pass.

use vstd::prelude::*;
use crate::vars::map_of;

verus! {

/// The `$` byte.
pub const DOLLAR: u8 = 0x24;

/// The `{` byte.
pub const LBRACE: u8 = 0x7b;

/// The `}` byte.
pub const RBRACE: u8 = 0x7d;

/// The `!` byte that marks a shell-evaluated value.
pub const BANG: u8 = 0x21;

/// The placeholder text for a variable name: `${name}`.
pub open spec fn placeholder(name: Seq<u8>) -> Seq<u8> {
    seq![DOLLAR, LBRACE] + name + seq![RBRACE]
}

/// A value beginning with `!` names a shell command instead of literal text.
pub open spec fn is_shell_value(v: Seq<u8>) -> bool {
    v.len() > 0 && v[0] == BANG
}

/// The shell command of a shell-evaluated value: the text after the `!`.
pub open spec fn shell_cmd_text(v: Seq<u8>) -> Seq<u8> {
    v.skip(1)
}

/// The first position at or after `from` holding byte `b`.
pub open spec fn first_byte_from(s: Seq<u8>, b: u8, from: int) -> Option<int>
    decreases s.len() - from,
{
    if from >= s.len() {
        None
    } else if s[from] == b {
        Some(from)
    } else {
        first_byte_from(s, b, from + 1)
    }
}

pub proof fn lemma_first_byte_from_bounds(s: Seq<u8>, b: u8, from: int)
    ensures
        match first_byte_from(s, b, from) {
            Some(j) => from <= j < s.len() && s[j] == b && forall|k: int|
                from <= k < j ==> s[k] != b,
            None => forall|k: int| from <= k < s.len() ==> s[k] != b,
        },
    decreases s.len() - from,
{
    if from >= s.len() {
    } else if s[from] == b {
    } else {
        lemma_first_byte_from_bounds(s, b, from + 1);
    }
}

/// The placeholder starting at position `i`, if any: its name and the
/// position just after its closing `}`. A placeholder starts with `${`,
/// closes at the first following `}`, and has at least one name byte.
pub open spec fn match_at(s: Seq<u8>, i: int) -> Option<(Seq<u8>, int)> {
    if 0 <= i && i + 1 < s.len() && s[i] == DOLLAR && s[i + 1] == LBRACE {
        match first_byte_from(s, RBRACE, i + 2) {
            Some(j) => if j > i + 2 {
                Some((s.subrange(i + 2, j), j + 1))
            } else {
                None
            },
            None => None,
        }
    } else {
        None
    }
}

pub proof fn lemma_match_at_advances(s: Seq<u8>, i: int)
    ensures
        match match_at(s, i) {
            Some(m) => i + 4 <= m.1 <= s.len() && m.0.len() >= 1,
            None => true,
        },
{
    if 0 <= i && i + 1 < s.len() && s[i] == DOLLAR && s[i + 1] == LBRACE {
        lemma_first_byte_from_bounds(s, RBRACE, i + 2);
    }
}

/// The placeholder names of `s` from position `i` on, in order of occurrence.
/// The scan is non-overlapping: after a placeholder it continues just past
/// the closing `}`.
pub open spec fn scan_names(s: Seq<u8>, i: int) -> Seq<Seq<u8>>
    decreases s.len() - i,
    when i >= 0
    via scan_names_decreases
{
    if i >= s.len() {
        Seq::empty()
    } else {
        match match_at(s, i) {
            Some(m) => seq![m.0] + scan_names(s, m.1),
            None => scan_names(s, i + 1),
        }
    }
}

#[via_fn]
proof fn scan_names_decreases(s: Seq<u8>, i: int) {
    lemma_match_at_advances(s, i);
}

/// Every byte of `s`, with `pat` replaced by `val` at each of its
/// non-overlapping occurrences, found left to right; replaced text is not
/// rescanned.
pub open spec fn replace_all(s: Seq<u8>, pat: Seq<u8>, val: Seq<u8>) -> Seq<u8>
    decreases s.len(),
    when pat.len() > 0
{
    if s.len() < pat.len() {
        s
    } else if s.subrange(0, pat.len() as int) == pat {
        val + replace_all(s.skip(pat.len() as int), pat, val)
    } else {
        seq![s[0]] + replace_all(s.skip(1), pat, val)
    }
}

/// The shell commands that resolving a template with these placeholder
/// names needs, in occurrence order: one per occurrence of a name whose
/// value is shell-evaluated.
pub open spec fn shell_cmds_of(names: Seq<Seq<u8>>, m: Map<Seq<u8>, Seq<u8>>) -> Seq<Seq<u8>>
    decreases names.len(),
{
    if names.len() == 0 {
        Seq::empty()
    } else {
        let rest = shell_cmds_of(names.skip(1), m);
        if m.contains_key(names[0]) && is_shell_value(m[names[0]]) {
            seq![shell_cmd_text(m[names[0]])] + rest
        } else {
            rest
        }
    }
}

/// Substitution of the named placeholders into `s`, in order. A bound name
/// replaces every occurrence of its placeholder: with the next unconsumed
/// shell output if its value is shell-evaluated, else with the value itself.
/// An unbound name leaves its placeholder verbatim; so does a
/// shell-evaluated one with no output left to consume.
pub open spec fn subst_from(
    s: Seq<u8>,
    names: Seq<Seq<u8>>,
    m: Map<Seq<u8>, Seq<u8>>,
    outs: Seq<Seq<u8>>,
) -> Seq<u8>
    decreases names.len(),
{
    if names.len() == 0 {
        s
    } else {
        let n = names[0];
        if m.contains_key(n) {
            if is_shell_value(m[n]) {
                if outs.len() > 0 {
                    subst_from(replace_all(s, placeholder(n), outs[0]), names.skip(1), m, outs.skip(1))
                } else {
                    subst_from(s, names.skip(1), m, outs)
                }
            } else {
                subst_from(replace_all(s, placeholder(n), m[n]), names.skip(1), m, outs)
            }
        } else {
            subst_from(s, names.skip(1), m, outs)
        }
    }
}

/// What one resolution pass makes of `s` under mapping `m`, the outputs of
/// the requested shell commands being `outs`.
pub open spec fn resolved_spec(s: Seq<u8>, m: Map<Seq<u8>, Seq<u8>>, outs: Seq<Seq<u8>>) -> Seq<
    u8,
> {
    subst_from(s, scan_names(s, 0), m, outs)
}

/// A string with no placeholder anywhere.
pub open spec fn fully_resolved(s: Seq<u8>) -> bool {
    forall|i: int| match_at(s, i) is None
}

proof fn lemma_fully_resolved_scan_empty(s: Seq<u8>, i: int)
    requires
        fully_resolved(s),
        i >= 0,
    ensures
        scan_names(s, i) == Seq::<Seq<u8>>::empty(),
    decreases s.len() - i,
{
    if i >= s.len() {
    } else {
        assert(match_at(s, i) is None);
        lemma_fully_resolved_scan_empty(s, i + 1);
    }
}

/// Resolution is idempotent on fully-resolved strings: a string with no
/// remaining placeholder resolves to itself, under any mapping and any shell
/// outputs, so a second resolution pass changes nothing.
pub proof fn lemma_resolution_idempotent(s: Seq<u8>, m: Map<Seq<u8>, Seq<u8>>, outs: Seq<Seq<u8>>)
    requires
        fully_resolved(s),
    ensures
        resolved_spec(s, m, outs) == s,
{
    lemma_fully_resolved_scan_empty(s, 0);
}

/// Build the placeholder text `${name}`.
pub fn make_placeholder(name: &Vec<u8>) -> (r: Vec<u8>)
    ensures
        r@ == placeholder(name@),
        r@.len() == name@.len() + 3,
{
    let mut out: Vec<u8> = Vec::new();
    out.push(DOLLAR);
    out.push(LBRACE);
    let mut i: usize = 0;
    while i < name.len()
        invariant
            i <= name@.len(),
            out@ =~= seq![DOLLAR, LBRACE] + name@.take(i as int),
        decreases name@.len() - i,
    {
        out.push(name[i]);
        i += 1;
    }
    out.push(RBRACE);
    proof {
        assert(name@.take(name@.len() as int) =~= name@);
        assert(out@ =~= placeholder(name@));
    }
    out
}

/// Whether `pat` occurs in `s` at position `i`.
fn range_eq(s: &Vec<u8>, i: usize, pat: &Vec<u8>) -> (r: bool)
    requires
        i + pat@.len() <= s@.len(),
    ensures
        r == (s@.subrange(i as int, i + pat@.len()) == pat@),
{
    let n = s.len();
    let mut k: usize = 0;
    while k < pat.len()
        invariant
            k <= pat@.len(),
            i + pat@.len() <= s@.len(),
            n == s@.len(),
            forall|j: int| 0 <= j < k ==> s@[i + j] == pat@[j],
        decreases pat@.len() - k,
    {
        if s[i + k] != pat[k] {
            assert(s@.subrange(i as int, i + pat@.len())[k as int] == s@[i + k]);
            return false;
        }
        k += 1;
    }
    assert(s@.subrange(i as int, i + pat@.len()) =~= pat@);
    true
}

/// Replace every non-overlapping occurrence of `pat` in `s` by `val`,
/// scanning left to right; replaced text is not rescanned.
pub fn replace_all_bytes(s: &Vec<u8>, pat: &Vec<u8>, val: &Vec<u8>) -> (r: Vec<u8>)
    requires
        pat@.len() > 0,
    ensures
        r@ == replace_all(s@, pat@, val@),
{
    let n = s.len();
    let plen = pat.len();
    let mut out: Vec<u8> = Vec::new();
    let mut i: usize = 0;
    proof {
        assert(s@.skip(0) =~= s@);
    }
    while i < n
        invariant
            i <= n,
            n == s@.len(),
            plen == pat@.len(),
            plen > 0,
            replace_all(s@, pat@, val@) =~= out@ + replace_all(s@.skip(i as int), pat@, val@),
        decreases n - i,
    {
        let ghost rest = s@.skip(i as int);
        if plen <= n - i && range_eq(s, i, pat) {
            proof {
                assert(rest.subrange(0, plen as int) =~= s@.subrange(i as int, i + plen));
                assert(rest.skip(plen as int) =~= s@.skip(i + plen));
            }
            let ghost obase = out@;
            let mut w: usize = 0;
            while w < val.len()
                invariant
                    w <= val@.len(),
                    out@ =~= obase + val@.take(w as int),
                decreases val@.len() - w,
            {
                out.push(val[w]);
                w += 1;
            }
            proof {
                assert(val@.take(val@.len() as int) =~= val@);
            }
            i += plen;
        } else {
            proof {
                if i + plen <= n {
                    assert(rest.subrange(0, plen as int) =~= s@.subrange(i as int, i + plen));
                } else {
                    assert(rest.len() < plen);
                }
                assert(rest.skip(1) =~= s@.skip(i as int + 1));
            }
            out.push(s[i]);
            i += 1;
        }
    }
    proof {
        assert(s@.skip(n as int) =~= Seq::<u8>::empty());
    }
    out
}

/// The placeholder names of `s`, in order of occurrence.
pub fn scan_placeholders(s: &Vec<u8>) -> (r: Vec<Vec<u8>>)
    ensures
        r.deep_view() == scan_names(s@, 0),
{
    let n = s.len();
    let mut out: Vec<Vec<u8>> = Vec::new();
    let mut i: usize = 0;
    proof {
        assert(Seq::<Seq<u8>>::empty() + scan_names(s@, 0) =~= scan_names(s@, 0));
        assert(out.deep_view() =~~= Seq::<Seq<u8>>::empty());
    }
    while i < n
        invariant
            i <= n,
            n == s@.len(),
            scan_names(s@, 0) =~~= out.deep_view() + scan_names(s@, i as int),
        decreases n - i,
    {
        let mut advanced = false;
        if i + 1 < n && s[i] == DOLLAR && s[i + 1] == LBRACE {
            // find the first `}` at or after the name's first byte
            let mut j: usize = i + 2;
            while j < n && s[j] != RBRACE
                invariant
                    i + 2 <= j <= n,
                    n == s@.len(),
                    forall|k: int| i + 2 <= k < j ==> s@[k] != RBRACE,
                decreases n - j,
            {
                j += 1;
            }
            if j < n && j > i + 2 {
                proof {
                    lemma_first_byte_from_agree(s@, RBRACE, i + 2, j as int);
                    assert(first_byte_from(s@, RBRACE, j as int) == Some(j as int));
                }
                let name = crate::bytes::copy_range(s, i + 2, j);
                let ghost odv = out.deep_view();
                out.push(name);
                proof {
                    assert(out.deep_view() =~~= odv + seq![s@.subrange(i + 2, j as int)]);
                }
                i = j + 1;
                advanced = true;
            } else {
                proof {
                    lemma_first_byte_from_agree(s@, RBRACE, i + 2, j as int);
                    if j < n {
                        assert(first_byte_from(s@, RBRACE, j as int) == Some(j as int));
                    } else {
                        assert(first_byte_from(s@, RBRACE, j as int) is None);
                    }
                    assert(match_at(s@, i as int) is None);
                }
            }
        }
        if !advanced {
            proof {
                assert(match_at(s@, i as int) is None);
            }
            i += 1;
        }
    }
    out
}

proof fn lemma_first_byte_from_agree(s: Seq<u8>, b: u8, from: int, upto: int)
    requires
        from <= upto,
        forall|k: int| from <= k < upto ==> s[k] != b,
    ensures
        first_byte_from(s, b, from) == first_byte_from(s, b, upto),
    decreases upto - from,
{
    if from < upto {
        if from < s.len() {
            lemma_first_byte_from_agree(s, b, from + 1, upto);
        } else {
            lemma_first_byte_from_agree(s, b, from + 1, upto);
        }
    }
}

/// The shell commands that resolving `s` under `vars` needs, in order: one
/// per occurrence of a placeholder whose variable's value is
/// shell-evaluated. The caller runs each through the shell and hands the
/// trimmed outputs to [`substitute`] in the same order.
pub fn shell_requests(s: &Vec<u8>, vars: &Vec<(Vec<u8>, Vec<u8>)>) -> (r: Vec<Vec<u8>>)
    ensures
        r.deep_view() == shell_cmds_of(scan_names(s@, 0), map_of(vars.deep_view())),
{
    let names = scan_placeholders(s);
    let ghost m = map_of(vars.deep_view());
    let ghost all = names.deep_view();
    let mut out: Vec<Vec<u8>> = Vec::new();
    let mut k: usize = 0;
    proof {
        assert(all.skip(0) =~= all);
        assert(out.deep_view() =~~= Seq::<Seq<u8>>::empty());
    }
    while k < names.len()
        invariant
            k <= names@.len(),
            all == names.deep_view(),
            m == map_of(vars.deep_view()),
            shell_cmds_of(all, m) =~~= out.deep_view() + shell_cmds_of(
                all.skip(k as int),
                m,
            ),
        decreases names@.len() - k,
    {
        proof {
            assert(all.skip(k as int).skip(1) =~= all.skip(k as int + 1));
            assert(all.skip(k as int)[0] == all[k as int]);
            assert(names.deep_view()[k as int] =~= names@[k as int]@);
        }
        let name = &names[k];
        match crate::vars::var_lookup(vars, name) {
            Some(v) => {
                if v.len() > 0 && v[0] == BANG {
                    let cmd = crate::bytes::copy_range(&v, 1, v.len());
                    let ghost odv = out.deep_view();
                    out.push(cmd);
                    proof {
                        assert(v@.subrange(1, v@.len() as int) =~= shell_cmd_text(v@));
                        assert(out.deep_view() =~~= odv + seq![shell_cmd_text(v@)]);
                    }
                }
            },
            None => {},
        }
        k += 1;
    }
    proof {
        assert(all.skip(names@.len() as int) =~= Seq::<Seq<u8>>::empty());
    }
    out
}

/// One resolution pass over `s`: replace each scanned placeholder whose name
/// is bound, shell-evaluated values taking the next shell output in `outs`.
/// With `outs` as [`shell_requests`] implies, every shell-evaluated
/// occurrence consumes exactly one output.
pub fn substitute(s: &Vec<u8>, vars: &Vec<(Vec<u8>, Vec<u8>)>, outs: &Vec<Vec<u8>>) -> (r: Vec<
    u8,
>)
    ensures
        r@ == resolved_spec(s@, map_of(vars.deep_view()), outs.deep_view()),
{
    let names = scan_placeholders(s);
    let ghost m = map_of(vars.deep_view());
    let ghost all = names.deep_view();
    let ghost oall = outs.deep_view();
    let mut cur = crate::vars::clone_bytes(s);
    let mut k: usize = 0;
    let mut oi: usize = 0;
    proof {
        assert(all.skip(0) =~= all);
        assert(oall.skip(0) =~= oall);
    }
    while k < names.len()
        invariant
            k <= names@.len(),
            oi <= outs@.len(),
            all == names.deep_view(),
            oall == outs.deep_view(),
            m == map_of(vars.deep_view()),
            subst_from(s@, all, m, oall) == subst_from(
                cur@,
                all.skip(k as int),
                m,
                oall.skip(oi as int),
            ),
        decreases names@.len() - k,
    {
        proof {
            assert(all.skip(k as int).skip(1) =~= all.skip(k as int + 1));
            assert(all.skip(k as int)[0] == all[k as int]);
            assert(names.deep_view()[k as int] =~= names@[k as int]@);
        }
        let name = &names[k];
        match crate::vars::var_lookup(vars, name) {
            Some(v) => {
                let pat = make_placeholder(name);
                if v.len() > 0 && v[0] == BANG {
                    if oi < outs.len() {
                        proof {
                            assert(oall.skip(oi as int).skip(1) =~= oall.skip(oi as int + 1));
                            assert(oall.skip(oi as int)[0] == oall[oi as int]);
                            assert(outs.deep_view()[oi as int] =~= outs@[oi as int]@);
                        }
                        cur = replace_all_bytes(&cur, &pat, &outs[oi]);
                        oi += 1;
                    }
                } else {
                    cur = replace_all_bytes(&cur, &pat, &v);
                }
            },
            None => {},
        }
        k += 1;
    }
    proof {
        assert(all.skip(names@.len() as int) =~= Seq::<Seq<u8>>::empty());
    }
    cur
}

} // verus!
