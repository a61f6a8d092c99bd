//! Variable mappings and their three-tier merge.
//!
//! A variable list is an ordered list of name/value pairs; a later pair for
//! the same name overrides an earlier one. Merging appends lists, so the
//! merged list of global, target-local and command-line variables gives the
//! command-line tier the highest precedence and the global tier the lowest.

use vstd::prelude::*;

verus! {

/// The `=` byte that separates name from value in a command-line variable.
pub const EQUALS: u8 = 0x3d;

/// The mapping a variable list denotes: later pairs override earlier ones.
pub open spec fn map_of(ps: Seq<(Seq<u8>, Seq<u8>)>) -> Map<Seq<u8>, Seq<u8>>
    decreases ps.len(),
{
    if ps.len() == 0 {
        Map::empty()
    } else {
        map_of(ps.drop_last()).insert(ps.last().0, ps.last().1)
    }
}

proof fn lemma_map_of_last_match(ps: Seq<(Seq<u8>, Seq<u8>)>, n: Seq<u8>, i: int)
    requires
        0 <= i < ps.len(),
        ps[i].0 == n,
        forall|j: int| i < j < ps.len() ==> ps[j].0 != n,
    ensures
        map_of(ps).contains_key(n),
        map_of(ps)[n] == ps[i].1,
    decreases ps.len(),
{
    if i == ps.len() - 1 {
    } else {
        lemma_map_of_last_match(ps.drop_last(), n, i);
    }
}

proof fn lemma_map_of_no_match(ps: Seq<(Seq<u8>, Seq<u8>)>, n: Seq<u8>)
    requires
        forall|j: int| 0 <= j < ps.len() ==> ps[j].0 != n,
    ensures
        !map_of(ps).contains_key(n),
    decreases ps.len(),
{
    if ps.len() > 0 {
        lemma_map_of_no_match(ps.drop_last(), n);
    }
}

/// Appending variable lists layers their mappings, the right list on top.
pub proof fn lemma_map_of_append(a: Seq<(Seq<u8>, Seq<u8>)>, b: Seq<(Seq<u8>, Seq<u8>)>)
    ensures
        map_of(a + b) == map_of(a).union_prefer_right(map_of(b)),
    decreases b.len(),
{
    if b.len() == 0 {
        assert(a + b =~= a);
        assert(map_of(a).union_prefer_right(map_of(b)) =~= map_of(a));
    } else {
        lemma_map_of_append(a, b.drop_last());
        assert((a + b).drop_last() =~= a + b.drop_last());
        assert((a + b).last() == b.last());
        assert(map_of(a).union_prefer_right(map_of(b.drop_last())).insert(b.last().0, b.last().1)
            =~= map_of(a).union_prefer_right(map_of(b)));
    }
}

/// Copy a byte string.
pub fn clone_bytes(v: &Vec<u8>) -> (r: Vec<u8>)
    ensures
        r@ == v@,
{
    let mut out: Vec<u8> = Vec::new();
    let mut i: usize = 0;
    while i < v.len()
        invariant
            i <= v@.len(),
            out@ =~= v@.take(i as int),
        decreases v@.len() - i,
    {
        out.push(v[i]);
        i += 1;
    }
    proof {
        assert(v@.take(v@.len() as int) =~= v@);
    }
    out
}

/// A pair's deep view is the pair of its parts' views.
pub proof fn lemma_pair_deep_view(ps: &Vec<(Vec<u8>, Vec<u8>)>, i: int)
    requires
        0 <= i < ps@.len(),
    ensures
        ps.deep_view()[i].0 == ps@[i].0@,
        ps.deep_view()[i].1 == ps@[i].1@,
{
    assert(ps@[i].0.deep_view() =~= ps@[i].0@);
    assert(ps@[i].1.deep_view() =~= ps@[i].1@);
}

/// Copy a list of byte strings.
pub fn clone_bytes_list(v: &Vec<Vec<u8>>) -> (r: Vec<Vec<u8>>)
    ensures
        r.deep_view() == v.deep_view(),
        r@.len() == v@.len(),
{
    let mut out: Vec<Vec<u8>> = Vec::new();
    let mut i: usize = 0;
    while i < v.len()
        invariant
            i <= v@.len(),
            out.deep_view() =~~= v.deep_view().take(i as int),
        decreases v@.len() - i,
    {
        let ghost odv = out.deep_view();
        out.push(clone_bytes(&v[i]));
        proof {
            assert(out.deep_view() =~~= odv.push(v.deep_view()[i as int]));
            assert(odv.push(v.deep_view()[i as int]) =~~= v.deep_view().take(i + 1));
        }
        i += 1;
    }
    proof {
        assert(v.deep_view().take(v@.len() as int) =~~= v.deep_view());
    }
    out
}

/// Look a name up in a variable list; the last pair for the name wins.
pub fn var_lookup(ps: &Vec<(Vec<u8>, Vec<u8>)>, name: &Vec<u8>) -> (r: Option<Vec<u8>>)
    ensures
        match r {
            Some(v) => map_of(ps.deep_view()).contains_key(name@) && v@ == map_of(ps.deep_view())[
                name@
            ],
            None => !map_of(ps.deep_view()).contains_key(name@),
        },
{
    let mut i: usize = ps.len();
    while i > 0
        invariant
            i <= ps@.len(),
            forall|j: int| i <= j < ps@.len() ==> ps.deep_view()[j].0 != name@,
        decreases i,
    {
        i -= 1;
        proof {
            lemma_pair_deep_view(ps, i as int);
        }
        if crate::bytes::bytes_eq(&ps[i].0, name) {
            proof {
                lemma_map_of_last_match(ps.deep_view(), name@, i as int);
            }
            return Some(clone_bytes(&ps[i].1));
        }
    }
    proof {
        lemma_map_of_no_match(ps.deep_view(), name@);
    }
    None
}

/// Merge two variable lists; pairs of `over` override pairs of `base`.
pub fn merge_vars(base: &Vec<(Vec<u8>, Vec<u8>)>, over: &Vec<(Vec<u8>, Vec<u8>)>) -> (r: Vec<
    (Vec<u8>, Vec<u8>),
>)
    ensures
        r.deep_view() == base.deep_view() + over.deep_view(),
        map_of(r.deep_view()) == map_of(base.deep_view()).union_prefer_right(
            map_of(over.deep_view()),
        ),
{
    let mut out: Vec<(Vec<u8>, Vec<u8>)> = Vec::new();
    let mut i: usize = 0;
    while i < base.len()
        invariant
            i <= base@.len(),
            out.deep_view() =~~= base.deep_view().take(i as int),
        decreases base@.len() - i,
    {
        let k = clone_bytes(&base[i].0);
        let v = clone_bytes(&base[i].1);
        let ghost odv = out.deep_view();
        out.push((k, v));
        proof {
            assert(out.deep_view() =~~= odv + seq![(base.deep_view()[i as int].0, base.deep_view()[
                i as int
            ].1)]);
            assert(odv + seq![(base.deep_view()[i as int].0, base.deep_view()[i as int].1)]
                =~~= base.deep_view().take(i + 1));
        }
        i += 1;
    }
    proof {
        assert(base.deep_view().take(base@.len() as int) =~~= base.deep_view());
    }
    let mut j: usize = 0;
    while j < over.len()
        invariant
            j <= over@.len(),
            out.deep_view() =~~= base.deep_view() + over.deep_view().take(j as int),
        decreases over@.len() - j,
    {
        let k = clone_bytes(&over[j].0);
        let v = clone_bytes(&over[j].1);
        let ghost odv = out.deep_view();
        out.push((k, v));
        proof {
            assert(out.deep_view() =~~= odv + seq![(over.deep_view()[j as int].0, over.deep_view()[
                j as int
            ].1)]);
            assert(odv + seq![(over.deep_view()[j as int].0, over.deep_view()[j as int].1)]
                =~~= base.deep_view() + over.deep_view().take(j + 1));
        }
        j += 1;
    }
    proof {
        assert(base.deep_view() + over.deep_view().take(over@.len() as int) =~~= base.deep_view()
            + over.deep_view());
        lemma_map_of_append(base.deep_view(), over.deep_view());
    }
    out
}

/// The merged variable mapping of one target: global variables lowest,
/// target-local ones over them, command-line pairs over all. Recomputed
/// fresh for every target; never persisted.
pub fn merged_tiers(
    global: &Vec<(Vec<u8>, Vec<u8>)>,
    local: &Vec<(Vec<u8>, Vec<u8>)>,
    cli: &Vec<(Vec<u8>, Vec<u8>)>,
) -> (r: Vec<(Vec<u8>, Vec<u8>)>)
    ensures
        r.deep_view() == (global.deep_view() + local.deep_view()) + cli.deep_view(),
        map_of(r.deep_view()) == map_of(global.deep_view()).union_prefer_right(
            map_of(local.deep_view()),
        ).union_prefer_right(map_of(cli.deep_view())),
{
    let gl = merge_vars(global, local);
    let r = merge_vars(&gl, cli);
    proof {
        lemma_map_of_append(global.deep_view(), local.deep_view());
    }
    r
}

/// Precedence law over a three-tier merge `global`, then `local`, then `cli`:
/// a name the command line defines takes the command-line value whatever the
/// other tiers say; a name only the global and local tiers define takes the
/// local value.
pub proof fn lemma_precedence(
    g: Seq<(Seq<u8>, Seq<u8>)>,
    l: Seq<(Seq<u8>, Seq<u8>)>,
    c: Seq<(Seq<u8>, Seq<u8>)>,
    n: Seq<u8>,
)
    ensures
        map_of(c).contains_key(n) ==> map_of((g + l) + c).contains_key(n) && map_of((g + l) + c)[n]
            == map_of(c)[n],
        !map_of(c).contains_key(n) && map_of(l).contains_key(n) ==> map_of((g + l) + c)
            .contains_key(n) && map_of((g + l) + c)[n] == map_of(l)[n],
        !map_of(c).contains_key(n) && !map_of(l).contains_key(n) && map_of(g).contains_key(n)
            ==> map_of((g + l) + c).contains_key(n) && map_of((g + l) + c)[n] == map_of(g)[n],
        !map_of(c).contains_key(n) && !map_of(l).contains_key(n) && !map_of(g).contains_key(n)
            ==> !map_of((g + l) + c).contains_key(n),
{
    lemma_map_of_append(g, l);
    lemma_map_of_append(g + l, c);
}

/// How many bytes of `s` equal `b`.
pub open spec fn count_byte(s: Seq<u8>, b: u8) -> nat
    decreases s.len(),
{
    if s.len() == 0 {
        0
    } else {
        count_byte(s.drop_last(), b) + (if s.last() == b {
            1nat
        } else {
            0nat
        })
    }
}

/// Parse one command-line variable of the shape `NAME=VALUE`. The argument
/// must hold exactly one `=`; any other shape is rejected, and the caller
/// treats that as a fatal argument error.
pub fn parse_cli_var(arg: &Vec<u8>) -> (r: Option<(Vec<u8>, Vec<u8>)>)
    ensures
        r is Some <==> count_byte(arg@, EQUALS) == 1,
        match r {
            Some(kv) => arg@ == kv.0@ + seq![EQUALS] + kv.1@ && count_byte(kv.0@, EQUALS) == 0
                && count_byte(kv.1@, EQUALS) == 0,
            None => true,
        },
{
    let n = arg.len();
    let mut count: usize = 0;
    let mut pos: usize = 0;
    let mut i: usize = 0;
    while i < n
        invariant
            i <= n,
            n == arg@.len(),
            count == count_byte(arg@.take(i as int), EQUALS),
            count <= i,
            count >= 1 ==> pos < i && arg@[pos as int] == EQUALS && count_byte(
                arg@.take(pos as int),
                EQUALS,
            ) == 0,
        decreases n - i,
    {
        proof {
            assert(arg@.take(i + 1).drop_last() =~= arg@.take(i as int));
        }
        if arg[i] == EQUALS {
            if count == 0 {
                pos = i;
            }
            count += 1;
        }
        i += 1;
    }
    proof {
        assert(arg@.take(n as int) =~= arg@);
    }
    if count != 1 {
        return None;
    }
    let mut key: Vec<u8> = Vec::new();
    let mut j: usize = 0;
    while j < pos
        invariant
            j <= pos < n,
            n == arg@.len(),
            key@ =~= arg@.take(pos as int).take(j as int),
        decreases pos - j,
    {
        proof {
            assert(arg@.take(pos as int).take(j + 1) =~= arg@.take(pos as int).take(
                j as int,
            ).push(arg@[j as int]));
        }
        key.push(arg[j]);
        j += 1;
    }
    let mut val: Vec<u8> = Vec::new();
    let mut k: usize = pos + 1;
    while k < n
        invariant
            pos < k <= n,
            n == arg@.len(),
            val@ =~= arg@.subrange(pos + 1, k as int),
        decreases n - k,
    {
        val.push(arg[k]);
        k += 1;
    }
    proof {
        assert(key@ =~= arg@.take(pos as int));
        assert(arg@ =~= key@ + seq![EQUALS] + val@);
        lemma_count_byte_split(arg@, pos as int, EQUALS);
    }
    Some((key, val))
}

proof fn lemma_count_byte_split(s: Seq<u8>, pos: int, b: u8)
    requires
        0 <= pos < s.len(),
        s[pos] == b,
    ensures
        count_byte(s, b) == count_byte(s.take(pos), b) + 1 + count_byte(s.skip(pos + 1), b),
    decreases s.len(),
{
    if pos == s.len() - 1 {
        assert(s.take(pos) =~= s.drop_last());
        assert(s.skip(pos + 1) =~= Seq::<u8>::empty());
    } else {
        lemma_count_byte_split(s.drop_last(), pos, b);
        assert(s.drop_last().take(pos) =~= s.take(pos));
        assert(s.drop_last().skip(pos + 1) =~= s.skip(pos + 1).drop_last());
        assert(s.skip(pos + 1).last() == s.last());
    }
}

} // verus!
