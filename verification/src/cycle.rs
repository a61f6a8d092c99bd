//! Dependency-cycle detection.
//!
//! The dependency graph has an edge from target `a` to name `b` when `b`
//! stands in `a`'s `deps`. A name without a target of its own has no
//! outgoing edges, so a dependency on an absent target ends that branch of
//! the search and is no cycle. The detector walks the graph depth-first from
//! every target, keeping the names on the current path; meeting a name
//! already on the path is a cycle, and the rejection names that target.
//! Acceptance means the graph has no cycle at all; rejection names a target
//! that lies on one.

use vstd::prelude::*;
use vstd::set_lib::lemma_len_subset;
use crate::config::{Document, Target, doc_target, is_target_name, lemma_find_target_name};

verus! {

/// An edge of the dependency graph: the target named `a` lists `b` in its
/// `deps`.
pub open spec fn edge(doc: Document, a: Seq<u8>, b: Seq<u8>) -> bool {
    match doc_target(doc, a) {
        Some(t) => t.deps.deep_view().contains(b),
        None => false,
    }
}

/// A walk: a nonempty sequence of names with an edge between neighbours.
pub open spec fn is_walk(doc: Document, w: Seq<Seq<u8>>) -> bool {
    w.len() >= 1 && forall|i: int| 0 <= i < w.len() - 1 ==> edge(doc, #[trigger] w[i], w[i + 1])
}

/// A cycle: a walk of length at least two that returns to its first name.
pub open spec fn is_cycle_walk(doc: Document, w: Seq<Seq<u8>>) -> bool {
    is_walk(doc, w) && w.len() >= 2 && w[0] == w[w.len() - 1]
}

/// The dependency graph holds a cycle.
pub open spec fn has_cycle(doc: Document) -> bool {
    exists|w: Seq<Seq<u8>>| is_cycle_walk(doc, w)
}

/// The name `n` lies on some cycle.
pub open spec fn on_cycle(doc: Document, n: Seq<u8>) -> bool {
    exists|w: Seq<Seq<u8>>| is_cycle_walk(doc, w) && w.contains(n)
}

/// A witness that the search from `t` meets a blocked name again: a walk
/// from `t` whose last name is blocked or is `t` itself, and whose inner
/// names are all unblocked.
pub open spec fn revisit_witness(
    doc: Document,
    t: Seq<u8>,
    blocked: Set<Seq<u8>>,
    w: Seq<Seq<u8>>,
) -> bool {
    &&& is_walk(doc, w)
    &&& w.len() >= 2
    &&& w[0] == t
    &&& (blocked.contains(w[w.len() - 1]) || w[w.len() - 1] == t)
    &&& forall|i: int| 1 <= i < w.len() - 1 ==> !blocked.contains(#[trigger] w[i])
}

/// Some walk from `t` meets a blocked name, or `t` itself, again.
pub open spec fn revisits(doc: Document, t: Seq<u8>, blocked: Set<Seq<u8>>) -> bool {
    exists|w: Seq<Seq<u8>>| revisit_witness(doc, t, blocked, w)
}

/// The inductive heart of the search: if every dependency of `t` has been
/// cleared against the blocked set extended by `t`, then no walk from `t`
/// meets a blocked name or returns to `t`.
proof fn lemma_no_revisit_step(doc: Document, t: Seq<u8>, blocked: Set<Seq<u8>>, w: Seq<Seq<u8>>)
    requires
        forall|d: Seq<u8>| #[trigger] edge(doc, t, d) ==> !revisits(doc, d, blocked.insert(t))
            && !blocked.insert(t).contains(d),
    ensures
        !revisit_witness(doc, t, blocked, w),
    decreases w.len(),
{
    if revisit_witness(doc, t, blocked, w) {
        let n = w.len() as int;
        let d = w[1];
        assert(edge(doc, w[0], w[1]));
        assert(!blocked.insert(t).contains(d));
        assert(d != t && !blocked.contains(d));
        if exists|i: int| 1 <= i < n - 1 && w[i] == t {
            let i = choose|i: int| 1 <= i < n - 1 && w[i] == t;
            let w2 = w.subrange(0, i + 1);
            assert(revisit_witness(doc, t, blocked, w2)) by {
                assert forall|j: int| 0 <= j < w2.len() - 1 implies #[trigger] edge(
                    doc,
                    w2[j],
                    w2[j + 1],
                ) by {
                    assert(w2[j] == w[j]);
                    assert(w2[j + 1] == w[j + 1]);
                    assert(edge(doc, w[j], w[j + 1]));
                }
                assert(w2[w2.len() - 1] == w[i]);
                assert(w[i] == t);
                assert forall|j: int| 1 <= j < w2.len() - 1 implies !blocked.contains(
                    #[trigger] w2[j],
                ) by {
                    assert(w2[j] == w[j]);
                }
            }
            lemma_no_revisit_step(doc, t, blocked, w2);
            assert(false);
        } else {
            if n == 2 {
                assert(w[n - 1] == d);
                assert(blocked.contains(d) || d == t);
                assert(false);
            } else {
                let w2 = w.subrange(1, n);
                assert(revisit_witness(doc, d, blocked.insert(t), w2)) by {
                    assert forall|j: int| 0 <= j < w2.len() - 1 implies #[trigger] edge(
                        doc,
                        w2[j],
                        w2[j + 1],
                    ) by {
                        assert(w2[j] == w[j + 1]);
                        assert(w2[j + 1] == w[j + 2]);
                        assert(edge(doc, w[j + 1], w[j + 2]));
                    }
                    assert(w2[0] == d);
                    assert(w2[w2.len() - 1] == w[n - 1]);
                    assert(blocked.insert(t).contains(w[n - 1]));
                    assert forall|j: int| 1 <= j < w2.len() - 1 implies !blocked.insert(
                        t,
                    ).contains(#[trigger] w2[j]) by {
                        assert(w2[j] == w[j + 1]);
                        assert(1 <= j + 1 < n - 1);
                        assert(!blocked.contains(w[j + 1]));
                        assert(w[j + 1] != t);
                    }
                }
                assert(revisits(doc, d, blocked.insert(t)));
                assert(false);
            }
        }
    }
}

/// A path of distinct target names is no longer than the targets table.
pub(crate) proof fn lemma_chain_len(doc: Document, s: Seq<Seq<u8>>)
    requires
        doc.wf(),
        s.no_duplicates(),
        forall|i: int| 0 <= i < s.len() ==> is_target_name(doc, #[trigger] s[i]),
    ensures
        s.len() <= doc.targets@.len(),
{
    broadcast use vstd::seq_lib::seq_to_set_is_finite;

    assert forall|x: Seq<u8>| s.to_set().contains(x) implies doc.names().to_set().contains(
        x,
    ) by {
        assert(s.contains(x));
        let i = choose|i: int| 0 <= i < s.len() && s[i] == x;
        assert(is_target_name(doc, x));
        lemma_find_target_name(doc.targets@, x);
        assert(doc.names().contains(x));
    }
    s.unique_seq_to_set();
    doc.names().unique_seq_to_set();
    lemma_len_subset(s.to_set(), doc.names().to_set());
}

/// Find a name on the path.
fn path_find(path: &Vec<Vec<u8>>, name: &Vec<u8>) -> (r: Option<usize>)
    ensures
        match r {
            Some(i) => i < path@.len() && path.deep_view()[i as int] == name@,
            None => !path.deep_view().contains(name@),
        },
{
    let n = path.len();
    let mut i: usize = 0;
    while i < n
        invariant
            i <= n,
            n == path@.len(),
            forall|j: int| 0 <= j < i ==> path.deep_view()[j] != name@,
        decreases n - i,
    {
        proof {
            assert(path.deep_view()[i as int] =~= path@[i as int]@);
        }
        if crate::bytes::bytes_eq(&path[i], name) {
            return Some(i);
        }
        i += 1;
    }
    None
}

/// Search depth-first from `name`, the names on the current path standing in
/// `path`, each a target, each the source of an edge to the next, `name`
/// continuing the chain. Acceptance clears `name` against the path;
/// rejection returns a name on a cycle.
fn check_target(doc: &Document, name: &Vec<u8>, path: &mut Vec<Vec<u8>>) -> (r: Result<
    (),
    Vec<u8>,
>)
    requires
        doc.wf(),
        old(path)@.len() <= doc.targets@.len(),
        old(path).deep_view().no_duplicates(),
        forall|i: int|
            0 <= i < old(path)@.len() ==> is_target_name(
                *doc,
                #[trigger] old(path).deep_view()[i],
            ),
        forall|i: int|
            0 <= i < old(path)@.len() - 1 ==> edge(
                *doc,
                #[trigger] old(path).deep_view()[i],
                old(path).deep_view()[i + 1],
            ),
        old(path)@.len() > 0 ==> edge(
            *doc,
            old(path).deep_view()[old(path)@.len() - 1],
            name@,
        ),
    ensures
        final(path)@ == old(path)@,
        match r {
            Ok(()) => !revisits(*doc, name@, old(path).deep_view().to_set()) && !old(
                path,
            ).deep_view().to_set().contains(name@),
            Err(c) => on_cycle(*doc, c@),
        },
    decreases doc.targets@.len() - old(path)@.len(),
{
    let ghost dv = path.deep_view();
    let ghost entry = path@;
    let ghost blocked = dv.to_set();
    match path_find(path, name) {
        Some(idx) => {
            proof {
                let n = dv.len() as int;
                let w = dv.subrange(idx as int, n) + seq![name@];
                assert(w.len() == n - idx + 1);
                assert forall|j: int| 0 <= j < w.len() - 1 implies #[trigger] edge(
                    *doc,
                    w[j],
                    w[j + 1],
                ) by {
                    if j < w.len() - 2 {
                        assert(w[j] == dv[idx + j]);
                        assert(w[j + 1] == dv[idx + j + 1]);
                        assert(edge(*doc, dv[idx + j], dv[idx + j + 1]));
                    } else {
                        assert(w[j] == dv[n - 1]);
                        assert(w[j + 1] == name@);
                    }
                }
                assert(w[0] == dv[idx as int]);
                assert(dv[idx as int] == name@);
                assert(w[w.len() - 1] == name@);
                assert(is_cycle_walk(*doc, w));
                assert(w.contains(name@));
            }
            return Err(crate::vars::clone_bytes(name));
        },
        None => {},
    }
    proof {
        assert(!blocked.contains(name@));
    }
    let target = match crate::config::find_target(doc, name) {
        Some(t) => t,
        None => {
            proof {
                assert(!revisits(*doc, name@, blocked)) by {
                    if revisits(*doc, name@, blocked) {
                        let w = choose|w: Seq<Seq<u8>>| revisit_witness(*doc, name@, blocked, w);
                        assert(edge(*doc, w[0], w[1]));
                        assert(w[0] == name@);
                    }
                }
            }
            return Ok(());
        },
    };
    let ghost t_spec = *target;
    let me = crate::vars::clone_bytes(name);
    path.push(me);
    let ghost dv2 = path.deep_view();
    let ghost pv = path@;
    proof {
        assert(pv.drop_last() =~= entry);
        assert(dv2 =~~= dv + seq![name@]);
        Seq::<Seq<u8>>::lemma_to_set_insert_commutes(dv, name@);
        assert(dv2.to_set() == blocked.insert(name@));
        assert(dv2.no_duplicates());
        assert(is_target_name(*doc, name@));
        lemma_chain_len(*doc, dv2);
    }
    let deps = &target.deps;
    let ghost ddv = deps.deep_view();
    let mut j: usize = 0;
    while j < deps.len()
        invariant
            j <= deps@.len(),
            doc.wf(),
            ddv == deps.deep_view(),
            t_spec.deps == *deps,
            doc_target(*doc, name@) == Some(t_spec),
            path.deep_view() == dv2,
            path@ == pv,
            pv.drop_last() == entry,
            entry == old(path)@,
            path@.len() == dv.len() + 1,
            entry.len() == dv.len(),
            dv2 =~~= dv + seq![name@],
            dv2.to_set() == blocked.insert(name@),
            dv2.no_duplicates(),
            path@.len() <= doc.targets@.len(),
            forall|i: int|
                0 <= i < dv2.len() ==> is_target_name(*doc, #[trigger] dv2[i]),
            forall|i: int|
                0 <= i < dv2.len() - 1 ==> edge(*doc, #[trigger] dv2[i], dv2[i + 1]),
            forall|k: int|
                0 <= k < j ==> !revisits(*doc, #[trigger] ddv[k], blocked.insert(name@))
                    && !blocked.insert(name@).contains(ddv[k]),
        decreases deps@.len() - j,
    {
        proof {
            assert(ddv[j as int] =~= deps@[j as int]@);
            assert(deps.deep_view().contains(ddv[j as int]));
            assert(edge(*doc, name@, ddv[j as int]));
            assert(dv2[dv2.len() - 1] == name@);
        }
        match check_target(doc, &deps[j], path) {
            Ok(()) => {},
            Err(c) => {
                let _ = path.pop();
                proof {
                    assert(path@ =~= pv.drop_last());
                }
                return Err(c);
            },
        }
        j += 1;
    }
    let _ = path.pop();
    proof {
        assert(path@ =~= pv.drop_last());
        assert forall|d: Seq<u8>| #[trigger] edge(*doc, name@, d) implies !revisits(
            *doc,
            d,
            blocked.insert(name@),
        ) && !blocked.insert(name@).contains(d) by {
            assert(t_spec.deps.deep_view().contains(d));
            let k = choose|k: int|
                0 <= k < t_spec.deps.deep_view().len() && t_spec.deps.deep_view()[k] == d;
            assert(ddv[k] == d);
        }
        assert(!revisits(*doc, name@, blocked)) by {
            if revisits(*doc, name@, blocked) {
                let w = choose|w: Seq<Seq<u8>>| revisit_witness(*doc, name@, blocked, w);
                lemma_no_revisit_step(*doc, name@, blocked, w);
            }
        }
    }
    Ok(())
}

/// If the graph holds a cycle, the search from some target meets it with an
/// empty path.
proof fn lemma_cycle_revisits(doc: Document)
    requires
        has_cycle(doc),
    ensures
        exists|n: Seq<u8>|
            #[trigger] is_target_name(doc, n) && revisits(doc, n, Set::<Seq<u8>>::empty()),
{
    let w = choose|w: Seq<Seq<u8>>| is_cycle_walk(doc, w);
    let n = w[0];
    assert(edge(doc, w[0], w[1]));
    assert(is_target_name(doc, n));
    assert(revisit_witness(doc, n, Set::<Seq<u8>>::empty(), w));
    assert(revisits(doc, n, Set::<Seq<u8>>::empty()));
}

/// Walk the dependency graph from every target. A well-formed document is
/// accepted exactly when its dependency graph is acyclic; a rejection names
/// a target that lies on a cycle, and nothing may run after one.
pub fn detect_cycle(doc: &Document) -> (r: Result<(), Vec<u8>>)
    requires
        doc.wf(),
    ensures
        r is Ok <==> !has_cycle(*doc),
        match r {
            Ok(()) => true,
            Err(c) => on_cycle(*doc, c@),
        },
{
    let mut path: Vec<Vec<u8>> = Vec::new();
    let n = doc.targets.len();
    let mut i: usize = 0;
    while i < n
        invariant
            i <= n,
            n == doc.targets@.len(),
            doc.wf(),
            path@.len() == 0,
            forall|j: int|
                0 <= j < i ==> !revisits(*doc, #[trigger] doc.names()[j], Set::<Seq<u8>>::empty()),
        decreases n - i,
    {
        proof {
            assert(path.deep_view() =~~= Seq::<Seq<u8>>::empty());
            assert(path.deep_view().to_set() =~= Set::<Seq<u8>>::empty());
        }
        match check_target(doc, &doc.targets[i].0, &mut path) {
            Ok(()) => {
                proof {
                    assert(doc.names()[i as int] == doc.targets@[i as int].0@);
                }
            },
            Err(c) => {
                return Err(c);
            },
        }
        i += 1;
    }
    proof {
        assert(!has_cycle(*doc)) by {
            if has_cycle(*doc) {
                lemma_cycle_revisits(*doc);
                let nm = choose|nm: Seq<u8>|
                    #[trigger] is_target_name(*doc, nm) && revisits(
                        *doc,
                        nm,
                        Set::<Seq<u8>>::empty(),
                    );
                lemma_find_target_name(doc.targets@, nm);
                assert(doc.names().contains(nm));
                let j = choose|j: int| 0 <= j < doc.names().len() && doc.names()[j] == nm;
                assert(!revisits(*doc, doc.names()[j], Set::<Seq<u8>>::empty()));
            }
        }
    }
    Ok(())
}

} // verus!
