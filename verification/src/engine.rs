//! The execution plan and its ordered, failure-propagating run.
//!
//! Running a target runs every entry of its `deps` first, in declared order,
//! each by the same rule, and then the target's own command or expanded
//! wildcard rows. There is no memoization: a target reached along two paths
//! runs once per path. A dependency naming no target contributes nothing.
//! The whole ordered command list — the plan — is computed before anything
//! runs, so an invalid target aborts the run before any command.
//!
//! The plan is then walked front to back by a [`Runner`]: one command at a
//! time, each waited for; the first failure stops the walk, and no later
//! command is ever issued.

use vstd::prelude::*;
use crate::config::{
    Document, Target, doc_target, is_target_name, cmd_text, source_values, doc_valid,
    target_valid, lemma_find_target_index,
};
use crate::cycle::{edge, has_cycle, is_cycle_walk, lemma_chain_len};
use crate::wildcard::expand_rows;

verus! {

/// The commands of the target itself, in order: the expanded wildcard rows
/// when wildcards are present, else its single command, else nothing.
pub open spec fn own_commands(t: Target) -> Seq<Seq<u8>> {
    match t.wildcards {
        Some(ws) => expand_rows(cmd_text(t), source_values(ws@), source_values(ws@)[0].len()),
        None => match t.cmd {
            Some(c) => seq![c@],
            None => Seq::<Seq<u8>>::empty(),
        },
    }
}

/// The plan of a target, bounded by `fuel`: the plans of its dependencies in
/// order, then its own commands. On an acyclic graph any fuel beyond the
/// table size gives the same list.
pub open spec fn plan_fuel(doc: Document, name: Seq<u8>, fuel: nat) -> Seq<Seq<u8>>
    decreases fuel, 1nat, 0nat,
{
    if fuel == 0 {
        Seq::<Seq<u8>>::empty()
    } else {
        match doc_target(doc, name) {
            None => Seq::<Seq<u8>>::empty(),
            Some(t) => deps_plan(doc, t.deps.deep_view(), fuel) + own_commands(t),
        }
    }
}

/// The concatenated plans of a dependency list, each with one unit of fuel
/// less.
pub open spec fn deps_plan(doc: Document, ds: Seq<Seq<u8>>, fuel: nat) -> Seq<Seq<u8>>
    decreases fuel, 0nat, ds.len(),
{
    if fuel == 0 || ds.len() == 0 {
        Seq::<Seq<u8>>::empty()
    } else {
        plan_fuel(doc, ds[0], (fuel - 1) as nat) + deps_plan(doc, ds.skip(1), fuel)
    }
}

/// The plan of a target of an acyclic document.
pub open spec fn plan_of(doc: Document, name: Seq<u8>) -> Seq<Seq<u8>> {
    plan_fuel(doc, name, (doc.targets@.len() + 1) as nat)
}

/// On an acyclic graph a chain of edges never returns to a name it left.
pub(crate) proof fn lemma_chain_no_revisit(doc: Document, chain: Seq<Seq<u8>>, name: Seq<u8>)
    requires
        !has_cycle(doc),
        forall|i: int| 0 <= i < chain.len() - 1 ==> edge(doc, #[trigger] chain[i], chain[i + 1]),
        chain.len() > 0 ==> edge(doc, chain[chain.len() - 1], name),
    ensures
        !chain.contains(name),
{
    if chain.contains(name) {
        let idx = choose|idx: int| 0 <= idx < chain.len() && chain[idx] == name;
        let n = chain.len() as int;
        let w = chain.subrange(idx, n) + seq![name];
        assert forall|j: int| 0 <= j < w.len() - 1 implies edge(doc, #[trigger] w[j], w[j + 1]) by {
            if j < w.len() - 2 {
                assert(w[j] == chain[idx + j]);
                assert(w[j + 1] == chain[idx + j + 1]);
                assert(edge(doc, chain[idx + j], chain[idx + j + 1]));
            } else {
                assert(w[j] == chain[n - 1]);
                assert(w[j + 1] == name);
            }
        }
        assert(w[0] == chain[idx]);
        assert(w[w.len() - 1] == name);
        assert(is_cycle_walk(doc, w));
        assert(false);
    }
}

/// Compute the plan of `name`, the ghost chain naming the targets whose
/// dependencies brought the walk here.
fn plan_rec(doc: &Document, name: &Vec<u8>, chain: Ghost<Seq<Seq<u8>>>) -> (r: Vec<Vec<u8>>)
    requires
        doc.wf(),
        doc_valid(*doc),
        !has_cycle(*doc),
        chain@.no_duplicates(),
        chain@.len() <= doc.targets@.len(),
        forall|i: int| 0 <= i < chain@.len() ==> is_target_name(*doc, #[trigger] chain@[i]),
        forall|i: int|
            0 <= i < chain@.len() - 1 ==> edge(*doc, #[trigger] chain@[i], chain@[i + 1]),
        chain@.len() > 0 ==> edge(*doc, chain@[chain@.len() - 1], name@),
    ensures
        r.deep_view() == plan_fuel(
            *doc,
            name@,
            (doc.targets@.len() + 1 - chain@.len()) as nat,
        ),
    decreases doc.targets@.len() - chain@.len(),
{
    let ghost fuel = (doc.targets@.len() + 1 - chain@.len()) as nat;
    let target = match crate::config::find_target(doc, name) {
        Some(t) => t,
        None => {
            let out: Vec<Vec<u8>> = Vec::new();
            proof {
                assert(out.deep_view() =~~= Seq::<Seq<u8>>::empty());
            }
            return out;
        },
    };
    let ghost t_spec = *target;
    let ghost chain2 = chain@.push(name@);
    proof {
        assert(is_target_name(*doc, name@));
        lemma_chain_no_revisit(*doc, chain@, name@);
        assert(chain2.no_duplicates());
        assert forall|i: int| 0 <= i < chain2.len() implies is_target_name(
            *doc,
            #[trigger] chain2[i],
        ) by {
            if i < chain@.len() {
                assert(chain2[i] == chain@[i]);
            }
        }
        lemma_chain_len(*doc, chain2);
        assert forall|i: int| 0 <= i < chain2.len() - 1 implies edge(
            *doc,
            #[trigger] chain2[i],
            chain2[i + 1],
        ) by {
            if i < chain@.len() - 1 {
                assert(chain2[i] == chain@[i]);
                assert(chain2[i + 1] == chain@[i + 1]);
            } else {
                assert(chain2[i] == chain@[chain@.len() - 1]);
                assert(chain2[i + 1] == name@);
            }
        }
    }
    let ghost fuel2 = (fuel - 1) as nat;
    let mut out: Vec<Vec<u8>> = Vec::new();
    let deps = &target.deps;
    let ghost ddv = deps.deep_view();
    let mut j: usize = 0;
    proof {
        assert(ddv.skip(0) =~= ddv);
        assert(out.deep_view() =~~= Seq::<Seq<u8>>::empty());
    }
    while j < deps.len()
        invariant
            j <= deps@.len(),
            doc.wf(),
            doc_valid(*doc),
            !has_cycle(*doc),
            ddv == deps.deep_view(),
            doc_target(*doc, name@) == Some(t_spec),
            t_spec.deps == *deps,
            chain2 == chain@.push(name@),
            chain2.no_duplicates(),
            chain2.len() == chain@.len() + 1,
            chain2.len() <= doc.targets@.len(),
            fuel == (doc.targets@.len() + 1 - chain@.len()) as nat,
            fuel2 == (fuel - 1) as nat,
            fuel >= 1,
            forall|i: int| 0 <= i < chain2.len() ==> is_target_name(*doc, #[trigger] chain2[i]),
            forall|i: int|
                0 <= i < chain2.len() - 1 ==> edge(*doc, #[trigger] chain2[i], chain2[i + 1]),
            chain2[chain2.len() - 1] == name@,
            deps_plan(*doc, ddv, fuel) =~~= out.deep_view() + deps_plan(
                *doc,
                ddv.skip(j as int),
                fuel,
            ),
        decreases deps@.len() - j,
    {
        proof {
            assert(ddv[j as int] =~= deps@[j as int]@);
            assert(deps.deep_view().contains(ddv[j as int]));
            assert(edge(*doc, name@, ddv[j as int]));
            assert(ddv.skip(j as int)[0] == ddv[j as int]);
            assert(ddv.skip(j as int).skip(1) =~= ddv.skip(j as int + 1));
        }
        let mut sub = plan_rec(doc, &deps[j], Ghost(chain2));
        proof {
            assert((doc.targets@.len() + 1 - chain2.len()) as nat == fuel2);
        }
        let ghost odv = out.deep_view();
        let ghost sdv = sub.deep_view();
        out.append(&mut sub);
        proof {
            assert(out.deep_view() =~~= odv + sdv);
        }
        j += 1;
    }
    proof {
        assert(ddv.skip(deps@.len() as int) =~= Seq::<Seq<u8>>::empty());
        assert(deps_plan(*doc, ddv, fuel) =~~= out.deep_view());
    }
    let ghost deps_dv = out.deep_view();
    proof {
        lemma_find_target_index(doc.targets@, name@);
        let i = choose|i: int|
            0 <= i < doc.targets@.len() && #[trigger] doc.targets@[i].0@ == name@
                && doc.targets@[i].1 == doc_target(*doc, name@).unwrap();
        assert(target_valid(doc.targets@[i].1));
        assert(target_valid(t_spec));
    }
    match &target.wildcards {
        Some(ws) => {
            let ghost sv = source_values(ws@);
            let mut lists: Vec<Vec<Vec<u8>>> = Vec::new();
            let mut k: usize = 0;
            while k < ws.len()
                invariant
                    k <= ws@.len(),
                    sv == source_values(ws@),
                    lists.deep_view() =~~= sv.take(k as int),
                    lists@.len() == k,
                decreases ws@.len() - k,
            {
                let ghost ldv = lists.deep_view();
                match &ws[k] {
                    crate::config::WildcardSource::Values(v) => {
                        lists.push(crate::vars::clone_bytes_list(v));
                        proof {
                            assert(sv[k as int] =~~= v.deep_view());
                            assert(lists.deep_view() =~~= ldv.push(sv[k as int]));
                        }
                    },
                    _ => {
                        lists.push(Vec::new());
                        proof {
                            assert(sv[k as int] =~~= Seq::<Seq<u8>>::empty());
                            assert(lists.deep_view() =~~= ldv.push(sv[k as int]));
                        }
                    },
                }
                proof {
                    assert(ldv.push(sv[k as int]) =~~= sv.take(k + 1));
                }
                k += 1;
            }
            proof {
                assert(sv.take(ws@.len() as int) =~~= sv);
                assert(lists.deep_view() == sv);
            }
            let cmdv = match &target.cmd {
                Some(c) => crate::vars::clone_bytes(c),
                None => Vec::new(),
            };
            proof {
                assert(cmdv@ =~= cmd_text(t_spec));
                assert(t_spec.wildcards == Some(*ws));
            }
            match crate::wildcard::expand_wildcards(&cmdv, &lists) {
                Ok(mut rows) => {
                    let ghost rdv = rows.deep_view();
                    proof {
                        assert(rdv == expand_rows(cmd_text(t_spec), sv, sv[0].len()));
                        assert(rdv == own_commands(t_spec));
                    }
                    out.append(&mut rows);
                    proof {
                        assert(out.deep_view() =~~= deps_dv + rdv);
                    }
                    out
                },
                Err(_) => {
                    proof {
                        assert(false);
                    }
                    out
                },
            }
        },
        None => {
            match &target.cmd {
                Some(c) => {
                    let cmd = crate::vars::clone_bytes(c);
                    let ghost cdv = cmd@;
                    out.push(cmd);
                    proof {
                        assert(out.deep_view() =~~= deps_dv + seq![cdv]);
                        assert(own_commands(t_spec) =~= seq![cdv]);
                    }
                },
                None => {
                    proof {
                        assert(own_commands(t_spec) =~= Seq::<Seq<u8>>::empty());
                        assert(out.deep_view() =~~= deps_dv
                            + Seq::<Seq<u8>>::empty());
                    }
                },
            }
            out
        },
    }
}

proof fn lemma_plan_fuel_stable(
    doc: Document,
    name: Seq<u8>,
    chain: Seq<Seq<u8>>,
    f1: nat,
    f2: nat,
)
    requires
        doc.wf(),
        !has_cycle(doc),
        chain.no_duplicates(),
        chain.len() <= doc.targets@.len(),
        forall|i: int| 0 <= i < chain.len() ==> is_target_name(doc, #[trigger] chain[i]),
        forall|i: int| 0 <= i < chain.len() - 1 ==> edge(doc, #[trigger] chain[i], chain[i + 1]),
        chain.len() > 0 ==> edge(doc, chain[chain.len() - 1], name),
        f1 >= doc.targets@.len() + 1 - chain.len(),
        f2 >= doc.targets@.len() + 1 - chain.len(),
    ensures
        plan_fuel(doc, name, f1) == plan_fuel(doc, name, f2),
    decreases doc.targets@.len() - chain.len(), 0nat, 0nat,
{
    match doc_target(doc, name) {
        None => {},
        Some(t) => {
            assert(is_target_name(doc, name));
            let chain2 = chain.push(name);
            lemma_chain_no_revisit(doc, chain, name);
            assert(chain2.no_duplicates());
            assert forall|i: int| 0 <= i < chain2.len() implies is_target_name(
                doc,
                #[trigger] chain2[i],
            ) by {
                if i < chain.len() {
                    assert(chain2[i] == chain[i]);
                }
            }
            lemma_chain_len(doc, chain2);
            assert forall|i: int| 0 <= i < chain2.len() - 1 implies edge(
                doc,
                #[trigger] chain2[i],
                chain2[i + 1],
            ) by {
                if i < chain.len() - 1 {
                    assert(chain2[i] == chain[i]);
                    assert(chain2[i + 1] == chain[i + 1]);
                } else {
                    assert(chain2[i] == chain[chain.len() - 1]);
                    assert(chain2[i + 1] == name);
                }
            }
            assert(chain2[chain2.len() - 1] == name);
            assert forall|k: int|
                0 <= k < t.deps.deep_view().len() implies edge(
                doc,
                chain2[chain2.len() - 1],
                #[trigger] t.deps.deep_view()[k],
            ) by {
                assert(t.deps.deep_view().contains(t.deps.deep_view()[k]));
            }
            lemma_deps_plan_stable(doc, t.deps.deep_view(), chain2, f1, f2);
        },
    }
}

proof fn lemma_deps_plan_stable(
    doc: Document,
    ds: Seq<Seq<u8>>,
    chain2: Seq<Seq<u8>>,
    f1: nat,
    f2: nat,
)
    requires
        doc.wf(),
        !has_cycle(doc),
        chain2.no_duplicates(),
        chain2.len() >= 1,
        chain2.len() <= doc.targets@.len(),
        forall|i: int| 0 <= i < chain2.len() ==> is_target_name(doc, #[trigger] chain2[i]),
        forall|i: int| 0 <= i < chain2.len() - 1 ==> edge(doc, #[trigger] chain2[i], chain2[i + 1]),
        forall|k: int|
            0 <= k < ds.len() ==> edge(doc, chain2[chain2.len() - 1], #[trigger] ds[k]),
        f1 >= doc.targets@.len() + 2 - chain2.len(),
        f2 >= doc.targets@.len() + 2 - chain2.len(),
    ensures
        deps_plan(doc, ds, f1) == deps_plan(doc, ds, f2),
    decreases doc.targets@.len() - chain2.len(), 1nat, ds.len(),
{
    if ds.len() == 0 {
    } else {
        assert(edge(doc, chain2[chain2.len() - 1], ds[0]));
        lemma_plan_fuel_stable(doc, ds[0], chain2, (f1 - 1) as nat, (f2 - 1) as nat);
        assert forall|k: int|
            0 <= k < ds.skip(1).len() implies edge(
            doc,
            chain2[chain2.len() - 1],
            #[trigger] ds.skip(1)[k],
        ) by {
            assert(ds.skip(1)[k] == ds[k + 1]);
        }
        lemma_deps_plan_stable(doc, ds.skip(1), chain2, f1, f2);
    }
}

/// The concatenated full plans of a list of names, in order.
pub open spec fn plans_of(doc: Document, ds: Seq<Seq<u8>>) -> Seq<Seq<u8>>
    decreases ds.len(),
{
    if ds.len() == 0 {
        Seq::<Seq<u8>>::empty()
    } else {
        plan_of(doc, ds[0]) + plans_of(doc, ds.skip(1))
    }
}

proof fn lemma_deps_plan_is_plans(doc: Document, ds: Seq<Seq<u8>>, name: Seq<u8>)
    requires
        doc.wf(),
        !has_cycle(doc),
        is_target_name(doc, name),
        forall|k: int| 0 <= k < ds.len() ==> edge(doc, name, #[trigger] ds[k]),
    ensures
        deps_plan(doc, ds, (doc.targets@.len() + 1) as nat) == plans_of(doc, ds),
    decreases ds.len(),
{
    let full = (doc.targets@.len() + 1) as nat;
    if ds.len() == 0 {
    } else {
        let chain = seq![name];
        assert(chain.no_duplicates());
        assert(chain[0] == name);
        assert(doc.targets@.len() >= 1) by {
            assert(doc_target(doc, name) is Some);
        }
        lemma_plan_fuel_stable(doc, ds[0], chain, (full - 1) as nat, full);
        assert(plan_fuel(doc, ds[0], (full - 1) as nat) == plan_of(doc, ds[0]));
        assert forall|k: int| 0 <= k < ds.skip(1).len() implies edge(
            doc,
            name,
            #[trigger] ds.skip(1)[k],
        ) by {
            assert(ds.skip(1)[k] == ds[k + 1]);
        }
        lemma_deps_plan_is_plans(doc, ds.skip(1), name);
    }
}

/// Execution order is depth-first pre-order over dependencies: the plan of a
/// target is the concatenation of its dependencies' whole plans, in declared
/// order, followed by the target's own commands.
pub proof fn lemma_plan_depth_first(doc: Document, name: Seq<u8>)
    requires
        doc.wf(),
        !has_cycle(doc),
        is_target_name(doc, name),
    ensures
        plan_of(doc, name) == plans_of(
            doc,
            doc_target(doc, name).unwrap().deps.deep_view(),
        ) + own_commands(doc_target(doc, name).unwrap()),
{
    let t = doc_target(doc, name).unwrap();
    let full = (doc.targets@.len() + 1) as nat;
    assert(full >= 1);
    assert(plan_fuel(doc, name, full) == deps_plan(doc, t.deps.deep_view(), full)
        + own_commands(t));
    assert forall|k: int|
        0 <= k < t.deps.deep_view().len() implies edge(
        doc,
        name,
        #[trigger] t.deps.deep_view()[k],
    ) by {
        assert(t.deps.deep_view().contains(t.deps.deep_view()[k]));
    }
    lemma_deps_plan_is_plans(doc, t.deps.deep_view(), name);
}

/// The ordered command list that running `name` executes: depth-first
/// pre-order over dependencies, each target's own commands after its
/// dependencies' plans. Computed whole before anything runs.
pub fn execution_plan(doc: &Document, name: &Vec<u8>) -> (r: Vec<Vec<u8>>)
    requires
        doc.wf(),
        doc_valid(*doc),
        !has_cycle(*doc),
    ensures
        r.deep_view() == plan_of(*doc, name@),
{
    let r = plan_rec(doc, name, Ghost(Seq::<Seq<u8>>::empty()));
    r
}

/// Walks a plan front to back, one command at a time. The caller hands each
/// yielded command to the shell, waits, and reports the outcome; a failure
/// is final, and no later command is ever yielded.
pub struct Runner {
    /// The commands, in execution order.
    pub plan: Vec<Vec<u8>>,
    /// How many commands have completed successfully.
    pub next: usize,
    /// Whether a command has failed.
    pub failed: bool,
}

impl Runner {
    /// The position never passes the end of the plan.
    pub open spec fn wf(self) -> bool {
        self.next <= self.plan@.len()
    }

    /// The command to run now: none once the plan is done or a command has
    /// failed.
    pub open spec fn spec_current(self) -> Option<Seq<u8>> {
        if self.failed || self.next >= self.plan@.len() {
            None
        } else {
            Some(self.plan.deep_view()[self.next as int])
        }
    }

    /// Start at the front of the plan.
    pub fn new(plan: Vec<Vec<u8>>) -> (r: Runner)
        ensures
            r.plan == plan,
            r.next == 0,
            !r.failed,
            r.wf(),
    {
        Runner { plan, next: 0, failed: false }
    }

    /// The command to hand to the shell now, if any.
    pub fn current(&self) -> (r: Option<Vec<u8>>)
        requires
            self.wf(),
        ensures
            match r {
                Some(c) => self.spec_current() == Some(c@),
                None => self.spec_current() is None,
            },
    {
        if self.failed || self.next >= self.plan.len() {
            None
        } else {
            proof {
                assert(self.plan.deep_view()[self.next as int] =~= self.plan@[
                    self.next as int
                ]@);
            }
            Some(crate::vars::clone_bytes(&self.plan[self.next]))
        }
    }

    /// Record the exit of the command last handed out: success advances to
    /// the next command; failure is final and stops the walk.
    pub fn report(&mut self, success: bool)
        requires
            old(self).wf(),
            old(self).spec_current() is Some,
        ensures
            final(self).wf(),
            final(self).plan == old(self).plan,
            success ==> final(self).next == old(self).next + 1 && final(self).failed == old(
                self,
            ).failed,
            !success ==> final(self).failed && final(self).spec_current() is None,
    {
        if success {
            let n = self.plan.len();
            assert(self.next < n);
            self.next = self.next + 1;
        } else {
            self.failed = true;
        }
    }
}

/// Failure propagation: once a command has failed, the runner never yields
/// another command, so nothing later in the plan — a later sibling
/// dependency or the target's own command — executes.
pub proof fn lemma_failure_halts(r: Runner)
    requires
        r.failed,
    ensures
        r.spec_current() is None,
{
}

} // verus!
