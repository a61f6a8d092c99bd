//! The typed configuration document.
//!
//! A document holds global variables and named targets; a target holds an
//! optional command template, dependency names in declared order, local
//! variables and optional wildcard sources. Target names are unique; lookup
//! takes the first pair with the name.
//!
//! A wildcard source written as a `!`-prefixed string is a shell command
//! whose output supplies the value list; one written as a list is literal.
//! Any other string shape is malformed: it draws a warning when the document
//! is resolved and is rejected before anything runs if its target is
//! validated for execution.

use vstd::prelude::*;
use crate::wildcard::{count_occ, marker, source_len_ok};

verus! {

/// One wildcard source of a target.
pub enum WildcardSource {
    /// A `!`-prefixed string: the shell command after the `!`; the trimmed
    /// output's lines become the value list.
    Shell(Vec<u8>),
    /// A literal value list.
    Values(Vec<Vec<u8>>),
    /// A plain string without `!`: an invalid shape.
    Malformed(Vec<u8>),
}

/// A named unit of work.
pub struct Target {
    /// The command template, if any.
    pub cmd: Option<Vec<u8>>,
    /// Names of the targets to run first, in declared order.
    pub deps: Vec<Vec<u8>>,
    /// Local variables, overriding global ones for this target.
    pub vars: Vec<(Vec<u8>, Vec<u8>)>,
    /// Wildcard sources, if the `wildcards` key is present.
    pub wildcards: Option<Vec<WildcardSource>>,
}

/// A whole configuration: global variables and the targets table.
pub struct Document {
    /// Global variables.
    pub vars: Vec<(Vec<u8>, Vec<u8>)>,
    /// The targets, each under its name, in document order.
    pub targets: Vec<(Vec<u8>, Target)>,
}

impl Document {
    /// The target names in document order.
    pub open spec fn names(self) -> Seq<Seq<u8>> {
        self.targets@.map_values(|p: (Vec<u8>, Target)| p.0@)
    }

    /// Well-formed: no two targets share a name.
    pub open spec fn wf(self) -> bool {
        self.names().no_duplicates()
    }
}

/// The first target of the list carrying `name`.
pub open spec fn find_target_spec(ts: Seq<(Vec<u8>, Target)>, name: Seq<u8>) -> Option<Target>
    decreases ts.len(),
{
    if ts.len() == 0 {
        None
    } else if ts[0].0@ == name {
        Some(ts[0].1)
    } else {
        find_target_spec(ts.skip(1), name)
    }
}

/// The target of `doc` named `name`, if any.
pub open spec fn doc_target(doc: Document, name: Seq<u8>) -> Option<Target> {
    find_target_spec(doc.targets@, name)
}

/// Whether `name` names a target of `doc`.
pub open spec fn is_target_name(doc: Document, name: Seq<u8>) -> bool {
    doc_target(doc, name) is Some
}

pub proof fn lemma_find_target_name(ts: Seq<(Vec<u8>, Target)>, name: Seq<u8>)
    ensures
        (find_target_spec(ts, name) is Some) <==> ts.map_values(
            |p: (Vec<u8>, Target)| p.0@,
        ).contains(name),
    decreases ts.len(),
{
    let names = ts.map_values(|p: (Vec<u8>, Target)| p.0@);
    if ts.len() == 0 {
        assert(!names.contains(name));
    } else {
        lemma_find_target_name(ts.skip(1), name);
        assert(ts.skip(1).map_values(|p: (Vec<u8>, Target)| p.0@) =~= names.skip(1));
        if ts[0].0@ == name {
            assert(names[0] == name);
            assert(names.contains(name));
        } else {
            if names.contains(name) {
                let i = choose|i: int| 0 <= i < names.len() && names[i] == name;
                assert(i > 0);
                assert(names.skip(1)[i - 1] == name);
                assert(names.skip(1).contains(name));
            }
            if names.skip(1).contains(name) {
                let i = choose|i: int| 0 <= i < names.skip(1).len() && names.skip(1)[i] == name;
                assert(names[i + 1] == name);
                assert(names.contains(name));
            }
        }
    }
}

/// A found target stands at some index of the table, under its name.
pub proof fn lemma_find_target_index(ts: Seq<(Vec<u8>, Target)>, name: Seq<u8>)
    requires
        find_target_spec(ts, name) is Some,
    ensures
        exists|i: int|
            0 <= i < ts.len() && #[trigger] ts[i].0@ == name && ts[i].1 == find_target_spec(
                ts,
                name,
            ).unwrap(),
    decreases ts.len(),
{
    if ts.len() == 0 {
    } else if ts[0].0@ == name {
        assert(ts[0].0@ == name && ts[0].1 == find_target_spec(ts, name).unwrap());
    } else {
        lemma_find_target_index(ts.skip(1), name);
        let i = choose|i: int|
            0 <= i < ts.skip(1).len() && #[trigger] ts.skip(1)[i].0@ == name && ts.skip(1)[i].1
                == find_target_spec(ts.skip(1), name).unwrap();
        assert(ts[i + 1].0@ == name && ts[i + 1].1 == find_target_spec(ts, name).unwrap());
    }
}

proof fn lemma_find_target_agree(ts: Seq<(Vec<u8>, Target)>, name: Seq<u8>, upto: int)
    requires
        0 <= upto <= ts.len(),
        forall|j: int| 0 <= j < upto ==> ts[j].0@ != name,
    ensures
        find_target_spec(ts, name) == find_target_spec(ts.skip(upto), name),
    decreases upto,
{
    if upto > 0 {
        lemma_find_target_agree(ts.skip(1), name, upto - 1);
        assert(ts.skip(1).skip(upto - 1) =~= ts.skip(upto));
    } else {
        assert(ts.skip(0) =~= ts);
    }
}

/// Look a target up by name.
pub fn find_target<'a>(doc: &'a Document, name: &Vec<u8>) -> (r: Option<&'a Target>)
    ensures
        match r {
            Some(t) => doc_target(*doc, name@) == Some(*t),
            None => doc_target(*doc, name@) is None,
        },
{
    let n = doc.targets.len();
    let mut i: usize = 0;
    while i < n
        invariant
            i <= n,
            n == doc.targets@.len(),
            forall|j: int| 0 <= j < i ==> doc.targets@[j].0@ != name@,
        decreases n - i,
    {
        if crate::bytes::bytes_eq(&doc.targets[i].0, name) {
            proof {
                lemma_find_target_agree(doc.targets@, name@, i as int);
                assert(doc.targets@.skip(i as int)[0] == doc.targets@[i as int]);
            }
            return Some(&doc.targets[i].1);
        }
        i += 1;
    }
    proof {
        lemma_find_target_agree(doc.targets@, name@, n as int);
        assert(doc.targets@.skip(n as int) =~= Seq::<(Vec<u8>, Target)>::empty());
    }
    None
}

/// Whether the document is well-formed: no two targets share a name.
pub fn is_well_formed(doc: &Document) -> (r: bool)
    ensures
        r == doc.wf(),
{
    let n = doc.targets.len();
    let mut i: usize = 0;
    while i < n
        invariant
            i <= n,
            n == doc.targets@.len(),
            forall|p: int, q: int|
                0 <= p < q < n && p < i ==> doc.names()[p] != doc.names()[q],
        decreases n - i,
    {
        let mut j: usize = i + 1;
        while j < n
            invariant
                i < j <= n,
                n == doc.targets@.len(),
                forall|q: int| i < q < j ==> doc.names()[i as int] != doc.names()[q],
            decreases n - j,
        {
            if crate::bytes::bytes_eq(&doc.targets[i].0, &doc.targets[j].0) {
                assert(doc.names()[i as int] == doc.names()[j as int]);
                return false;
            }
            j += 1;
        }
        i += 1;
    }
    true
}

/// Classify a wildcard source written as a plain string: a `!`-prefixed one
/// is a shell command, the prefix dropped; any other string is malformed and
/// kept for the warning.
pub fn classify_wildcard_string(s: Vec<u8>) -> (r: WildcardSource)
    ensures
        crate::subst::is_shell_value(s@) ==> (r matches WildcardSource::Shell(c) && c@
            == crate::subst::shell_cmd_text(s@)),
        !crate::subst::is_shell_value(s@) ==> (r matches WildcardSource::Malformed(m) && m@
            == s@),
{
    if s.len() > 0 && s[0] == crate::subst::BANG {
        let cmd = crate::bytes::copy_range(&s, 1, s.len());
        WildcardSource::Shell(cmd)
    } else {
        WildcardSource::Malformed(s)
    }
}

/// The template text a target expands: its `cmd`, or empty if absent.
pub open spec fn cmd_text(t: Target) -> Seq<u8> {
    match t.cmd {
        Some(c) => c@,
        None => Seq::<u8>::empty(),
    }
}

/// The value lists of a target's wildcard sources. Only a literal list
/// carries values here; a still-unresolved or malformed source counts as an
/// empty list, and validation rejects it.
pub open spec fn source_values(ws: Seq<WildcardSource>) -> Seq<Seq<Seq<u8>>> {
    ws.map_values(
        |s: WildcardSource|
            match s {
                WildcardSource::Values(v) => v.deep_view(),
                _ => Seq::<Seq<u8>>::empty(),
            },
    )
}

/// Whether every wildcard source of the list is a resolved literal list.
pub open spec fn all_values(ws: Seq<WildcardSource>) -> bool {
    forall|i: int| 0 <= i < ws.len() ==> ws[i] is Values
}

/// A target fit for execution: if it has wildcards, every source is a
/// resolved list, the `@@` markers match the sources in number, at least one
/// source exists, and all value lists share one length.
pub open spec fn target_valid(t: Target) -> bool {
    match t.wildcards {
        Some(ws) => {
            &&& all_values(ws@)
            &&& count_occ(cmd_text(t), marker()) == ws@.len()
            &&& ws@.len() > 0
            &&& source_len_ok(source_values(ws@))
        },
        None => true,
    }
}

/// Every target of the document is fit for execution.
pub open spec fn doc_valid(doc: Document) -> bool {
    forall|i: int| 0 <= i < doc.targets@.len() ==> #[trigger] target_valid(doc.targets@[i].1)
}

/// Why a target was rejected before execution.
#[derive(Clone, Copy, Debug, PartialEq, Eq, Structural)]
pub enum ValidationError {
    /// A wildcard source is neither a `!`-prefixed string nor a list, or is
    /// still unresolved.
    MalformedSource,
    /// The `@@` markers and the wildcard sources differ in number.
    CountMismatch,
    /// A `wildcards` key is present but names no source.
    NoSources,
    /// The value lists differ in length.
    RowMismatch,
}

/// Check one target for execution: with wildcards present, every source must
/// be a resolved list, the marker count must equal the source count, at
/// least one source must exist, and all value lists must share one length.
pub fn validate_target(t: &Target) -> (r: Result<(), ValidationError>)
    ensures
        r is Ok <==> target_valid(*t),
{
    let ws = match &t.wildcards {
        Some(ws) => ws,
        None => {
            return Ok(());
        },
    };
    proof {
        assert(t.wildcards == Some(*ws));
    }
    let ghost sv = source_values(ws@);
    let mut i: usize = 0;
    while i < ws.len()
        invariant
            i <= ws@.len(),
            t.wildcards == Some(*ws),
            forall|j: int| 0 <= j < i ==> ws@[j] is Values,
        decreases ws@.len() - i,
    {
        match &ws[i] {
            WildcardSource::Values(_) => {},
            _ => {
                proof {
                    assert(!(ws@[i as int] is Values));
                    assert(!all_values(ws@));
                }
                return Err(ValidationError::MalformedSource);
            },
        }
        i += 1;
    }
    let count = match &t.cmd {
        Some(c) => crate::wildcard::count_markers(c),
        None => {
            proof {
                assert(count_occ(Seq::<u8>::empty(), marker()) == 0);
            }
            0
        },
    };
    if count != ws.len() {
        return Err(ValidationError::CountMismatch);
    }
    if ws.len() == 0 {
        return Err(ValidationError::NoSources);
    }
    let first_len = match &ws[0] {
        WildcardSource::Values(v) => v.len(),
        _ => 0,
    };
    proof {
        assert(sv[0].len() == first_len);
    }
    let mut k: usize = 1;
    while k < ws.len()
        invariant
            1 <= k <= ws@.len(),
            t.wildcards == Some(*ws),
            sv == source_values(ws@),
            all_values(ws@),
            first_len == sv[0].len(),
            forall|j: int| 0 <= j < k ==> #[trigger] sv[j].len() == sv[0].len(),
        decreases ws@.len() - k,
    {
        let len_k = match &ws[k] {
            WildcardSource::Values(v) => v.len(),
            _ => 0,
        };
        proof {
            assert(sv[k as int].len() == len_k);
        }
        if len_k != first_len {
            proof {
                assert(sv[k as int].len() != sv[0].len());
                assert(!source_len_ok(sv));
            }
            return Err(ValidationError::RowMismatch);
        }
        k += 1;
    }
    Ok(())
}

/// Check every target of a well-formed document, as the pre-execution
/// validation pass: nothing may run for a document with an invalid target.
/// An error names the offending target.
pub fn validate_document(doc: &Document) -> (r: Result<(), (Vec<u8>, ValidationError)>)
    requires
        doc.wf(),
    ensures
        r is Ok <==> doc_valid(*doc),
        match r {
            Ok(()) => true,
            Err(e) => is_target_name(*doc, e.0@) && !target_valid(
                doc_target(*doc, e.0@).unwrap(),
            ),
        },
{
    let n = doc.targets.len();
    let mut i: usize = 0;
    while i < n
        invariant
            i <= n,
            n == doc.targets@.len(),
            doc.wf(),
            forall|j: int| 0 <= j < i ==> #[trigger] target_valid(doc.targets@[j].1),
        decreases n - i,
    {
        match validate_target(&doc.targets[i].1) {
            Ok(()) => {},
            Err(e) => {
                proof {
                    assert forall|j: int| 0 <= j < i implies doc.targets@[j].0@ != doc.targets@[
                        i as int
                    ].0@ by {
                        assert(doc.names()[j] == doc.targets@[j].0@);
                        assert(doc.names()[i as int] == doc.targets@[i as int].0@);
                    }
                    lemma_find_target_agree(doc.targets@, doc.targets@[i as int].0@, i as int);
                    assert(doc.targets@.skip(i as int)[0] == doc.targets@[i as int]);
                }
                return Err((crate::vars::clone_bytes(&doc.targets[i].0), e));
            },
        }
        i += 1;
    }
    Ok(())
}

} // verus!
