//! The audit as one call, its text output, and the laws it obeys.
use vstd::prelude::*;
use vstd::string::StringExecFns;
use crate::catalog::StructCatalog;
use crate::matcher::{audit_outcome, entry_outcome, find_sealed, matcher_outcome, registry_wf};
use crate::model::{AuditError, Bundle, NativeType, TypeRegistry};
use crate::order::{lemma_name_irreflexive, lemma_sorted_names_unique, name_set, strictly_sorted, views};

verus! {

/// The sealed struct audit.
pub struct DumperPlugin;

/// The text that lists `names`, one per line, each line ended by a newline.
pub open spec fn lines(names: Seq<Seq<char>>) -> Seq<char>
    decreases names.len(),
{
    if names.len() == 0 {
        Seq::empty()
    } else {
        lines(names.drop_last()) + names.last() + seq!['\n']
    }
}

impl DumperPlugin {
    /// Runs the audit of `registry` against the structs of `bundle`: the
    /// sealed script names in strictly increasing order, or the first
    /// reference into the bundle that does not resolve.
    pub fn run(bundle: &Bundle, registry: &TypeRegistry) -> (r: Result<Vec<String>, AuditError>)
        requires
            registry_wf(registry.types@),
        ensures
            match r {
                Ok(v) => strictly_sorted(views(v@)) && audit_outcome(*bundle, *registry)
                    == Ok::<_, AuditError>(name_set(views(v@))),
                Err(e) => audit_outcome(*bundle, *registry) == Err::<Set<Seq<char>>, _>(e),
            },
    {
        let catalog = StructCatalog::build(bundle)?;
        find_sealed(bundle, &catalog, registry)
    }

    /// The output text for `names`: one name per line.
    pub fn render(names: &Vec<String>) -> (r: String)
        ensures
            r@ == lines(views(names@)),
    {
        let mut out = String::new();
        let mut i: usize = 0;
        let nl = "\n";
        proof {
            reveal_strlit("\n");
        }
        assert(views(names@).take(0) =~= Seq::<Seq<char>>::empty());
        while i < names.len()
            invariant
                i <= names@.len(),
                nl@ == seq!['\n'],
                out@ == lines(views(names@).take(i as int)),
            decreases names.len() - i,
        {
            assert(views(names@).take(i as int + 1).drop_last() =~= views(names@).take(i as int));
            out.append(names[i].as_str());
            out.append(nl);
            i = i + 1;
        }
        assert(views(names@).take(names@.len() as int) =~= views(names@));
        out
    }
}

/// Running the audit twice on the same bundle and registry gives the same
/// names in the same order, and so the same output text.
pub proof fn lemma_audit_idempotent(
    bundle: Bundle,
    registry: TypeRegistry,
    first: Seq<Seq<char>>,
    second: Seq<Seq<char>>,
)
    requires
        strictly_sorted(first),
        strictly_sorted(second),
        audit_outcome(bundle, registry) == Ok::<_, AuditError>(name_set(first)),
        audit_outcome(bundle, registry) == Ok::<_, AuditError>(name_set(second)),
    ensures
        first == second,
        lines(first) == lines(second),
{
    lemma_sorted_names_unique(first, second);
}

/// A strictly sorted list of names holds each name once.
pub proof fn lemma_sorted_no_duplicates(names: Seq<Seq<char>>)
    requires
        strictly_sorted(names),
    ensures
        names.no_duplicates(),
{
    assert forall|i: int, j: int| 0 <= i < names.len() && 0 <= j < names.len() && i != j
        implies names[i] != names[j] by {
        lemma_name_irreflexive(names[i]);
        if i < j {
            assert(crate::order::name_lt(names[i], names[j]));
        } else {
            assert(crate::order::name_lt(names[j], names[i]));
        }
    }
}

/// A native class with no base type that is not itself a scripted struct.
pub open spec fn standalone_class(ty: NativeType) -> bool {
    match ty {
        NativeType::Class(c) => c.base is None && !c.is_scripted_struct,
        NativeType::Other => false,
    }
}

/// A native class with a base type, or one that is itself a scripted struct,
/// adds nothing to the result.
pub proof fn lemma_skipped_class_adds_nothing(
    bundle: Bundle,
    catalog: Seq<(Seq<char>, int)>,
    translation: Seq<(String, String)>,
    name: Seq<char>,
    ty: NativeType,
)
    requires
        ty is Class,
        !standalone_class(ty),
    ensures
        entry_outcome(bundle, catalog, translation, name, ty) == Ok::<_, AuditError>(None::<Seq<char>>),
{
}

/// Every name in the result is reported for some native class that has no
/// base type and is not a scripted struct.
pub proof fn lemma_result_from_eligible_class(
    bundle: Bundle,
    catalog: Seq<(Seq<char>, int)>,
    translation: Seq<(String, String)>,
    types: Seq<(String, NativeType)>,
    n: Seq<char>,
)
    requires
        matcher_outcome(bundle, catalog, translation, types) matches Ok(set) && set.contains(n),
    ensures
        exists|i: int|
            0 <= i < types.len() && standalone_class((#[trigger] types[i]).1)
                && entry_outcome(bundle, catalog, translation, types[i].0@, types[i].1)
                == Ok::<_, AuditError>(Some(n)),
    decreases types.len(),
{
    let prev = types.drop_last();
    let last = types.last();
    let here = entry_outcome(bundle, catalog, translation, last.0@, last.1);
    if here == Ok::<_, AuditError>(Some(n)) {
        assert(types[types.len() - 1] == last);
    } else {
        lemma_result_from_eligible_class(bundle, catalog, translation, prev, n);
        let i = choose|i: int|
            0 <= i < prev.len() && standalone_class((#[trigger] prev[i]).1)
                && entry_outcome(bundle, catalog, translation, prev[i].0@, prev[i].1)
                == Ok::<_, AuditError>(Some(n));
        assert(types[i] == prev[i]);
    }
}

} // verus!
