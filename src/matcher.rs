//! The layout matcher: which native records are sealed by their scripted struct.
use vstd::prelude::*;
use crate::catalog::{catalog_get, catalog_outcome, get_name, item_name, StructCatalog};
use crate::layout::{is_sealed_layout, layout_sealed};
use crate::model::{aligned_props, AuditError, Bundle, BundleItem, Definition, NativeType, TypeRegistry};
use crate::order::{insert_name, name_set, strictly_sorted, views};

verus! {

/// The script name of the native type `name`: its entry in the translation
/// map (the latest one wins), or the name itself.
pub open spec fn translate(map: Seq<(String, String)>, name: Seq<char>) -> Seq<char>
    decreases map.len(),
{
    if map.len() == 0 {
        name
    } else if map.last().0@ == name {
        map.last().1@
    } else {
        translate(map.drop_last(), name)
    }
}

/// The names of the field items `fields`, in order; or the error for the first
/// field whose item or name does not resolve.
pub open spec fn fields_outcome(items: Seq<BundleItem>, fields: Seq<u32>) -> Result<Seq<Seq<char>>, AuditError>
    decreases fields.len(),
{
    if fields.len() == 0 {
        Ok(Seq::empty())
    } else {
        match fields_outcome(items, fields.drop_last()) {
            Err(e) => Err(e),
            Ok(names) => {
                let f = fields.last();
                if (f as int) < items.len() {
                    match items[f as int] {
                        BundleItem::Field { name } => match item_name(items, name) {
                            Some(n) => Ok(names.push(n)),
                            None => Err(AuditError::MissingFieldName(name)),
                        },
                        _ => Err(AuditError::MissingField(f)),
                    }
                } else {
                    Err(AuditError::MissingField(f))
                }
            },
        }
    }
}

/// What the native type `ty`, registered as `name`, adds to the result: the
/// script name under which it is sealed, nothing, or the error met on the way.
/// Only classes without a base type that are not scripted structs themselves
/// and whose script name is in the catalog are looked at.
pub open spec fn entry_outcome(
    bundle: Bundle,
    catalog: Seq<(Seq<char>, int)>,
    translation: Seq<(String, String)>,
    name: Seq<char>,
    ty: NativeType,
) -> Result<Option<Seq<char>>, AuditError> {
    match ty {
        NativeType::Class(c) => if c.base is Some || c.is_scripted_struct {
            Ok(None)
        } else {
            let sname = translate(translation, name);
            match catalog_get(catalog, sname) {
                None => Ok(None),
                Some(d) => if 0 <= d < bundle.definitions@.len() {
                    match bundle.definitions@[d] {
                        Definition::Class(cd) => match fields_outcome(bundle.items@, cd.fields@) {
                            Err(e) => Err(e),
                            Ok(fnames) => if layout_sealed(fnames, c.properties@) {
                                Ok(Some(sname))
                            } else {
                                Ok(None)
                            },
                        },
                        Definition::Other => Ok(None),
                    }
                } else {
                    Ok(None)
                },
            }
        },
        NativeType::Other => Ok(None),
    }
}

/// The set of sealed script names over the registry entries `types`, taken in
/// order; or the first error met.
pub open spec fn matcher_outcome(
    bundle: Bundle,
    catalog: Seq<(Seq<char>, int)>,
    translation: Seq<(String, String)>,
    types: Seq<(String, NativeType)>,
) -> Result<Set<Seq<char>>, AuditError>
    decreases types.len(),
{
    if types.len() == 0 {
        Ok(Set::empty())
    } else {
        match matcher_outcome(bundle, catalog, translation, types.drop_last()) {
            Err(e) => Err(e),
            Ok(set) => match entry_outcome(bundle, catalog, translation, types.last().0@, types.last().1) {
                Err(e) => Err(e),
                Ok(Some(n)) => Ok(set.insert(n)),
                Ok(None) => Ok(set),
            },
        }
    }
}

/// Every property of every class of the registry has an alignment of at least 1.
pub open spec fn registry_wf(types: Seq<(String, NativeType)>) -> bool {
    forall|i: int| 0 <= i < types.len() ==> match #[trigger] types[i].1 {
        NativeType::Class(c) => aligned_props(c.properties@),
        NativeType::Other => true,
    }
}

/// The script name of the native type `name`.
pub fn script_name(map: &Vec<(String, String)>, name: &String) -> (r: String)
    ensures
        r@ == translate(map@, name@),
{
    let mut r = name.clone();
    let mut i: usize = 0;
    assert(map@.take(0) =~= Seq::<(String, String)>::empty());
    while i < map.len()
        invariant
            i <= map@.len(),
            r@ == translate(map@.take(i as int), name@),
        decreases map.len() - i,
    {
        assert(map@.take(i as int + 1).drop_last() =~= map@.take(i as int));
        assert(map@.take(i as int + 1).last() == map@[i as int]);
        if map[i].0 == *name {
            r = map[i].1.clone();
        }
        i = i + 1;
    }
    assert(map@.take(map@.len() as int) =~= map@);
    r
}

proof fn lemma_fields_error_stays(items: Seq<BundleItem>, fields: Seq<u32>, n: int)
    requires
        0 < n <= fields.len(),
        fields_outcome(items, fields.take(n)) is Err,
    ensures
        fields_outcome(items, fields) == fields_outcome(items, fields.take(n)),
    decreases fields.len() - n,
{
    if n < fields.len() {
        assert(fields.take(n + 1).drop_last() =~= fields.take(n));
        lemma_fields_error_stays(items, fields, n + 1);
    } else {
        assert(fields.take(n) =~= fields);
    }
}

/// The names of the field items `fields`.
pub fn field_names(items: &Vec<BundleItem>, fields: &Vec<u32>) -> (r: Result<Vec<String>, AuditError>)
    ensures
        match r {
            Ok(v) => fields_outcome(items@, fields@) == Ok::<_, AuditError>(views(v@)),
            Err(e) => fields_outcome(items@, fields@) == Err::<Seq<Seq<char>>, _>(e),
        },
{
    let mut names: Vec<String> = Vec::new();
    let mut i: usize = 0;
    assert(fields@.take(0) =~= Seq::<u32>::empty());
    assert(views(names@) =~= Seq::<Seq<char>>::empty());
    while i < fields.len()
        invariant
            i <= fields@.len(),
            fields_outcome(items@, fields@.take(i as int)) == Ok::<_, AuditError>(views(names@)),
        decreases fields.len() - i,
    {
        assert(fields@.take(i as int + 1).drop_last() =~= fields@.take(i as int));
        assert(fields@.take(i as int + 1).last() == fields@[i as int]);
        let f = fields[i];
        let mut err: Option<AuditError> = None;
        if (f as usize) < items.len() {
            match &items[f as usize] {
                BundleItem::Field { name } => match get_name(items, *name) {
                    Some(s) => {
                        let ghost before = views(names@);
                        names.push(s.clone());
                        assert(views(names@) =~= before.push(s@));
                    },
                    None => {
                        err = Some(AuditError::MissingFieldName(*name));
                    },
                },
                _ => {
                    err = Some(AuditError::MissingField(f));
                },
            }
        } else {
            err = Some(AuditError::MissingField(f));
        }
        if let Some(e) = err {
            proof {
                assert(fields_outcome(items@, fields@.take(i as int + 1)) == Err::<Seq<Seq<char>>, AuditError>(e));
                lemma_fields_error_stays(items@, fields@, i as int + 1);
            }
            return Err(e);
        }
        i = i + 1;
    }
    assert(fields@.take(fields@.len() as int) =~= fields@);
    Ok(names)
}

/// What the native type `ty`, registered as `name`, adds to the result.
pub fn check_entry(
    bundle: &Bundle,
    catalog: &StructCatalog,
    translation: &Vec<(String, String)>,
    name: &String,
    ty: &NativeType,
) -> (r: Result<Option<String>, AuditError>)
    requires
        match ty {
            NativeType::Class(c) => aligned_props(c.properties@),
            NativeType::Other => true,
        },
    ensures
        entry_outcome(*bundle, catalog@, translation@, name@, *ty) == match r {
            Ok(Some(s)) => Ok::<_, AuditError>(Some(s@)),
            Ok(None) => Ok(None),
            Err(e) => Err(e),
        },
{
    match ty {
        NativeType::Class(c) => {
            if c.base.is_some() || c.is_scripted_struct {
                return Ok(None);
            }
            let sname = script_name(translation, name);
            match catalog.lookup(&sname) {
                None => Ok(None),
                Some(d) => {
                    if d < bundle.definitions.len() {
                        match &bundle.definitions[d] {
                            Definition::Class(cd) => match field_names(&bundle.items, &cd.fields) {
                                Err(e) => Err(e),
                                Ok(fnames) => {
                                    if is_sealed_layout(&fnames, &c.properties) {
                                        Ok(Some(sname))
                                    } else {
                                        Ok(None)
                                    }
                                },
                            },
                            Definition::Other => Ok(None),
                        }
                    } else {
                        Ok(None)
                    }
                },
            }
        },
        NativeType::Other => Ok(None),
    }
}

proof fn lemma_matcher_error_stays(
    bundle: Bundle,
    catalog: Seq<(Seq<char>, int)>,
    translation: Seq<(String, String)>,
    types: Seq<(String, NativeType)>,
    n: int,
)
    requires
        0 < n <= types.len(),
        matcher_outcome(bundle, catalog, translation, types.take(n)) is Err,
    ensures
        matcher_outcome(bundle, catalog, translation, types)
            == matcher_outcome(bundle, catalog, translation, types.take(n)),
    decreases types.len() - n,
{
    if n < types.len() {
        assert(types.take(n + 1).drop_last() =~= types.take(n));
        lemma_matcher_error_stays(bundle, catalog, translation, types, n + 1);
    } else {
        assert(types.take(n) =~= types);
    }
}

/// The script names of the native types of `registry` that are sealed against
/// the struct catalog of `bundle`, in strictly increasing order.
pub fn find_sealed(bundle: &Bundle, catalog: &StructCatalog, registry: &TypeRegistry) -> (r: Result<Vec<String>, AuditError>)
    requires
        registry_wf(registry.types@),
    ensures
        match r {
            Ok(v) => strictly_sorted(views(v@)) && matcher_outcome(
                *bundle,
                catalog@,
                registry.native_to_script@,
                registry.types@,
            ) == Ok::<_, AuditError>(name_set(views(v@))),
            Err(e) => matcher_outcome(*bundle, catalog@, registry.native_to_script@, registry.types@)
                == Err::<Set<Seq<char>>, _>(e),
        },
{
    let mut names: Vec<String> = Vec::new();
    let mut i: usize = 0;
    assert(registry.types@.take(0) =~= Seq::<(String, NativeType)>::empty());
    assert(name_set(views(names@)) =~= Set::<Seq<char>>::empty());
    while i < registry.types.len()
        invariant
            i <= registry.types@.len(),
            registry_wf(registry.types@),
            strictly_sorted(views(names@)),
            matcher_outcome(*bundle, catalog@, registry.native_to_script@, registry.types@.take(i as int))
                == Ok::<_, AuditError>(name_set(views(names@))),
        decreases registry.types.len() - i,
    {
        let ghost prefix = registry.types@.take(i as int + 1);
        assert(prefix.drop_last() =~= registry.types@.take(i as int));
        assert(prefix.last() == registry.types@[i as int]);
        let entry = &registry.types[i];
        match check_entry(bundle, catalog, &registry.native_to_script, &entry.0, &entry.1) {
            Err(e) => {
                proof {
                    lemma_matcher_error_stays(*bundle, catalog@, registry.native_to_script@, registry.types@, i as int + 1);
                }
                return Err(e);
            },
            Ok(Some(s)) => {
                insert_name(&mut names, s);
            },
            Ok(None) => {},
        }
        i = i + 1;
    }
    assert(registry.types@.take(registry.types@.len() as int) =~= registry.types@);
    Ok(names)
}

/// The whole audit: builds the struct catalog of `bundle`, then finds the
/// sealed script names among the native types of `registry`.
pub open spec fn audit_outcome(bundle: Bundle, registry: TypeRegistry) -> Result<Set<Seq<char>>, AuditError> {
    match catalog_outcome(bundle.items@, bundle.definitions@) {
        Err(e) => Err(e),
        Ok(cat) => matcher_outcome(bundle, cat, registry.native_to_script@, registry.types@),
    }
}

} // verus!
