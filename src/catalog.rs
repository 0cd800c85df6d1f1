//! The struct catalog: scripted struct names, each with its definition.
use vstd::prelude::*;
use crate::model::{AuditError, Bundle, BundleItem, Definition};

verus! {

/// The text of the name item at `idx`, if there is one.
pub open spec fn item_name(items: Seq<BundleItem>, idx: u32) -> Option<Seq<char>> {
    if (idx as int) < items.len() {
        match items[idx as int] {
            BundleItem::Name(s) => Some(s@),
            _ => None,
        }
    } else {
        None
    }
}

/// The catalog that a single pass over `defs` builds: one entry, in order, for
/// each struct definition, with its name and its index; or the error for the
/// first struct whose name does not resolve.
pub open spec fn catalog_outcome(items: Seq<BundleItem>, defs: Seq<Definition>) -> Result<Seq<(Seq<char>, int)>, AuditError>
    decreases defs.len(),
{
    if defs.len() == 0 {
        Ok(Seq::empty())
    } else {
        match catalog_outcome(items, defs.drop_last()) {
            Err(e) => Err(e),
            Ok(entries) => match defs.last() {
                Definition::Class(c) => if c.is_struct {
                    match item_name(items, c.name) {
                        Some(n) => Ok(entries.push((n, defs.len() - 1))),
                        None => Err(AuditError::MissingStructName(c.name)),
                    }
                } else {
                    Ok(entries)
                },
                Definition::Other => Ok(entries),
            },
        }
    }
}

/// The definition index under `name`: the latest entry of that name wins.
pub open spec fn catalog_get(entries: Seq<(Seq<char>, int)>, name: Seq<char>) -> Option<int>
    decreases entries.len(),
{
    if entries.len() == 0 {
        None
    } else if entries.last().0 == name {
        Some(entries.last().1)
    } else {
        catalog_get(entries.drop_last(), name)
    }
}

/// Scripted struct names, each with the index of its definition in the bundle.
pub struct StructCatalog {
    pub entries: Vec<(String, usize)>,
}

impl View for StructCatalog {
    type V = Seq<(Seq<char>, int)>;

    open spec fn view(&self) -> Seq<(Seq<char>, int)> {
        self.entries@.map_values(|e: (String, usize)| (e.0@, e.1 as int))
    }
}

/// The name item at `idx`, if there is one.
pub fn get_name(items: &Vec<BundleItem>, idx: u32) -> (r: Option<&String>)
    ensures
        match r {
            Some(s) => item_name(items@, idx) == Some(s@),
            None => item_name(items@, idx) is None,
        },
{
    if (idx as usize) < items.len() {
        match &items[idx as usize] {
            BundleItem::Name(s) => Some(s),
            _ => None,
        }
    } else {
        None
    }
}

impl StructCatalog {
    /// Builds the catalog of the struct definitions of `bundle`.
    pub fn build(bundle: &Bundle) -> (r: Result<StructCatalog, AuditError>)
        ensures
            match r {
                Ok(c) => catalog_outcome(bundle.items@, bundle.definitions@) == Ok::<_, AuditError>(c@),
                Err(e) => catalog_outcome(bundle.items@, bundle.definitions@) == Err::<Seq<(Seq<char>, int)>, _>(e),
            },
    {
        let mut entries: Vec<(String, usize)> = Vec::new();
        let mut i: usize = 0;
        assert(bundle.definitions@.take(0) =~= Seq::<Definition>::empty());
        assert((StructCatalog { entries }).view() =~= Seq::<(Seq<char>, int)>::empty());
        while i < bundle.definitions.len()
            invariant
                i <= bundle.definitions@.len(),
                catalog_outcome(bundle.items@, bundle.definitions@.take(i as int))
                    == Ok::<_, AuditError>((StructCatalog { entries }).view()),
            decreases bundle.definitions.len() - i,
        {
            assert(bundle.definitions@.take(i as int + 1).drop_last() =~= bundle.definitions@.take(i as int));
            assert(bundle.definitions@.take(i as int + 1).last() == bundle.definitions@[i as int]);
            match &bundle.definitions[i] {
                Definition::Class(c) => {
                    if c.is_struct {
                        match get_name(&bundle.items, c.name) {
                            Some(s) => {
                                let ghost before = (StructCatalog { entries }).view();
                                entries.push((s.clone(), i));
                                assert((StructCatalog { entries }).view() =~= before.push((s@, i as int)));
                            },
                            None => {
                                proof {
                                    assert(catalog_outcome(bundle.items@, bundle.definitions@.take(i as int + 1))
                                        == Err::<Seq<(Seq<char>, int)>, AuditError>(AuditError::MissingStructName(c.name)));
                                    lemma_catalog_error_stays(bundle.items@, bundle.definitions@, i as int + 1);
                                    assert(catalog_outcome(bundle.items@, bundle.definitions@)
                                        == Err::<Seq<(Seq<char>, int)>, AuditError>(AuditError::MissingStructName(c.name)));
                                }
                                return Err(AuditError::MissingStructName(c.name));
                            },
                        }
                    }
                },
                Definition::Other => {},
            }
            i = i + 1;
        }
        assert(bundle.definitions@.take(bundle.definitions@.len() as int) =~= bundle.definitions@);
        Ok(StructCatalog { entries })
    }

    /// The index of the definition of the struct named `name`, if any.
    pub fn lookup(&self, name: &String) -> (r: Option<usize>)
        ensures
            match r {
                Some(d) => catalog_get(self@, name@) == Some(d as int),
                None => catalog_get(self@, name@) is None,
            },
    {
        let mut found: Option<usize> = None;
        let mut i: usize = 0;
        while i < self.entries.len()
            invariant
                i <= self.entries@.len(),
                match found {
                    Some(d) => catalog_get(self@.take(i as int), name@) == Some(d as int),
                    None => catalog_get(self@.take(i as int), name@) is None,
                },
            decreases self.entries.len() - i,
        {
            assert(self@.take(i as int + 1).drop_last() =~= self@.take(i as int));
            assert(self@.take(i as int + 1).last() == self@[i as int]);
            if self.entries[i].0 == *name {
                found = Some(self.entries[i].1);
            }
            i = i + 1;
        }
        assert(self@.take(self@.len() as int) =~= self@);
        found
    }
}

proof fn lemma_catalog_error_stays(items: Seq<BundleItem>, defs: Seq<Definition>, n: int)
    requires
        0 < n <= defs.len(),
        catalog_outcome(items, defs.take(n)) is Err,
    ensures
        catalog_outcome(items, defs) == catalog_outcome(items, defs.take(n)),
    decreases defs.len() - n,
{
    if n < defs.len() {
        assert(defs.take(n + 1).drop_last() =~= defs.take(n));
        lemma_catalog_error_stays(items, defs, n + 1);
    } else {
        assert(defs.take(n) =~= defs);
    }
}

} // verus!
