//! Plain data read by the audit: the compiled script bundle and the native
//! type registry, as snapshots.
use vstd::prelude::*;

verus! {

/// One property of a native record, with the layout data of its type.
pub struct NativeProperty {
    pub name: String,
    /// Byte offset of the value inside the owning record.
    pub value_offset: u32,
    /// Size in bytes of the property's type.
    pub size: u32,
    /// Required alignment in bytes of the property's type (at least 1).
    pub alignment: u32,
}

/// The class variant of a native type.
pub struct NativeClass {
    /// Name of the parent type, if any.
    pub base: Option<String>,
    /// Whether the type is itself declared by scripts.
    pub is_scripted_struct: bool,
    /// Properties, in no particular order.
    pub properties: Vec<NativeProperty>,
}

/// A native type as the registry describes it; only classes take part.
pub enum NativeType {
    Class(NativeClass),
    Other,
}

/// A snapshot of the native type registry.
pub struct TypeRegistry {
    /// Every native type with its name.
    pub types: Vec<(String, NativeType)>,
    /// Native type name to script type name, where the two differ.
    pub native_to_script: Vec<(String, String)>,
}

/// An entry of a bundle's item table.
pub enum BundleItem {
    Name(String),
    Field { name: u32 },
    Other,
}

/// A class or struct definition of a bundle.
pub struct ClassDefinition {
    /// Index of the name item.
    pub name: u32,
    /// Whether the record is a plain struct rather than a full class.
    pub is_struct: bool,
    /// Indices of the field items, in declaration order.
    pub fields: Vec<u32>,
}

/// A definition of a bundle; only class definitions take part.
pub enum Definition {
    Class(ClassDefinition),
    Other,
}

/// A parsed script bundle.
pub struct Bundle {
    pub items: Vec<BundleItem>,
    pub definitions: Vec<Definition>,
}

/// A reference into the bundle that does not resolve: the bundle is corrupt.
#[derive(Debug, Clone, Copy, PartialEq, Eq, Structural)]
pub enum AuditError {
    /// The name item of a struct definition.
    MissingStructName(u32),
    /// A field item of a struct definition.
    MissingField(u32),
    /// The name item of a field.
    MissingFieldName(u32),
}

/// Whether every property of the sequence has an alignment of at least 1.
pub open spec fn aligned_props(props: Seq<NativeProperty>) -> bool {
    forall|i: int| 0 <= i < props.len() ==> #[trigger] props[i].alignment > 0
}

} // verus!
