//! Audits which native record types are "sealed": their whole memory layout is
//! covered, without gaps, by the fields that the script side declares for them.

pub mod model;
pub mod catalog;
pub mod layout;
pub mod matcher;
pub mod order;
pub mod plugin;

pub use catalog::StructCatalog;
pub use plugin::DumperPlugin;
pub use model::{
    AuditError, Bundle, BundleItem, ClassDefinition, Definition, NativeClass, NativeProperty,
    NativeType, TypeRegistry,
};
