//! Lossless ISO 29481-3 idmXML reader, writer and schema-aware editor.
//!
//! The core model is an editable, namespace-aware XML tree. Unknown and vendor
//! elements, comments, CDATA, processing instructions and ordering survive a
//! read-modify-write cycle. A declaration catalog drives cardinality-aware
//! creation, editing and validation.
pub mod catalog;
pub mod document;
pub mod editing;
pub mod interchange;
pub mod inventory;
pub mod laws;
pub mod model;
pub mod parse;
pub mod path;
pub mod path_laws;
pub mod roundtrip;
pub mod schema;
pub mod text;
pub mod tree;
pub mod validate;
pub mod walk;
pub mod write;

pub use crate::catalog::{
    AttributeRule, ChildAction, ChildRule, ChoiceGroup, ElementRule, RecursiveEdge, SchemaCatalog, SchemaSource,
    SemanticOverlay,
};
pub use crate::document::{Document, DEFAULT_MAX_XML_BYTES, DEFAULT_MAX_XML_DEPTH, IDM_SCHEMA_LOCATION};
pub use crate::inventory::{
    check_schema_name, local_schema_inventory, parse_schema, schema_files, schema_inventory, SchemaInventory,
};
pub use crate::model::{Attribute, Element, Error, Node};
pub use crate::parse::XmlToken;
pub use crate::validate::{severity_counts, ValidationIssue, ValidationSeverity};
