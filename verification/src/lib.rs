//! Bill-of-materials processing: parsing, tree building, validation,
//! versioning, alternative materials and price-tier lookup.
pub mod number;
pub mod text;
pub mod bom;
pub mod validation;
pub mod tree;
pub mod version;
pub mod alt;
pub mod calc;
pub mod batch;
