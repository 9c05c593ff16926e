//! Merging of nested records, shallow or deep, for a record-remapping
//! language: the value model, the merge itself with its laws, the static
//! type merge, and the `merge` function's binding and evaluation.
pub mod function;
pub mod key;
pub mod key_map;
pub mod kind;
pub mod merge;
pub mod value;
