//! Selective synchronisation of a project with a newer copy of the template
//! it was generated from: the diff of two directory listings, the
//! `.reesyncignore` skip-list, and the checkbox tree that the user edits.

pub mod build_laws;
pub mod build_shape;
pub mod diff;
pub mod ignore_list;
pub mod render;
pub mod session;
pub mod text;
pub mod tree;
pub mod tree_laws;
pub mod tree_model;
