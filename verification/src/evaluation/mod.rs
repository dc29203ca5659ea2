//! Evaluating an index: vectors and true neighbours as benchmark files hold them, and what a run of
//! queries finds.
pub mod binding;
pub mod recall_laws;
pub mod scan;
pub mod settings;
pub mod vecs;
