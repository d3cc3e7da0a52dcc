//! Issue-template processing: a fixed-position metadata parser that splits a
//! template document into title, labels, assignee and body, and a
//! substitution engine that rewrites `{{ name }}` placeholders in the body
//! from a key-to-value mapping.

pub mod strutil;
pub mod subst;
pub mod template;

pub use subst::{substitute, substitutions, SubstitutionMap};
pub use template::{parse, process, TemplateMetadata};
