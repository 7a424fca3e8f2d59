//! A linter core for a workflow-definition language: diagnostics with
//! suppression scoped by syntax, a rule that checks command sections with
//! ShellCheck, position-remapping fix application, the tokens written while
//! formatting, and functions of the standard library.
pub mod diagnostics;
pub mod fix;
pub mod rules;
pub mod stdlib;
pub mod text;
pub mod token;
