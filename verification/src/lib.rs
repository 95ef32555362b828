//! Generates a configuration file from a template with `${{id}}` placeholders.
//!
//! A schema ([`schema`]) holds a template and the options that its
//! placeholders refer to. A run has three stages, each a function from plain
//! values to plain values:
//!
//! - the schema binder ([`binder`]) finds the placeholders of the template
//!   and resolves each to the option that declares it;
//! - the interactive collector ([`collector`]) asks for a value for each
//!   bound option and coerces the answer to the type of the option with the
//!   value coercer ([`coerce`]);
//! - the template renderer ([`render`]) puts the values in the place of the
//!   placeholders.
//!
//! [`generator`] runs the three in a row. Reading the schema, talking to the
//! operator and writing the result belong to the caller. Every failure is
//! one of the errors of [`error`] and ends the run.
//!
//! The renderer replaces text by text. [`discipline`] states what a template
//! and its values have to keep to for the rendering to hold no placeholder,
//! and [`substitution`] shows that the order of the values does not matter
//! to the rendering where they do. [`text`] holds the algorithms on
//! character sequences that the stages share.

pub mod binder;
pub mod coerce;
pub mod collector;
pub mod discipline;
pub mod error;
pub mod generator;
pub mod render;
pub mod schema;
pub mod substitution;
pub mod text;
