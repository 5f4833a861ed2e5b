//! Rule engine of an endpoint sensor: the `.waza` rule language, its parser, and
//! the evaluation of rules against events.
//!
//! Only what is purely logical stands here. There is no kernel or network access,
//! no file is read and no thread is started: a caller hands over the texts of the
//! rule files, the readings of their floating-point literals, and a clock.
//!
//! - [`event`]: events with dynamic fields, and the comparison operators.
//! - [`ast`]: rules, conditions, actions.
//! - [`parser`]: from rule files to rules, over [`document`] (the lines of a
//!   file), [`directive`] (durations, throttles, actions), [`expr`] (conditions)
//!   and [`lexer`] (tokens).
//! - [`engine`]: the evaluation, over [`index`] (from kinds of events to rules) and
//!   [`throttle`] (how often a rule may fire).
//! - [`schema`]: an optional registry of declared fields.
//!
//! The following modules hold no code. They state what holds of the language and of
//! the engine:
//!
//! - [`comparing`]: the operators, as relations between values.
//! - [`accepting`]: numbers, durations, throttles, actions and paths.
//! - [`reading`] and [`grouping`]: tokens, parentheses and operators.
//! - [`layout`] and [`headings`]: white space, comments, and what a line is.
//! - [`placing`]: where a line may stand, and what the lines of a group say.
//! - [`inclusion`]: what included files add.
//! - [`written`] and [`documents`]: what is written out is read back.
//! - [`meaning`] and [`history`]: when rules fire, over any number of events.
//! - [`declaring`]: what declarations make of a registry.

pub mod event;
pub mod accepting;
pub mod ast;
pub mod comparing;
pub mod declaring;
pub mod directive;
pub mod document;
pub mod documents;
pub mod engine;
pub mod expr;
pub mod floats;
pub mod grouping;
pub mod headings;
pub mod history;
pub mod inclusion;
pub mod index;
pub mod layout;
pub mod lexer;
pub mod meaning;
pub mod parser;
pub mod placing;
pub mod reading;
pub mod schema;
pub mod text;
pub mod throttle;
pub mod time;
pub mod written;
