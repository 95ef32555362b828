//! What can end a run. Every error is final: nothing is retried, and a run
//! that fails writes nothing.

use crate::coerce::{CoercionError, CoercionErrorView};
use vstd::prelude::*;
use vstd::string::StringExecFns;

verus! {

/// The errors of a run. Those that concern one option carry its id.
#[derive(Debug, PartialEq, Eq)]
pub enum ConfigError {
    /// The schema could not be read or is malformed; carries the reason.
    SchemaLoadError(String),
    /// The template refers to an id that no option declares.
    UnknownOption(String),
    /// A referenced option declares a type that is not a known one.
    InvalidOptionType { id: String, declared_type: String },
    /// Two options of the schema share the id.
    DuplicateOption(String),
    /// The operator entered nothing for an option without a default.
    MissingRequiredValue(String),
    /// The text given for a number option is not an integer.
    NotANumber { id: String, raw: String },
    /// The text given for a boolean option says neither yes nor no.
    NotABoolean { id: String, raw: String },
    /// The rendered text could not be written; carries the reason.
    OutputWriteError(String),
}

/// Mathematical model of a [`ConfigError`].
pub enum ConfigErrorView {
    SchemaLoadError(Seq<char>),
    UnknownOption(Seq<char>),
    InvalidOptionType { id: Seq<char>, declared_type: Seq<char> },
    DuplicateOption(Seq<char>),
    MissingRequiredValue(Seq<char>),
    NotANumber { id: Seq<char>, raw: Seq<char> },
    NotABoolean { id: Seq<char>, raw: Seq<char> },
    OutputWriteError(Seq<char>),
}

impl View for ConfigError {
    type V = ConfigErrorView;

    open spec fn view(&self) -> ConfigErrorView {
        match self {
            ConfigError::SchemaLoadError(reason) => ConfigErrorView::SchemaLoadError(reason@),
            ConfigError::UnknownOption(id) => ConfigErrorView::UnknownOption(id@),
            ConfigError::InvalidOptionType { id, declared_type } => {
                ConfigErrorView::InvalidOptionType { id: id@, declared_type: declared_type@ }
            },
            ConfigError::DuplicateOption(id) => ConfigErrorView::DuplicateOption(id@),
            ConfigError::MissingRequiredValue(id) => ConfigErrorView::MissingRequiredValue(id@),
            ConfigError::NotANumber { id, raw } => ConfigErrorView::NotANumber {
                id: id@,
                raw: raw@,
            },
            ConfigError::NotABoolean { id, raw } => ConfigErrorView::NotABoolean {
                id: id@,
                raw: raw@,
            },
            ConfigError::OutputWriteError(reason) => ConfigErrorView::OutputWriteError(reason@),
        }
    }
}

/// A coercion failure, tagged with the id of the option it befell.
pub open spec fn spec_tagged(error: CoercionErrorView, id: Seq<char>) -> ConfigErrorView {
    match error {
        CoercionErrorView::NotANumber(raw) => ConfigErrorView::NotANumber { id, raw },
        CoercionErrorView::NotABoolean(raw) => ConfigErrorView::NotABoolean { id, raw },
    }
}

/// The one-line message that tells the operator of an error.
pub open spec fn spec_message(error: ConfigErrorView) -> Seq<char> {
    match error {
        ConfigErrorView::SchemaLoadError(reason) => "Error parsing config file: "@ + reason,
        ConfigErrorView::UnknownOption(id) => "Option "@ + id
            + " not found in configuration file."@,
        ConfigErrorView::InvalidOptionType { id, declared_type } => "Option "@ + id
            + " has invalid type "@ + declared_type + "."@,
        ConfigErrorView::DuplicateOption(id) => "Option "@ + id
            + " is declared more than once."@,
        ConfigErrorView::MissingRequiredValue(id) => "Option "@ + id
            + " does not have a default, you must enter a value for it."@,
        ConfigErrorView::NotANumber { id, raw } => "Error parsing number type for option "@ + id
            + "."@,
        ConfigErrorView::NotABoolean { id, raw } => "Error parsing boolean type for option "@
            + id + "."@,
        ConfigErrorView::OutputWriteError(reason) => "Error writing configuration file: "@
            + reason,
    }
}

/// `head`, `middle` and `tail` in one string.
fn join(head: &str, middle: &str, tail: &str) -> (joined: String)
    ensures
        joined@ == head@ + middle@ + tail@,
{
    let mut joined = String::from_str(head);
    joined.append(middle);
    joined.append(tail);
    joined
}

impl ConfigError {
    /// Tags a coercion failure with the id of the option it befell.
    pub fn tagged(error: CoercionError, id: String) -> (tagged: ConfigError)
        ensures
            tagged@ == spec_tagged(error@, id@),
    {
        match error {
            CoercionError::NotANumber(raw) => ConfigError::NotANumber { id, raw },
            CoercionError::NotABoolean(raw) => ConfigError::NotABoolean { id, raw },
        }
    }

    /// The one-line message that tells the operator of the error.
    pub fn message(&self) -> (text: String)
        ensures
            text@ == spec_message(self@),
    {
        match self {
            ConfigError::SchemaLoadError(reason) => {
                String::from_str("Error parsing config file: ").concat(reason.as_str())
            },
            ConfigError::UnknownOption(id) => join(
                "Option ",
                id.as_str(),
                " not found in configuration file.",
            ),
            ConfigError::InvalidOptionType { id, declared_type } => {
                let head = join("Option ", id.as_str(), " has invalid type ");
                join(head.as_str(), declared_type.as_str(), ".")
            },
            ConfigError::DuplicateOption(id) => join(
                "Option ",
                id.as_str(),
                " is declared more than once.",
            ),
            ConfigError::MissingRequiredValue(id) => join(
                "Option ",
                id.as_str(),
                " does not have a default, you must enter a value for it.",
            ),
            ConfigError::NotANumber { id, raw } => join(
                "Error parsing number type for option ",
                id.as_str(),
                ".",
            ),
            ConfigError::NotABoolean { id, raw } => join(
                "Error parsing boolean type for option ",
                id.as_str(),
                ".",
            ),
            ConfigError::OutputWriteError(reason) => {
                String::from_str("Error writing configuration file: ").concat(reason.as_str())
            },
        }
    }
}

} // verus!
