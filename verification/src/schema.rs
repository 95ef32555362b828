//! The schema: a template, the path of the file to write, and the options
//! that the template's placeholders refer to.

use crate::coerce::OptionType;
use crate::text::same_text;
use vstd::prelude::*;

verus! {

/// The declaration of one option, as the schema gives it.
#[derive(Debug, PartialEq, Eq)]
pub struct OptionDeclaration {
    /// The name shown to the operator.
    pub name: String,
    /// The id by which placeholders refer to the option.
    pub id: String,
    /// The value used when the operator enters nothing.
    pub default: Option<String>,
    /// The name of the option's type; without one the option is a string.
    pub declared_type: Option<String>,
    pub description: String,
}

/// Mathematical model of an [`OptionDeclaration`].
pub struct OptionDeclarationView {
    pub name: Seq<char>,
    pub id: Seq<char>,
    pub default: Option<Seq<char>>,
    pub declared_type: Option<Seq<char>>,
    pub description: Seq<char>,
}

impl View for OptionDeclaration {
    type V = OptionDeclarationView;

    open spec fn view(&self) -> OptionDeclarationView {
        OptionDeclarationView {
            name: self.name@,
            id: self.id@,
            default: text_view(self.default),
            declared_type: text_view(self.declared_type),
            description: self.description@,
        }
    }
}

impl DeepView for OptionDeclaration {
    type V = OptionDeclarationView;

    open spec fn deep_view(&self) -> OptionDeclarationView {
        self@
    }
}

/// The characters of an optional string.
pub open spec fn text_view(text: Option<String>) -> Option<Seq<char>> {
    match text {
        Some(s) => Some(s@),
        None => None,
    }
}

/// The kind that a type name stands for: `String`, `Number` or `Boolean`,
/// spelled exactly so; no name stands for a string, any other name for
/// nothing.
pub open spec fn spec_kind(declared_type: Option<Seq<char>>) -> Option<OptionType> {
    match declared_type {
        None => Some(OptionType::String),
        Some(name) => if name == "String"@ {
            Some(OptionType::String)
        } else if name == "Number"@ {
            Some(OptionType::Number)
        } else if name == "Boolean"@ {
            Some(OptionType::Boolean)
        } else {
            None
        },
    }
}

/// The type name that a declaration is taken to carry: its own, or `String`
/// where it has none.
pub open spec fn spec_type_label(declared_type: Option<Seq<char>>) -> Seq<char> {
    match declared_type {
        Some(name) => name,
        None => "String"@,
    }
}

impl OptionDeclaration {
    /// The kind of value the option holds, if its type name is a known one.
    pub fn kind(&self) -> (kind: Option<OptionType>)
        ensures
            kind == spec_kind(self@.declared_type),
    {
        match &self.declared_type {
            None => Some(OptionType::String),
            Some(name) => {
                if same_text(name.as_str(), "String") {
                    Some(OptionType::String)
                } else if same_text(name.as_str(), "Number") {
                    Some(OptionType::Number)
                } else if same_text(name.as_str(), "Boolean") {
                    Some(OptionType::Boolean)
                } else {
                    None
                }
            },
        }
    }

    /// The type name of the option, `String` where it declares none.
    pub fn type_label(&self) -> (label: String)
        ensures
            label@ == spec_type_label(self@.declared_type),
    {
        match &self.declared_type {
            Some(name) => name.clone(),
            None => "String".to_owned(),
        }
    }
}

/// A schema: the template, where its rendering is to be written, and the
/// declared options in the order of the schema.
#[derive(Debug, PartialEq, Eq)]
pub struct TemplateSpec {
    pub template: String,
    pub path: String,
    pub options: Vec<OptionDeclaration>,
}

/// Mathematical model of a [`TemplateSpec`].
pub struct TemplateSpecView {
    pub template: Seq<char>,
    pub path: Seq<char>,
    pub options: Seq<OptionDeclarationView>,
}

impl View for TemplateSpec {
    type V = TemplateSpecView;

    open spec fn view(&self) -> TemplateSpecView {
        TemplateSpecView {
            template: self.template@,
            path: self.path@,
            options: self.options.deep_view(),
        }
    }
}

/// No two declarations share an id.
pub open spec fn distinct_ids(options: Seq<OptionDeclarationView>) -> bool {
    forall|i: int, j: int|
        0 <= i < j < options.len() ==> (#[trigger] options[i]).id != (#[trigger] options[j]).id
}

} // verus!
