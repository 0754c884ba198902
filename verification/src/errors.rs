//! The error type shared by registry building and the two expanders, and its
//! mathematical model.

use vstd::prelude::*;

verus! {

/// Model of a [`LocalizeError`]: the same variants over character sequences.
pub enum ErrorModel {
    InvalidLanguageTag(Seq<char>),
    TemplateSyntax,
    LocalizedKey(Seq<char>, Seq<char>),
    MissingTag(Seq<char>),
    RedefinedTag(Seq<char>),
    LocalizedTag(Seq<char>),
    MissingKeywords,
    Serialize,
}

/// A fatal condition met while building a registry or expanding a template.
#[derive(Debug, Clone)]
pub enum LocalizeError {
    /// A catalog subdirectory name is not a well-formed language tag.
    InvalidLanguageTag { name: String },
    /// The template could not be parsed; the detail is the parser's message.
    TemplateSyntax { detail: String },
    /// A desktop-entry template already holds a localized variant
    /// (`key[param]`) of a field meant to be auto-localized.
    LocalizedKey { key: String, param: String },
    /// A metainfo template lacks the single unlocalized anchor element.
    MissingTag { tag: String },
    /// A metainfo template holds two unlocalized anchor elements.
    RedefinedTag { tag: String },
    /// A metainfo template already holds an attributed (localized) variant of
    /// an anchor element.
    LocalizedTag { tag: String },
    /// A metainfo template lacks the `keywords` element.
    MissingKeywords,
    /// The expanded tree could not be serialized; the detail is the writer's
    /// message.
    Serialize { detail: String },
}

impl View for LocalizeError {
    type V = ErrorModel;

    open spec fn view(&self) -> ErrorModel {
        match self {
            LocalizeError::InvalidLanguageTag { name } => ErrorModel::InvalidLanguageTag(name@),
            LocalizeError::TemplateSyntax { .. } => ErrorModel::TemplateSyntax,
            LocalizeError::LocalizedKey { key, param } => ErrorModel::LocalizedKey(key@, param@),
            LocalizeError::MissingTag { tag } => ErrorModel::MissingTag(tag@),
            LocalizeError::RedefinedTag { tag } => ErrorModel::RedefinedTag(tag@),
            LocalizeError::LocalizedTag { tag } => ErrorModel::LocalizedTag(tag@),
            LocalizeError::MissingKeywords => ErrorModel::MissingKeywords,
            LocalizeError::Serialize { .. } => ErrorModel::Serialize,
        }
    }
}

} // verus!
