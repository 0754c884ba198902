//! Injects per-language translated text into structured metadata templates
//! that describe desktop applications.
//!
//! A [`Context`] loads one translation catalog per language; a
//! [`FluentString`] names a message inside those catalogs and resolves it to
//! one value per language; an [`App`] names the localizable messages of one
//! application record and expands a desktop-entry or metainfo template with
//! one localized entry per language.

pub mod text;
pub mod errors;
pub mod catalog;
pub mod entity;
pub mod desktop;
pub mod metainfo;

pub use crate::errors::LocalizeError;
pub use crate::catalog::Context;
pub use crate::catalog::catalog_file_name;
pub use crate::catalog::parse_language_tag;
pub use crate::entity::App;
pub use crate::entity::FluentString;
pub use crate::desktop::EntryAttr;
pub use crate::desktop::EntrySection;
pub use crate::metainfo::XmlElem;
pub use crate::metainfo::XmlNode;
