//! The entity descriptor: which catalog messages fill the localizable fields
//! of one application record.

use vstd::prelude::*;

verus! {

/// A stable identifier naming one localizable message inside the catalogs.
#[derive(Clone, Copy, Debug)]
pub struct FluentString(pub &'static str);

impl View for FluentString {
    type V = Seq<char>;

    open spec fn view(&self) -> Seq<char> {
        self.0@
    }
}

/// Model of an [`App`]: the message identifier of each localizable field.
pub struct AppModel {
    pub title: Seq<char>,
    pub comment: Option<Seq<char>>,
    pub keywords: Option<Seq<char>>,
}

/// One localizable application record: a required title message, an optional
/// comment message and an optional keywords message. Built incrementally:
/// [`App::new`] then chained [`App::comment`] and [`App::keywords`].
#[derive(Clone, Debug)]
pub struct App {
    pub(crate) name: FluentString,
    pub(crate) comment: Option<FluentString>,
    pub(crate) keywords: Option<FluentString>,
}

impl View for App {
    type V = AppModel;

    closed spec fn view(&self) -> AppModel {
        AppModel {
            title: self.name@,
            comment: match self.comment {
                Some(c) => Some(c@),
                None => None,
            },
            keywords: match self.keywords {
                Some(k) => Some(k@),
                None => None,
            },
        }
    }
}

impl App {
    /// A record with the given title message and no comment or keywords.
    pub fn new(name: FluentString) -> (r: Self)
        ensures
            r@ == (AppModel { title: name@, comment: None, keywords: None }),
    {
        App { name, comment: None, keywords: None }
    }

    /// The same record with its comment message set.
    pub fn comment(self, value: FluentString) -> (r: Self)
        ensures
            r@ == (AppModel { title: self@.title, comment: Some(value@), keywords: self@.keywords }),
    {
        App { name: self.name, comment: Some(value), keywords: self.keywords }
    }

    /// The same record with its keywords message set.
    pub fn keywords(self, value: FluentString) -> (r: Self)
        ensures
            r@ == (AppModel { title: self@.title, comment: self@.comment, keywords: Some(value@) }),
    {
        App { name: self.name, comment: self.comment, keywords: Some(value) }
    }

    /// The title message.
    pub fn title_msg(&self) -> (r: FluentString)
        ensures
            r@ == self@.title,
    {
        self.name
    }

    /// The comment message, if one was set.
    pub fn comment_msg(&self) -> (r: Option<FluentString>)
        ensures
            r is Some <==> self@.comment is Some,
            r matches Some(f) ==> self@.comment == Some(f@),
    {
        self.comment
    }

    /// The keywords message, if one was set.
    pub fn keywords_msg(&self) -> (r: Option<FluentString>)
        ensures
            r is Some <==> self@.keywords is Some,
            r matches Some(f) ==> self@.keywords == Some(f@),
    {
        self.keywords
    }
}

} // verus!
