//! Events emitted by the tokenizer, their attribute payloads, and parse
//! errors, together with their mathematical models.

use vstd::prelude::*;

verus! {

/// A parse error, locating the character that made the input ill-formed.
/// Lines count from 1 and grow on each newline; columns count from 1 within
/// a line and reset on a newline.
#[derive(Clone, PartialEq, Eq, Debug)]
pub struct Error {
    /// The line number at which the error occurred.
    pub line: usize,
    /// The column number at which the error occurred.
    pub col: usize,
    /// A message describing the kind of the error.
    pub msg: &'static str,
}

/// Model of an [`Error`].
#[verifier::ext_equal]
pub ghost struct ErrorModel {
    pub line: nat,
    pub col: nat,
    pub msg: Seq<char>,
}

impl View for Error {
    type V = ErrorModel;

    open spec fn view(&self) -> ErrorModel {
        ErrorModel { line: self.line as nat, col: self.col as nat, msg: self.msg@ }
    }
}

/// The namespace of an optional string.
pub open spec fn opt_str_view(o: Option<String>) -> Option<Seq<char>> {
    match o {
        Option::None => Option::None,
        Option::Some(s) => Option::Some(s@),
    }
}

/// The model of a sequence of attributes.
pub open spec fn attrs_view(s: Seq<Attribute>) -> Seq<AttributeModel> {
    s.map_values(|a: Attribute| a@)
}

/// The model of a sequence of declared bindings.
pub open spec fn decls_view(s: Seq<(String, String)>) -> Seq<(Seq<char>, Seq<char>)> {
    s.map_values(|b: (String, String)| (b.0@, b.1@))
}

/// An attribute of a start tag: a local name, an optional resolved
/// namespace, and an unescaped value.
#[derive(Clone, PartialEq, Eq, Debug)]
pub struct Attribute {
    /// The attribute's local name.
    pub name: String,
    /// The attribute's resolved namespace, if its source form had a prefix.
    pub ns: Option<String>,
    /// The attribute's unescaped value.
    pub value: String,
}

/// Model of an [`Attribute`].
#[verifier::ext_equal]
pub ghost struct AttributeModel {
    pub name: Seq<char>,
    pub ns: Option<Seq<char>>,
    pub value: Seq<char>,
}

impl View for Attribute {
    type V = AttributeModel;

    open spec fn view(&self) -> AttributeModel {
        AttributeModel { name: self.name@, ns: opt_str_view(self.ns), value: self.value@ }
    }
}

/// An opening tag, with its attributes resolved and its namespace
/// declarations absorbed.
#[derive(Clone, PartialEq, Eq, Debug)]
pub struct StartTag {
    /// The tag's local name.
    pub name: String,
    /// The tag's resolved namespace.
    pub ns: Option<String>,
    /// The tag's prefix, present when the source form was `prefix:local`.
    pub prefix: Option<String>,
    /// The attributes of the tag, without `xmlns` declarations.
    pub attributes: Vec<Attribute>,
    /// Namespace bindings declared on this very tag by `xmlns='…'` or
    /// `xmlns:prefix='…'` attributes, in declaration order.  The empty
    /// string stands for the default namespace.  Declarations are absorbed
    /// into this list and do not appear under `attributes`.
    pub declared: Vec<(String, String)>,
}

/// Model of a [`StartTag`].
#[verifier::ext_equal]
pub ghost struct StartTagModel {
    pub name: Seq<char>,
    pub ns: Option<Seq<char>>,
    pub prefix: Option<Seq<char>>,
    pub attributes: Seq<AttributeModel>,
    pub declared: Seq<(Seq<char>, Seq<char>)>,
}

impl View for StartTag {
    type V = StartTagModel;

    open spec fn view(&self) -> StartTagModel {
        StartTagModel {
            name: self.name@,
            ns: opt_str_view(self.ns),
            prefix: opt_str_view(self.prefix),
            attributes: attrs_view(self.attributes@),
            declared: decls_view(self.declared@),
        }
    }
}

/// A closing tag.
#[derive(Clone, PartialEq, Eq, Debug)]
pub struct EndTag {
    /// The tag's local name.
    pub name: String,
    /// The tag's resolved namespace.
    pub ns: Option<String>,
    /// The tag's prefix, present when the source form was `prefix:local`.
    pub prefix: Option<String>,
}

/// Model of an [`EndTag`].
#[verifier::ext_equal]
pub ghost struct EndTagModel {
    pub name: Seq<char>,
    pub ns: Option<Seq<char>>,
    pub prefix: Option<Seq<char>>,
}

impl View for EndTag {
    type V = EndTagModel;

    open spec fn view(&self) -> EndTagModel {
        EndTagModel { name: self.name@, ns: opt_str_view(self.ns), prefix: opt_str_view(self.prefix) }
    }
}

/// One atomic output of the tokenizer.
#[derive(Clone, PartialEq, Eq, Debug)]
pub enum Event {
    /// A processing instruction, `<?…?>`, text emitted verbatim.
    PI(String),
    /// An opening tag (also emitted for the opening half of `<x/>`).
    StartTag(StartTag),
    /// A closing tag (also emitted for the closing half of `<x/>`).
    EndTag(EndTag),
    /// Character data, fully unescaped.
    Characters(String),
    /// A CDATA section, `<![CDATA[…]]>`, text emitted verbatim.
    CDATA(String),
    /// A comment, `<!--…-->`, text emitted verbatim.
    Comment(String),
}

/// Model of an [`Event`].
#[verifier::ext_equal]
pub ghost enum EventModel {
    PI(Seq<char>),
    StartTag(StartTagModel),
    EndTag(EndTagModel),
    Characters(Seq<char>),
    CDATA(Seq<char>),
    Comment(Seq<char>),
}

impl View for Event {
    type V = EventModel;

    open spec fn view(&self) -> EventModel {
        match self {
            Event::PI(s) => EventModel::PI(s@),
            Event::StartTag(t) => EventModel::StartTag(t@),
            Event::EndTag(t) => EventModel::EndTag(t@),
            Event::Characters(s) => EventModel::Characters(s@),
            Event::CDATA(s) => EventModel::CDATA(s@),
            Event::Comment(s) => EventModel::Comment(s@),
        }
    }
}

/// Model of one tokenizer output: an event or an error.
pub open spec fn res_view(r: Result<Event, Error>) -> Result<EventModel, ErrorModel> {
    match r {
        Result::Ok(e) => Result::Ok(e@),
        Result::Err(e) => Result::Err(e@),
    }
}

} // verus!
