//! The streaming tokenizer: a character-driven state machine that consumes
//! text fragments of arbitrary size and emits [`Event`]s, resolving
//! namespace prefixes through a stack of binding frames.

use crate::base::{
    Attribute, AttributeModel, EndTag, EndTagModel, Error, ErrorModel, Event, EventModel, StartTag,
    StartTagModel,
};
use crate::codec::spec_unescape;
use crate::text::{chars_eq, chars_to_string, str_to_chars, vec_slice};
use vstd::prelude::*;

verus! {

/// The states of the tokenizer automaton.
#[derive(Clone, Copy, PartialEq, Eq, Debug)]
pub enum State {
    /// Accumulating character data.
    OutsideTag,
    /// Just saw `<`.
    TagOpened,
    /// Inside `<? … ?>`.
    InProcessingInstructions,
    /// Reading a start-tag name.
    InTagName,
    /// Reading the name in `</…>`.
    InCloseTagName,
    /// Between attributes.
    InTag,
    /// Reading an attribute name.
    InAttrName,
    /// Reading a quoted attribute value.
    InAttrValue,
    /// After `=`, waiting for `'` or `"`.
    ExpectDelimiter,
    /// After `/` inside a self-closing tag, waiting for `>`.
    ExpectClose,
    /// After the name in `</…>`, waiting for whitespace or `>`.
    ExpectSpaceOrClose,
    /// After `<!`, branching on the next character.
    InExclamationMark,
    /// Matching the literal `CDATA[`.
    InCDATAOpening,
    /// Collecting CDATA content, tracking a trailing `]]`.
    InCDATA,
    /// After `<!-`, expecting the second `-`.
    InCommentOpening,
    /// Collecting a comment, tracking a run of `-`.
    InComment1,
    /// After `--` inside a comment, expecting `>`.
    InComment2,
    /// Consuming and discarding a DOCTYPE up to its closing `>`.
    InDoctype,
}

/// An attribute parked with its still-unresolved prefix, until the closing
/// `/` or `>` of the start tag completes the namespace frame.
pub struct RawAttr {
    pub name: Vec<char>,
    pub prefix: Option<Vec<char>>,
    pub value: Vec<char>,
}

/// Model of a [`RawAttr`].
#[verifier::ext_equal]
pub ghost struct RawAttrModel {
    pub name: Seq<char>,
    pub prefix: Option<Seq<char>>,
    pub value: Seq<char>,
}

/// The namespace of an optional character vector.
pub open spec fn opt_chars_view(o: Option<Vec<char>>) -> Option<Seq<char>> {
    match o {
        Option::None => Option::None,
        Option::Some(v) => Option::Some(v@),
    }
}

impl View for RawAttr {
    type V = RawAttrModel;

    closed spec fn view(&self) -> RawAttrModel {
        RawAttrModel { name: self.name@, prefix: opt_chars_view(self.prefix), value: self.value@ }
    }
}

/// One namespace frame: prefix-to-URI bindings in declaration order.
pub type FrameModel = Seq<(Seq<char>, Seq<char>)>;

/// The model of a sequence of parked attributes.
pub open spec fn raw_attrs_view(s: Seq<RawAttr>) -> Seq<RawAttrModel> {
    s.map_values(|a: RawAttr| a@)
}

/// The namespace of a frame of bindings.
pub open spec fn frame_view(f: Vec<(Vec<char>, Vec<char>)>) -> FrameModel {
    f@.map_values(|b: (Vec<char>, Vec<char>)| (b.0@, b.1@))
}

/// The namespace of a stack of frames.
pub open spec fn stack_view(s: Vec<Vec<(Vec<char>, Vec<char>)>>) -> Seq<FrameModel> {
    s@.map_values(|f: Vec<(Vec<char>, Vec<char>)>| frame_view(f))
}

/// A streaming XML tokenizer.
pub struct Parser {
    line: usize,
    col: usize,
    buf: Vec<char>,
    name: Vec<char>,
    prefix: Option<Vec<char>>,
    namespaces: Vec<Vec<(Vec<char>, Vec<char>)>>,
    attr_name: Vec<char>,
    attr_prefix: Option<Vec<char>>,
    attributes: Vec<RawAttr>,
    delim: Option<char>,
    st: State,
    level: usize,
}

/// Model of a [`Parser`]: the full automaton state.
#[verifier::ext_equal]
pub ghost struct ParserModel {
    pub line: nat,
    pub col: nat,
    pub buf: Seq<char>,
    pub name: Seq<char>,
    pub prefix: Option<Seq<char>>,
    pub namespaces: Seq<FrameModel>,
    pub attr_name: Seq<char>,
    pub attr_prefix: Option<Seq<char>>,
    pub attributes: Seq<RawAttrModel>,
    pub delim: Option<char>,
    pub st: State,
    pub level: nat,
}

impl View for Parser {
    type V = ParserModel;

    closed spec fn view(&self) -> ParserModel {
        ParserModel {
            line: self.line as nat,
            col: self.col as nat,
            buf: self.buf@,
            name: self.name@,
            prefix: opt_chars_view(self.prefix),
            namespaces: stack_view(self.namespaces),
            attr_name: self.attr_name@,
            attr_prefix: opt_chars_view(self.attr_prefix),
            attributes: raw_attrs_view(self.attributes@),
            delim: self.delim,
            st: self.st,
            level: self.level as nat,
        }
    }
}

/// Whether the automaton stands inside a start tag whose namespace frame
/// has been pushed but whose start-tag event has not yet been emitted.
pub open spec fn pending_frame(st: State) -> int {
    match st {
        State::InTag => 1,
        State::InAttrName => 1,
        State::InAttrValue => 1,
        State::ExpectDelimiter => 1,
        _ => 0,
    }
}

/// Whitespace as the tokenizer understands it.
pub open spec fn is_ws(c: char) -> bool {
    c == ' ' || c == '\t' || c == '\r' || c == '\n'
}

/// The reserved prefix `xml`.
pub open spec fn xml_prefix() -> Seq<char> {
    seq!['x', 'm', 'l']
}

/// The reserved prefix `xmlns`.
pub open spec fn xmlns_prefix() -> Seq<char> {
    seq!['x', 'm', 'l', 'n', 's']
}

/// The URI bound to the reserved prefix `xml`.
pub open spec fn xml_uri() -> Seq<char> {
    "http://www.w3.org/XML/1998/namespace"@
}

/// The URI bound to the reserved prefix `xmlns`.
pub open spec fn xmlns_uri() -> Seq<char> {
    "http://www.w3.org/2000/xmlns/"@
}

/// The bottom namespace frame, never popped.
pub open spec fn bottom_frame() -> FrameModel {
    seq![(xml_prefix(), xml_uri()), (xmlns_prefix(), xmlns_uri())]
}

/// The binding of `key` in one frame: the latest declaration wins.
pub open spec fn frame_lookup(f: FrameModel, key: Seq<char>) -> Option<Seq<char>>
    decreases f.len(),
{
    if f.len() == 0 {
        None
    } else if f.last().0 == key {
        Some(f.last().1)
    } else {
        frame_lookup(f.drop_last(), key)
    }
}

/// The binding of `key` in a stack of frames, searched top-down.
pub open spec fn stack_lookup(ns: Seq<FrameModel>, key: Seq<char>) -> Option<Seq<char>>
    decreases ns.len(),
{
    if ns.len() == 0 {
        None
    } else {
        match frame_lookup(ns.last(), key) {
            Some(v) => Some(v),
            None => stack_lookup(ns.drop_last(), key),
        }
    }
}

/// Resolution of an optional prefix against a stack of frames.
///
/// `None` means the prefix is unbound, a well-formedness error for a
/// nonempty prefix.  `Some(None)` means no namespace: either an absent
/// prefix with no default binding, or a binding to the empty string.
/// `Some(Some(uri))` is a resolved namespace.
pub open spec fn resolve_prefix(ns: Seq<FrameModel>, prefix: Option<Seq<char>>) -> Option<
    Option<Seq<char>>,
> {
    match prefix {
        None => match stack_lookup(ns, Seq::empty()) {
            None => Some(None),
            Some(u) => if u.len() == 0 {
                Some(None)
            } else {
                Some(Some(u))
            },
        },
        Some(p) => match stack_lookup(ns, p) {
            None => None,
            Some(u) => if u.len() == 0 {
                Some(None)
            } else {
                Some(Some(u))
            },
        },
    }
}

/// Index of the first `:` in `s`, if any.
pub open spec fn find_colon(s: Seq<char>) -> Option<int>
    decreases s.len(),
{
    if s.len() == 0 {
        None
    } else if s[0] == ':' {
        Some(0)
    } else {
        match find_colon(s.drop_first()) {
            None => None,
            Some(j) => Some(j + 1),
        }
    }
}

/// The prefix of a qualified name: what stands before the first `:`.
pub open spec fn qname_prefix(s: Seq<char>) -> Option<Seq<char>> {
    match find_colon(s) {
        None => None,
        Some(i) => Some(s.subrange(0, i)),
    }
}

/// The local part of a qualified name: all of it, or what follows the
/// first `:`.
pub open spec fn qname_local(s: Seq<char>) -> Seq<char> {
    match find_colon(s) {
        None => s,
        Some(i) => s.subrange(i + 1, s.len() as int),
    }
}

/// Well-formedness of a tokenizer state: what every reachable state
/// satisfies, and what keeps each step free of panics.
pub open spec fn wf(p: ParserModel) -> bool {
    &&& p.namespaces.len() >= 1
    &&& (p.st == State::InProcessingInstructions ==> p.level <= 1 && (p.level == 1 ==> p.buf.len()
        >= 1))
    &&& (p.st == State::InCDATA ==> p.level <= p.buf.len())
    &&& (p.st == State::InCDATAOpening ==> p.level <= 5)
    &&& (p.st == State::InComment1 ==> p.level <= 1 && (p.level == 1 ==> p.buf.len() >= 1))
    &&& (p.st == State::InComment2 ==> p.buf.len() >= 2)
    &&& (p.st == State::InDoctype ==> p.level <= 7)
    &&& (p.st == State::InAttrValue ==> p.delim is Some)
    &&& (p.st == State::InAttrName ==> p.level <= 1)
    &&& (match p.st {
        State::OutsideTag => p.level == 0,
        State::TagOpened => p.level == 0,
        State::InTagName => p.level == 0,
        State::InCloseTagName => p.level == 0,
        State::InTag => p.level == 0,
        State::InAttrValue => p.level == 0,
        State::ExpectDelimiter => p.level == 0,
        State::ExpectClose => p.level == 0,
        State::ExpectSpaceOrClose => p.level == 0,
        State::InExclamationMark => p.level == 0,
        State::InComment2 => p.level == 0,
        _ => true,
    })
}


/// The outcome of one step of the automaton: the next state, at most one
/// emitted event, and at most one error.  Never both an event and an error.
#[verifier::ext_equal]
pub ghost struct StepModel {
    pub p: ParserModel,
    pub event: Option<EventModel>,
    pub err: Option<ErrorModel>,
}

/// A step that only moves to `p`.
pub open spec fn step_none(p: ParserModel) -> StepModel {
    StepModel { p, event: None, err: None }
}

/// A step that moves to `p` and emits `e`.
pub open spec fn step_emit(p: ParserModel, e: EventModel) -> StepModel {
    StepModel { p, event: Some(e), err: None }
}

/// A step that moves to `p` and reports an error at the current position.
pub open spec fn step_err(p: ParserModel, msg: Seq<char>) -> StepModel {
    StepModel { p, event: None, err: Some(ErrorModel { line: p.line, col: p.col, msg }) }
}

/// Transition out of `OutsideTag`.
pub open spec fn spec_outside_tag(p: ParserModel, c: char) -> StepModel {
    if c == '<' {
        let p2 = ParserModel { st: State::TagOpened, ..p };
        if p.buf.len() > 0 {
            match spec_unescape(p.buf) {
                Ok(text) => step_emit(
                    ParserModel { buf: Seq::empty(), ..p2 },
                    EventModel::Characters(text),
                ),
                Err(_) => step_err(p2, "Found invalid entity"@),
            }
        } else {
            step_none(p2)
        }
    } else {
        step_none(ParserModel { buf: p.buf.push(c), ..p })
    }
}

/// Transition out of `TagOpened`.
pub open spec fn spec_tag_opened(p: ParserModel, c: char) -> StepModel {
    if c == '?' {
        step_none(ParserModel { st: State::InProcessingInstructions, ..p })
    } else if c == '!' {
        step_none(ParserModel { st: State::InExclamationMark, ..p })
    } else if c == '/' {
        step_none(ParserModel { st: State::InCloseTagName, ..p })
    } else {
        step_none(ParserModel { buf: p.buf.push(c), st: State::InTagName, ..p })
    }
}

/// Transition out of `InProcessingInstructions`.
pub open spec fn spec_in_processing_instructions(p: ParserModel, c: char) -> StepModel {
    if c == '?' {
        step_none(ParserModel { level: 1, buf: p.buf.push(c), ..p })
    } else if c == '>' && p.level == 1 {
        step_emit(
            ParserModel { level: 0, st: State::OutsideTag, buf: Seq::empty(), ..p },
            EventModel::PI(p.buf.drop_last()),
        )
    } else {
        step_none(ParserModel { buf: p.buf.push(c), ..p })
    }
}

/// Transition out of `InTagName`.
pub open spec fn spec_in_tag_name(p: ParserModel, c: char) -> StepModel {
    if c == '/' || c == '>' {
        let prefix = qname_prefix(p.buf);
        let local = qname_local(p.buf);
        let p2 = ParserModel { name: local, prefix, buf: Seq::empty(), ..p };
        match resolve_prefix(p.namespaces, prefix) {
            None => step_err(p2, "Unbound prefix"@),
            Some(ns) => step_emit(
                ParserModel {
                    namespaces: p.namespaces.push(Seq::empty()),
                    st: if c == '/' {
                        State::ExpectClose
                    } else {
                        State::OutsideTag
                    },
                    ..p2
                },
                EventModel::StartTag(
                    StartTagModel {
                        name: local,
                        ns,
                        prefix,
                        attributes: Seq::empty(),
                        declared: Seq::empty(),
                    },
                ),
            ),
        }
    } else if is_ws(c) {
        step_none(
            ParserModel {
                namespaces: p.namespaces.push(Seq::empty()),
                name: qname_local(p.buf),
                prefix: qname_prefix(p.buf),
                buf: Seq::empty(),
                st: State::InTag,
                ..p
            },
        )
    } else {
        step_none(ParserModel { buf: p.buf.push(c), ..p })
    }
}

/// Transition out of `InCloseTagName`.
pub open spec fn spec_in_close_tag_name(p: ParserModel, c: char) -> StepModel {
    if is_ws(c) || c == '>' {
        let prefix = qname_prefix(p.buf);
        let local = qname_local(p.buf);
        let p2 = ParserModel { buf: Seq::empty(), ..p };
        match resolve_prefix(p.namespaces, prefix) {
            None => step_err(p2, "Unbound prefix"@),
            Some(ns) => step_emit(
                ParserModel {
                    namespaces: if p.namespaces.len() > 1 {
                        p.namespaces.drop_last()
                    } else {
                        p.namespaces
                    },
                    st: if c == '>' {
                        State::OutsideTag
                    } else {
                        State::ExpectSpaceOrClose
                    },
                    ..p2
                },
                EventModel::EndTag(EndTagModel { name: local, ns, prefix }),
            ),
        }
    } else {
        step_none(ParserModel { buf: p.buf.push(c), ..p })
    }
}

/// Resolution of the parked attributes against the completed stack;
/// `None` when some attribute prefix is unbound.
pub open spec fn resolve_attrs(ns: Seq<FrameModel>, attrs: Seq<RawAttrModel>) -> Option<
    Seq<AttributeModel>,
>
    decreases attrs.len(),
{
    if attrs.len() == 0 {
        Some(Seq::empty())
    } else {
        match resolve_attrs(ns, attrs.drop_last()) {
            None => None,
            Some(done) => {
                let a = attrs.last();
                match a.prefix {
                    None => Some(
                        done.push(AttributeModel { name: a.name, ns: None, value: a.value }),
                    ),
                    Some(_) => match resolve_prefix(ns, a.prefix) {
                        None => None,
                        Some(ans) => Some(
                            done.push(AttributeModel { name: a.name, ns: ans, value: a.value }),
                        ),
                    },
                }
            },
        }
    }
}

/// Transition out of `InTag`.
pub open spec fn spec_in_tag(p: ParserModel, c: char) -> StepModel {
    if c == '/' || c == '>' {
        match resolve_prefix(p.namespaces, p.prefix) {
            None => step_err(p, "Unbound prefix"@),
            Some(ns) => match resolve_attrs(p.namespaces, p.attributes) {
                None => step_err(p, "Unbound prefix"@),
                Some(attrs) => step_emit(
                    if c == '/' {
                        ParserModel { attributes: Seq::empty(), st: State::ExpectClose, ..p }
                    } else {
                        ParserModel {
                            attributes: Seq::empty(),
                            name: Seq::empty(),
                            prefix: None,
                            st: State::OutsideTag,
                            ..p
                        }
                    },
                    EventModel::StartTag(
                        StartTagModel {
                            name: p.name,
                            ns,
                            prefix: p.prefix,
                            attributes: attrs,
                            declared: p.namespaces.last(),
                        },
                    ),
                ),
            },
        }
    } else if is_ws(c) {
        step_none(p)
    } else {
        step_none(ParserModel { buf: p.buf.push(c), st: State::InAttrName, ..p })
    }
}

/// Transition out of `InAttrName`.
pub open spec fn spec_in_attr_name(p: ParserModel, c: char) -> StepModel {
    if c == '=' {
        step_none(
            ParserModel {
                level: 0,
                attr_prefix: qname_prefix(p.buf),
                attr_name: qname_local(p.buf),
                buf: Seq::empty(),
                st: State::ExpectDelimiter,
                ..p
            },
        )
    } else if is_ws(c) {
        step_none(ParserModel { level: 1, ..p })
    } else if p.level == 0 {
        step_none(ParserModel { buf: p.buf.push(c), ..p })
    } else {
        step_err(p, "Space occured in attribute name"@)
    }
}

/// Installation of a binding in the top frame of the stack.
pub open spec fn install_binding(
    ns: Seq<FrameModel>,
    key: Seq<char>,
    value: Seq<char>,
) -> Seq<FrameModel> {
    if ns.len() > 0 {
        ns.update(ns.len() - 1, ns.last().push((key, value)))
    } else {
        seq![seq![(key, value)]]
    }
}

/// Transition out of `InAttrValue`.
pub open spec fn spec_in_attr_value(p: ParserModel, c: char) -> StepModel {
    if p.delim == Some(c) {
        let p2 = ParserModel {
            delim: None,
            st: State::InTag,
            attr_name: Seq::empty(),
            ..p
        };
        match spec_unescape(p.buf) {
            Err(_) => step_err(p2, "Found invalid entity"@),
            Ok(value) => {
                let p3 = ParserModel { buf: Seq::empty(), attr_prefix: None, ..p2 };
                if p.attr_prefix is None && p.attr_name == xmlns_prefix() {
                    step_none(
                        ParserModel {
                            namespaces: install_binding(p.namespaces, Seq::empty(), value),
                            ..p3
                        },
                    )
                } else if p.attr_prefix == Some(xmlns_prefix()) {
                    step_none(
                        ParserModel {
                            namespaces: install_binding(p.namespaces, p.attr_name, value),
                            ..p3
                        },
                    )
                } else {
                    step_none(
                        ParserModel {
                            attributes: p.attributes.push(
                                RawAttrModel { name: p.attr_name, prefix: p.attr_prefix, value },
                            ),
                            ..p3
                        },
                    )
                }
            },
        }
    } else {
        step_none(ParserModel { buf: p.buf.push(c), ..p })
    }
}

/// Transition out of `ExpectDelimiter`.
pub open spec fn spec_expect_delimiter(p: ParserModel, c: char) -> StepModel {
    if c == '"' || c == '\'' {
        step_none(ParserModel { delim: Some(c), st: State::InAttrValue, ..p })
    } else if is_ws(c) {
        step_none(p)
    } else {
        step_err(p, "Attribute value not enclosed in ' or \""@)
    }
}

/// Transition out of `ExpectClose`.
pub open spec fn spec_expect_close(p: ParserModel, c: char) -> StepModel {
    if c == '>' {
        match resolve_prefix(p.namespaces, p.prefix) {
            None => step_err(p, "Unbound prefix"@),
            Some(ns) => step_emit(
                ParserModel {
                    namespaces: if p.namespaces.len() > 1 {
                        p.namespaces.drop_last()
                    } else {
                        p.namespaces
                    },
                    name: Seq::empty(),
                    prefix: None,
                    st: State::OutsideTag,
                    ..p
                },
                EventModel::EndTag(EndTagModel { name: p.name, ns, prefix: p.prefix }),
            ),
        }
    } else {
        step_err(p, "Expected '>' to close tag"@)
    }
}

/// Transition out of `ExpectSpaceOrClose`.
pub open spec fn spec_expect_space_or_close(p: ParserModel, c: char) -> StepModel {
    if is_ws(c) {
        step_none(p)
    } else if c == '>' {
        step_none(ParserModel { st: State::OutsideTag, ..p })
    } else {
        step_err(p, "Expected '>' to close tag, or LWS"@)
    }
}

/// Transition out of `InExclamationMark`.
pub open spec fn spec_in_exclamation_mark(p: ParserModel, c: char) -> StepModel {
    if c == '-' {
        step_none(ParserModel { st: State::InCommentOpening, ..p })
    } else if c == '[' {
        step_none(ParserModel { st: State::InCDATAOpening, ..p })
    } else if c == 'D' {
        step_none(ParserModel { st: State::InDoctype, ..p })
    } else {
        step_err(p, "Malformed XML"@)
    }
}

/// The literal matched character by character after `<![`.
pub open spec fn cdata_pattern(i: int) -> char {
    if i == 0 {
        'C'
    } else if i == 1 {
        'D'
    } else if i == 2 {
        'A'
    } else if i == 3 {
        'T'
    } else if i == 4 {
        'A'
    } else {
        '['
    }
}

/// Transition out of `InCDATAOpening`.
pub open spec fn spec_in_cdata_opening(p: ParserModel, c: char) -> StepModel {
    if c == cdata_pattern(p.level as int) {
        if p.level + 1 == 6 {
            step_none(ParserModel { level: 0, st: State::InCDATA, ..p })
        } else {
            step_none(ParserModel { level: p.level + 1, ..p })
        }
    } else {
        step_err(p, "Invalid CDATA opening sequence"@)
    }
}

/// Transition out of `InCDATA`.
pub open spec fn spec_in_cdata(p: ParserModel, c: char) -> StepModel {
    if c == ']' {
        step_none(ParserModel { buf: p.buf.push(c), level: p.level + 1, ..p })
    } else if c == '>' && p.level >= 2 {
        step_emit(
            ParserModel { st: State::OutsideTag, level: 0, buf: Seq::empty(), ..p },
            EventModel::CDATA(p.buf.take(p.buf.len() - 2)),
        )
    } else {
        step_none(ParserModel { buf: p.buf.push(c), level: 0, ..p })
    }
}

/// Transition out of `InCommentOpening`.
pub open spec fn spec_in_comment_opening(p: ParserModel, c: char) -> StepModel {
    if c == '-' {
        step_none(ParserModel { st: State::InComment1, level: 0, ..p })
    } else {
        step_err(p, "Expected 2nd '-' to start comment"@)
    }
}

/// Transition out of `InComment1`.
pub open spec fn spec_in_comment1(p: ParserModel, c: char) -> StepModel {
    let run = if c == '-' {
        p.level + 1
    } else {
        0
    };
    if run == 2 {
        step_none(ParserModel { level: 0, st: State::InComment2, buf: p.buf.push(c), ..p })
    } else {
        step_none(ParserModel { level: run, buf: p.buf.push(c), ..p })
    }
}

/// Transition out of `InComment2`.
pub open spec fn spec_in_comment2(p: ParserModel, c: char) -> StepModel {
    if c != '>' {
        step_err(p, "Not more than one adjacent '-' allowed in a comment"@)
    } else {
        step_emit(
            ParserModel { st: State::OutsideTag, buf: Seq::empty(), ..p },
            EventModel::Comment(p.buf.take(p.buf.len() - 2)),
        )
    }
}

/// The literal matched character by character after `<!D`.
pub open spec fn doctype_pattern(i: int) -> char {
    if i == 0 {
        'O'
    } else if i == 1 {
        'C'
    } else if i == 2 {
        'T'
    } else if i == 3 {
        'Y'
    } else if i == 4 {
        'P'
    } else {
        'E'
    }
}

/// Transition out of `InDoctype`.
pub open spec fn spec_in_doctype(p: ParserModel, c: char) -> StepModel {
    if p.level <= 5 {
        if c == doctype_pattern(p.level as int) {
            step_none(ParserModel { level: p.level + 1, ..p })
        } else {
            step_err(p, "Invalid DOCTYPE"@)
        }
    } else if p.level == 6 {
        if is_ws(c) {
            step_none(ParserModel { level: 7, ..p })
        } else {
            step_err(p, "Invalid DOCTYPE"@)
        }
    } else if c == '>' {
        step_none(ParserModel { level: 0, st: State::OutsideTag, ..p })
    } else {
        step_none(p)
    }
}

/// One step of the automaton on one character, after the position has been
/// advanced.
pub open spec fn spec_step(p: ParserModel, c: char) -> StepModel {
    match p.st {
        State::OutsideTag => spec_outside_tag(p, c),
        State::TagOpened => spec_tag_opened(p, c),
        State::InProcessingInstructions => spec_in_processing_instructions(p, c),
        State::InTagName => spec_in_tag_name(p, c),
        State::InCloseTagName => spec_in_close_tag_name(p, c),
        State::InTag => spec_in_tag(p, c),
        State::InAttrName => spec_in_attr_name(p, c),
        State::InAttrValue => spec_in_attr_value(p, c),
        State::ExpectDelimiter => spec_expect_delimiter(p, c),
        State::ExpectClose => spec_expect_close(p, c),
        State::ExpectSpaceOrClose => spec_expect_space_or_close(p, c),
        State::InExclamationMark => spec_in_exclamation_mark(p, c),
        State::InCDATAOpening => spec_in_cdata_opening(p, c),
        State::InCDATA => spec_in_cdata(p, c),
        State::InCommentOpening => spec_in_comment_opening(p, c),
        State::InComment1 => spec_in_comment1(p, c),
        State::InComment2 => spec_in_comment2(p, c),
        State::InDoctype => spec_in_doctype(p, c),
    }
}

/// Position bookkeeping before a character is handed to the automaton:
/// a newline opens the next line, anything else advances the column.
/// Counters saturate at the machine limit.
pub open spec fn spec_advance_pos(p: ParserModel, c: char) -> ParserModel {
    if c == '\n' {
        ParserModel {
            line: if p.line < usize::MAX as nat {
                p.line + 1
            } else {
                p.line
            },
            col: 0,
            ..p
        }
    } else {
        ParserModel {
            col: if p.col < usize::MAX as nat {
                p.col + 1
            } else {
                p.col
            },
            ..p
        }
    }
}

/// One full step on one character: advance the position, then step the
/// automaton.
pub open spec fn spec_feed_char(p: ParserModel, c: char) -> StepModel {
    spec_step(spec_advance_pos(p, c), c)
}


/// Every step from a well-formed state reaches a well-formed state.
pub proof fn lemma_step_wf(p: ParserModel, c: char)
    requires
        wf(p),
    ensures
        wf(spec_step(p, c).p),
{
    match p.st {
        State::OutsideTag => {
            assert(wf(spec_outside_tag(p, c).p));
        },
        State::TagOpened => {
            assert(wf(spec_tag_opened(p, c).p));
        },
        State::InProcessingInstructions => {
            assert(wf(spec_in_processing_instructions(p, c).p));
        },
        State::InTagName => {
            assert(wf(spec_in_tag_name(p, c).p));
        },
        State::InCloseTagName => {
            assert(wf(spec_in_close_tag_name(p, c).p));
        },
        State::InTag => {
            assert(wf(spec_in_tag(p, c).p));
        },
        State::InAttrName => {
            assert(wf(spec_in_attr_name(p, c).p));
        },
        State::InAttrValue => {
            assert(wf(spec_in_attr_value(p, c).p));
        },
        State::ExpectDelimiter => {
            assert(wf(spec_expect_delimiter(p, c).p));
        },
        State::ExpectClose => {
            assert(wf(spec_expect_close(p, c).p));
        },
        State::ExpectSpaceOrClose => {
            assert(wf(spec_expect_space_or_close(p, c).p));
        },
        State::InExclamationMark => {
            assert(wf(spec_in_exclamation_mark(p, c).p));
        },
        State::InCDATAOpening => {
            assert(wf(spec_in_cdata_opening(p, c).p));
        },
        State::InCDATA => {
            assert(wf(spec_in_cdata(p, c).p));
        },
        State::InCommentOpening => {
            assert(wf(spec_in_comment_opening(p, c).p));
        },
        State::InComment1 => {
            assert(wf(spec_in_comment1(p, c).p));
        },
        State::InComment2 => {
            assert(wf(spec_in_comment2(p, c).p));
        },
        State::InDoctype => {
            assert(wf(spec_in_doctype(p, c).p));
        },
    }
}

/// Advancing the position keeps well-formedness.
pub proof fn lemma_advance_pos_wf(p: ParserModel, c: char)
    requires
        wf(p),
    ensures
        wf(spec_advance_pos(p, c)),
{
}

/// The state of a fresh tokenizer: position 1:0, empty buffers, and a
/// namespace stack holding exactly the bottom frame.
pub open spec fn init_parser() -> ParserModel {
    ParserModel {
        line: 1,
        col: 0,
        buf: Seq::empty(),
        name: Seq::empty(),
        prefix: None,
        namespaces: seq![bottom_frame()],
        attr_name: Seq::empty(),
        attr_prefix: None,
        attributes: Seq::empty(),
        delim: None,
        st: State::OutsideTag,
        level: 0,
    }
}


impl Parser {
    /// Returns a new `Parser`, in the initial state: position 1:0, empty
    /// buffers, and the namespace stack holding the fixed bottom frame.
    pub fn new() -> (p: Parser)
        ensures
            p@ == init_parser(),
            wf(p@),
    {
        let mut bottom: Vec<(Vec<char>, Vec<char>)> = Vec::new();
        bottom.push((str_to_chars("xml"), str_to_chars("http://www.w3.org/XML/1998/namespace")));
        bottom.push((str_to_chars("xmlns"), str_to_chars("http://www.w3.org/2000/xmlns/")));
        let mut namespaces: Vec<Vec<(Vec<char>, Vec<char>)>> = Vec::new();
        namespaces.push(bottom);
        let p = Parser {
            line: 1,
            col: 0,
            buf: Vec::new(),
            name: Vec::new(),
            prefix: None,
            namespaces,
            attr_name: Vec::new(),
            attr_prefix: None,
            attributes: Vec::new(),
            delim: None,
            st: State::OutsideTag,
            level: 0,
        };
        proof {
            reveal_strlit("xml");
            reveal_strlit("xmlns");
            assert("xml"@ =~= xml_prefix());
            assert("xmlns"@ =~= xmlns_prefix());
            assert(frame_view(p.namespaces[0]) =~= bottom_frame());
            assert(stack_view(p.namespaces) =~= seq![bottom_frame()]);
            assert(p@.attributes =~= Seq::<RawAttrModel>::empty());
            assert(p@ =~= init_parser());
        }
        p
    }
}

/// Splits a buffered qualified name at its first `:` into an optional
/// prefix and a local name.
fn qname_chars(buf: &Vec<char>) -> (r: (Option<Vec<char>>, Vec<char>))
    ensures
        opt_chars_view(r.0) == qname_prefix(buf@),
        r.1@ == qname_local(buf@),
{
    let n = buf.len();
    let mut j: usize = 0;
    while j < n && buf[j] != ':'
        invariant
            j <= n,
            n == buf@.len(),
            forall|k: int| 0 <= k < j ==> buf@[k] != ':',
        decreases n - j,
    {
        j = j + 1;
    }
    proof {
        lemma_find_colon_bounds(buf@);
    }
    if j == n {
        proof {
            if find_colon(buf@) is Some {
                let jj = find_colon(buf@)->0;
                assert(buf@[jj] == ':');
                assert(false);
            }
        }
        (None, vec_slice(buf, 0, n))
    } else {
        proof {
            if find_colon(buf@) is None {
                assert(buf@[j as int] != ':');
                assert(false);
            }
            let jj = find_colon(buf@)->0;
            if jj < j {
                assert(buf@[jj] == ':');
                assert(false);
            }
            if jj > j {
                assert(buf@[j as int] != ':');
                assert(false);
            }
            assert(find_colon(buf@) == Some(j as int));
        }
        (Some(vec_slice(buf, 0, j)), vec_slice(buf, j + 1, n))
    }
}

pub proof fn lemma_find_colon_bounds(s: Seq<char>)
    ensures
        match find_colon(s) {
            None => forall|i: int| 0 <= i < s.len() ==> s[i] != ':',
            Some(j) => 0 <= j < s.len() && s[j] == ':' && forall|i: int| 0 <= i < j ==> s[i] != ':',
        },
    decreases s.len(),
{
    if s.len() != 0 && s[0] != ':' {
        lemma_find_colon_bounds(s.drop_first());
        assert forall|i: int| 0 <= i < s.len() && i > 0 implies s[i] == s.drop_first()[i - 1] by {}
    }
}

/// Splits a qualified name `prefix:local` or `local` into its parts.
pub fn parse_qname(qname: &str) -> (r: (Option<String>, String))
    ensures
        crate::base::opt_str_view(r.0) == qname_prefix(qname@),
        r.1@ == qname_local(qname@),
{
    let chars = str_to_chars(qname);
    let (prefix, local) = qname_chars(&chars);
    let prefix_str = match prefix {
        Some(p) => Some(chars_to_string(&p)),
        None => None,
    };
    (prefix_str, chars_to_string(&local))
}

/// The binding of `key` in one frame, latest declaration first.
fn frame_lookup_exec(f: &Vec<(Vec<char>, Vec<char>)>, key: &Vec<char>) -> (r: Option<Vec<char>>)
    ensures
        opt_chars_view(r) == frame_lookup(frame_view(*f), key@),
{
    let mut i = f.len();
    proof {
        assert(frame_view(*f).take(i as int) =~= frame_view(*f));
    }
    while i > 0
        invariant
            i <= f@.len(),
            frame_lookup(frame_view(*f), key@) == frame_lookup(
                frame_view(*f).take(i as int),
                key@,
            ),
        decreases i,
    {
        i = i - 1;
        if chars_eq(&f[i].0, key) {
            proof {
                let fv = frame_view(*f);
                assert(fv.take(i + 1).last() == fv[i as int]);
                assert(fv[i as int].0 == f@[i as int].0@);
            }
            return Some(vec_slice(&f[i].1, 0, f[i].1.len()));
        }
        proof {
            let fv = frame_view(*f);
            assert(fv.take(i + 1).last() == fv[i as int]);
            assert(fv.take(i + 1).drop_last() =~= fv.take(i as int));
        }
    }
    proof {
        assert(frame_view(*f).take(0) =~= Seq::<(Seq<char>, Seq<char>)>::empty());
    }
    None
}

/// The binding of `key` in the stack of frames, searched top-down.
fn stack_lookup_exec(ns: &Vec<Vec<(Vec<char>, Vec<char>)>>, key: &Vec<char>) -> (r: Option<
    Vec<char>,
>)
    ensures
        opt_chars_view(r) == stack_lookup(stack_view(*ns), key@),
{
    let mut i = ns.len();
    proof {
        assert(stack_view(*ns).take(i as int) =~= stack_view(*ns));
    }
    while i > 0
        invariant
            i <= ns@.len(),
            stack_lookup(stack_view(*ns), key@) == stack_lookup(
                stack_view(*ns).take(i as int),
                key@,
            ),
        decreases i,
    {
        i = i - 1;
        proof {
            let sv = stack_view(*ns);
            assert(sv.take(i + 1).last() == sv[i as int]);
            assert(sv.take(i + 1).drop_last() =~= sv.take(i as int));
        }
        match frame_lookup_exec(&ns[i], key) {
            Some(v) => {
                return Some(v);
            },
            None => {},
        }
    }
    proof {
        assert(stack_view(*ns).take(0) =~= Seq::<FrameModel>::empty());
    }
    None
}


/// The namespace of an optional resolution result.
pub open spec fn opt_opt_view(o: Option<Option<Vec<char>>>) -> Option<Option<Seq<char>>> {
    match o {
        Option::None => Option::None,
        Option::Some(u) => Option::Some(opt_chars_view(u)),
    }
}

/// The meaning of one executed step: the tokenizer moved to the state the
/// automaton prescribes, and returned its event or error.
pub open spec fn step_result_matches(
    pre: ParserModel,
    post: ParserModel,
    c: char,
    r: Result<Option<Event>, Error>,
) -> bool {
    let m = spec_step(pre, c);
    &&& post == m.p
    &&& (match r {
        Ok(None) => m.event is None && m.err is None,
        Ok(Some(e)) => m.event == Some(e@) && m.err is None,
        Err(e) => m.err == Some(e@) && m.event is None,
    })
}

impl Parser {
    /// An error at the current position.
    fn error(&self, msg: &'static str) -> (r: Error)
        ensures
            r@ == (ErrorModel { line: self@.line, col: self@.col, msg: msg@ }),
    {
        Error { line: self.line, col: self.col, msg }
    }

    /// Resolution of an optional prefix against the namespace stack.
    fn resolve(&self, prefix: &Option<Vec<char>>) -> (r: Option<Option<Vec<char>>>)
        ensures
            opt_opt_view(r) == resolve_prefix(self@.namespaces, opt_chars_view(*prefix)),
    {
        match prefix {
            None => {
                let empty_key: Vec<char> = Vec::new();
                match stack_lookup_exec(&self.namespaces, &empty_key) {
                    None => Some(None),
                    Some(u) => {
                        if u.len() == 0 {
                            Some(None)
                        } else {
                            Some(Some(u))
                        }
                    },
                }
            },
            Some(p) => {
                match stack_lookup_exec(&self.namespaces, p) {
                    None => None,
                    Some(u) => {
                        if u.len() == 0 {
                            Some(None)
                        } else {
                            Some(Some(u))
                        }
                    },
                }
            },
        }
    }

    fn outside_tag(&mut self, c: char) -> (r: Result<Option<Event>, Error>)
        requires
            old(self)@.st == State::OutsideTag,
            wf(old(self)@),
        ensures
            step_result_matches(old(self)@, final(self)@, c, r),
    {
        if c == '<' {
            self.st = State::TagOpened;
            if self.buf.len() > 0 {
                match crate::codec::unescape_chars(&self.buf) {
                    Ok(text) => {
                        self.buf.clear();
                        let ev = Event::Characters(chars_to_string(&text));
                        proof {
                            assert(self@ =~= spec_step(old(self)@, c).p);
                        }
                        Ok(Some(ev))
                    },
                    Err(_) => {
                        let e = self.error("Found invalid entity");
                        proof {
                            assert(self@ =~= spec_step(old(self)@, c).p);
                        }
                        Err(e)
                    },
                }
            } else {
                proof {
                    assert(self@ =~= spec_step(old(self)@, c).p);
                }
                Ok(None)
            }
        } else {
            self.buf.push(c);
            proof {
                assert(self@ =~= spec_step(old(self)@, c).p);
            }
            Ok(None)
        }
    }

    fn tag_opened(&mut self, c: char) -> (r: Result<Option<Event>, Error>)
        requires
            old(self)@.st == State::TagOpened,
            wf(old(self)@),
        ensures
            step_result_matches(old(self)@, final(self)@, c, r),
    {
        if c == '?' {
            self.st = State::InProcessingInstructions;
        } else if c == '!' {
            self.st = State::InExclamationMark;
        } else if c == '/' {
            self.st = State::InCloseTagName;
        } else {
            self.buf.push(c);
            self.st = State::InTagName;
        }
        proof {
            assert(self@ =~= spec_step(old(self)@, c).p);
        }
        Ok(None)
    }

    fn in_processing_instructions(&mut self, c: char) -> (r: Result<Option<Event>, Error>)
        requires
            old(self)@.st == State::InProcessingInstructions,
            wf(old(self)@),
        ensures
            step_result_matches(old(self)@, final(self)@, c, r),
    {
        if c == '?' {
            self.level = 1;
            self.buf.push(c);
            proof {
                assert(self@ =~= spec_step(old(self)@, c).p);
            }
            Ok(None)
        } else if c == '>' && self.level == 1 {
            self.level = 0;
            self.st = State::OutsideTag;
            let text = vec_slice(&self.buf, 0, self.buf.len() - 1);
            self.buf.clear();
            let ev = Event::PI(chars_to_string(&text));
            proof {
                assert(text@ =~= old(self)@.buf.drop_last());
                assert(self@ =~= spec_step(old(self)@, c).p);
            }
            Ok(Some(ev))
        } else {
            self.buf.push(c);
            proof {
                assert(self@ =~= spec_step(old(self)@, c).p);
            }
            Ok(None)
        }
    }

    fn in_attr_name(&mut self, c: char) -> (r: Result<Option<Event>, Error>)
        requires
            old(self)@.st == State::InAttrName,
            wf(old(self)@),
        ensures
            step_result_matches(old(self)@, final(self)@, c, r),
    {
        if c == '=' {
            self.level = 0;
            let (prefix, name) = qname_chars(&self.buf);
            self.attr_prefix = prefix;
            self.attr_name = name;
            self.buf.clear();
            self.st = State::ExpectDelimiter;
            proof {
                assert(self@ =~= spec_step(old(self)@, c).p);
            }
            Ok(None)
        } else if c == ' ' || c == '\t' || c == '\r' || c == '\n' {
            self.level = 1;
            proof {
                assert(self@ =~= spec_step(old(self)@, c).p);
            }
            Ok(None)
        } else if self.level == 0 {
            self.buf.push(c);
            proof {
                assert(self@ =~= spec_step(old(self)@, c).p);
            }
            Ok(None)
        } else {
            let e = self.error("Space occured in attribute name");
            proof {
                assert(self@ =~= spec_step(old(self)@, c).p);
            }
            Err(e)
        }
    }

    fn expect_delimiter(&mut self, c: char) -> (r: Result<Option<Event>, Error>)
        requires
            old(self)@.st == State::ExpectDelimiter,
            wf(old(self)@),
        ensures
            step_result_matches(old(self)@, final(self)@, c, r),
    {
        if c == '"' || c == '\'' {
            self.delim = Some(c);
            self.st = State::InAttrValue;
            proof {
                assert(self@ =~= spec_step(old(self)@, c).p);
            }
            Ok(None)
        } else if c == ' ' || c == '\t' || c == '\r' || c == '\n' {
            proof {
                assert(self@ =~= spec_step(old(self)@, c).p);
            }
            Ok(None)
        } else {
            let e = self.error("Attribute value not enclosed in ' or \"");
            proof {
                assert(self@ =~= spec_step(old(self)@, c).p);
            }
            Err(e)
        }
    }

    fn expect_space_or_close(&mut self, c: char) -> (r: Result<Option<Event>, Error>)
        requires
            old(self)@.st == State::ExpectSpaceOrClose,
            wf(old(self)@),
        ensures
            step_result_matches(old(self)@, final(self)@, c, r),
    {
        if c == ' ' || c == '\t' || c == '\r' || c == '\n' {
            proof {
                assert(self@ =~= spec_step(old(self)@, c).p);
            }
            Ok(None)
        } else if c == '>' {
            self.st = State::OutsideTag;
            proof {
                assert(self@ =~= spec_step(old(self)@, c).p);
            }
            Ok(None)
        } else {
            let e = self.error("Expected '>' to close tag, or LWS");
            proof {
                assert(self@ =~= spec_step(old(self)@, c).p);
            }
            Err(e)
        }
    }

    fn in_exclamation_mark(&mut self, c: char) -> (r: Result<Option<Event>, Error>)
        requires
            old(self)@.st == State::InExclamationMark,
            wf(old(self)@),
        ensures
            step_result_matches(old(self)@, final(self)@, c, r),
    {
        if c == '-' {
            self.st = State::InCommentOpening;
        } else if c == '[' {
            self.st = State::InCDATAOpening;
        } else if c == 'D' {
            self.st = State::InDoctype;
        } else {
            let e = self.error("Malformed XML");
            proof {
                assert(self@ =~= spec_step(old(self)@, c).p);
            }
            return Err(e);
        }
        proof {
            assert(self@ =~= spec_step(old(self)@, c).p);
        }
        Ok(None)
    }

    fn in_cdata_opening(&mut self, c: char) -> (r: Result<Option<Event>, Error>)
        requires
            old(self)@.st == State::InCDATAOpening,
            wf(old(self)@),
        ensures
            step_result_matches(old(self)@, final(self)@, c, r),
    {
        let expected: char = if self.level == 0 {
            'C'
        } else if self.level == 1 {
            'D'
        } else if self.level == 2 {
            'A'
        } else if self.level == 3 {
            'T'
        } else if self.level == 4 {
            'A'
        } else {
            '['
        };
        if c == expected {
            if self.level + 1 == 6 {
                self.level = 0;
                self.st = State::InCDATA;
            } else {
                self.level = self.level + 1;
            }
            proof {
                assert(self@ =~= spec_step(old(self)@, c).p);
            }
            Ok(None)
        } else {
            let e = self.error("Invalid CDATA opening sequence");
            proof {
                assert(self@ =~= spec_step(old(self)@, c).p);
            }
            Err(e)
        }
    }

    fn in_cdata(&mut self, c: char) -> (r: Result<Option<Event>, Error>)
        requires
            old(self)@.st == State::InCDATA,
            wf(old(self)@),
        ensures
            step_result_matches(old(self)@, final(self)@, c, r),
    {
        if c == ']' {
            self.buf.push(c);
            let n = self.buf.len();
            proof {
                assert(self.level < n);
            }
            self.level = self.level + 1;
            proof {
                assert(self@ =~= spec_step(old(self)@, c).p);
            }
            Ok(None)
        } else if c == '>' && self.level >= 2 {
            self.st = State::OutsideTag;
            self.level = 0;
            let text = vec_slice(&self.buf, 0, self.buf.len() - 2);
            self.buf.clear();
            let ev = Event::CDATA(chars_to_string(&text));
            proof {
                assert(text@ =~= old(self)@.buf.take(old(self)@.buf.len() - 2));
                assert(self@ =~= spec_step(old(self)@, c).p);
            }
            Ok(Some(ev))
        } else {
            self.buf.push(c);
            self.level = 0;
            proof {
                assert(self@ =~= spec_step(old(self)@, c).p);
            }
            Ok(None)
        }
    }

    fn in_comment_opening(&mut self, c: char) -> (r: Result<Option<Event>, Error>)
        requires
            old(self)@.st == State::InCommentOpening,
            wf(old(self)@),
        ensures
            step_result_matches(old(self)@, final(self)@, c, r),
    {
        if c == '-' {
            self.st = State::InComment1;
            self.level = 0;
            proof {
                assert(self@ =~= spec_step(old(self)@, c).p);
            }
            Ok(None)
        } else {
            let e = self.error("Expected 2nd '-' to start comment");
            proof {
                assert(self@ =~= spec_step(old(self)@, c).p);
            }
            Err(e)
        }
    }

    fn in_comment1(&mut self, c: char) -> (r: Result<Option<Event>, Error>)
        requires
            old(self)@.st == State::InComment1,
            wf(old(self)@),
        ensures
            step_result_matches(old(self)@, final(self)@, c, r),
    {
        if c == '-' {
            self.level = self.level + 1;
        } else {
            self.level = 0;
        }
        if self.level == 2 {
            self.level = 0;
            self.st = State::InComment2;
        }
        self.buf.push(c);
        proof {
            assert(self@ =~= spec_step(old(self)@, c).p);
        }
        Ok(None)
    }

    fn in_comment2(&mut self, c: char) -> (r: Result<Option<Event>, Error>)
        requires
            old(self)@.st == State::InComment2,
            wf(old(self)@),
        ensures
            step_result_matches(old(self)@, final(self)@, c, r),
    {
        if c != '>' {
            let e = self.error("Not more than one adjacent '-' allowed in a comment");
            proof {
                assert(self@ =~= spec_step(old(self)@, c).p);
            }
            Err(e)
        } else {
            self.st = State::OutsideTag;
            let text = vec_slice(&self.buf, 0, self.buf.len() - 2);
            self.buf.clear();
            let ev = Event::Comment(chars_to_string(&text));
            proof {
                assert(text@ =~= old(self)@.buf.take(old(self)@.buf.len() - 2));
                assert(self@ =~= spec_step(old(self)@, c).p);
            }
            Ok(Some(ev))
        }
    }

    fn in_doctype(&mut self, c: char) -> (r: Result<Option<Event>, Error>)
        requires
            old(self)@.st == State::InDoctype,
            wf(old(self)@),
        ensures
            step_result_matches(old(self)@, final(self)@, c, r),
    {
        if self.level <= 5 {
            let expected: char = if self.level == 0 {
                'O'
            } else if self.level == 1 {
                'C'
            } else if self.level == 2 {
                'T'
            } else if self.level == 3 {
                'Y'
            } else if self.level == 4 {
                'P'
            } else {
                'E'
            };
            if c == expected {
                self.level = self.level + 1;
                proof {
                    assert(self@ =~= spec_step(old(self)@, c).p);
                }
                Ok(None)
            } else {
                let e = self.error("Invalid DOCTYPE");
                proof {
                    assert(self@ =~= spec_step(old(self)@, c).p);
                }
                Err(e)
            }
        } else if self.level == 6 {
            if c == ' ' || c == '\t' || c == '\r' || c == '\n' {
                self.level = 7;
                proof {
                    assert(self@ =~= spec_step(old(self)@, c).p);
                }
                Ok(None)
            } else {
                let e = self.error("Invalid DOCTYPE");
                proof {
                    assert(self@ =~= spec_step(old(self)@, c).p);
                }
                Err(e)
            }
        } else if c == '>' {
            self.level = 0;
            self.st = State::OutsideTag;
            proof {
                assert(self@ =~= spec_step(old(self)@, c).p);
            }
            Ok(None)
        } else {
            proof {
                assert(self@ =~= spec_step(old(self)@, c).p);
            }
            Ok(None)
        }
    }
}


/// An optional name copied out as a `String`.
fn opt_string(o: &Option<Vec<char>>) -> (r: Option<String>)
    ensures
        crate::base::opt_str_view(r) == opt_chars_view(*o),
{
    match o {
        None => None,
        Some(v) => Some(chars_to_string(v)),
    }
}

/// Whether a buffered name is the reserved word `xmlns`.
fn is_xmlns(v: &Vec<char>) -> (r: bool)
    ensures
        r == (v@ == xmlns_prefix()),
{
    if v.len() == 5 && v[0] == 'x' && v[1] == 'm' && v[2] == 'l' && v[3] == 'n' && v[4] == 's' {
        proof {
            assert(v@ =~= xmlns_prefix());
        }
        true
    } else {
        proof {
            if v@ == xmlns_prefix() {
                assert(v@[0] == 'x' && v@[1] == 'm' && v@[2] == 'l' && v@[3] == 'n' && v@[4]
                    == 's');
            }
        }
        false
    }
}

/// A namespace frame copied out as strings.
#[verifier::loop_isolation(false)]
fn frame_to_strings(f: &Vec<(Vec<char>, Vec<char>)>) -> (r: Vec<(String, String)>)
    ensures
        crate::base::decls_view(r@) == frame_view(*f),
{
    let mut r: Vec<(String, String)> = Vec::new();
    let mut i: usize = 0;
    proof {
        assert(crate::base::decls_view(r@) =~= frame_view(*f).take(0));
    }
    while i < f.len()
        invariant
            i <= f@.len(),
            crate::base::decls_view(r@) == frame_view(*f).take(i as int),
        decreases f@.len() - i,
    {
        r.push((chars_to_string(&f[i].0), chars_to_string(&f[i].1)));
        proof {
            assert(crate::base::decls_view(r@) =~= frame_view(*f).take(i + 1));
        }
        i = i + 1;
    }
    proof {
        assert(frame_view(*f).take(f@.len() as int) =~= frame_view(*f));
    }
    r
}

impl Parser {
    fn in_tag_name(&mut self, c: char) -> (r: Result<Option<Event>, Error>)
        requires
            old(self)@.st == State::InTagName,
            wf(old(self)@),
        ensures
            step_result_matches(old(self)@, final(self)@, c, r),
    {
        if c == '/' || c == '>' {
            let (prefix, local) = qname_chars(&self.buf);
            self.buf.clear();
            let resolved = self.resolve(&prefix);
            let name_str = chars_to_string(&local);
            let prefix_str = opt_string(&prefix);
            self.name = local;
            self.prefix = prefix;
            match resolved {
                None => {
                    let e = self.error("Unbound prefix");
                    proof {
                        assert(final(self)@ =~= spec_step(old(self)@, c).p);
                    }
                    Err(e)
                },
                Some(ns) => {
                    self.namespaces.push(Vec::new());
                    self.st = if c == '/' {
                        State::ExpectClose
                    } else {
                        State::OutsideTag
                    };
                    let ev = Event::StartTag(
                        StartTag {
                            name: name_str,
                            ns: opt_string(&ns),
                            prefix: prefix_str,
                            attributes: Vec::new(),
                            declared: Vec::new(),
                        },
                    );
                    proof {
                        assert(stack_view(self.namespaces) =~~= old(self)@.namespaces.push(
                            Seq::empty(),
                        ));
                        assert(final(self)@ =~= spec_step(old(self)@, c).p);
                        assert(ev@->StartTag_0.attributes =~= Seq::<AttributeModel>::empty());
                        assert(ev@->StartTag_0.declared =~= Seq::<(Seq<char>, Seq<char>)>::empty());
                        assert(ev@ =~= spec_step(old(self)@, c).event->0);
                    }
                    Ok(Some(ev))
                },
            }
        } else if c == ' ' || c == '\t' || c == '\r' || c == '\n' {
            let (prefix, local) = qname_chars(&self.buf);
            self.buf.clear();
            self.name = local;
            self.prefix = prefix;
            self.namespaces.push(Vec::new());
            self.st = State::InTag;
            proof {
                assert(stack_view(self.namespaces) =~~= old(self)@.namespaces.push(Seq::empty()));
                assert(final(self)@ =~= spec_step(old(self)@, c).p);
            }
            Ok(None)
        } else {
            self.buf.push(c);
            proof {
                assert(final(self)@ =~= spec_step(old(self)@, c).p);
            }
            Ok(None)
        }
    }

    fn in_close_tag_name(&mut self, c: char) -> (r: Result<Option<Event>, Error>)
        requires
            old(self)@.st == State::InCloseTagName,
            wf(old(self)@),
        ensures
            step_result_matches(old(self)@, final(self)@, c, r),
    {
        if c == ' ' || c == '\t' || c == '\r' || c == '\n' || c == '>' {
            let (prefix, local) = qname_chars(&self.buf);
            self.buf.clear();
            match self.resolve(&prefix) {
                None => {
                    let e = self.error("Unbound prefix");
                    proof {
                        assert(final(self)@ =~= spec_step(old(self)@, c).p);
                    }
                    Err(e)
                },
                Some(ns) => {
                    if self.namespaces.len() > 1 {
                        let _ = self.namespaces.pop();
                        proof {
                            assert(stack_view(self.namespaces)
                                =~= old(self)@.namespaces.drop_last());
                        }
                    }
                    self.st = if c == '>' {
                        State::OutsideTag
                    } else {
                        State::ExpectSpaceOrClose
                    };
                    let ev = Event::EndTag(
                        EndTag {
                            name: chars_to_string(&local),
                            ns: opt_string(&ns),
                            prefix: opt_string(&prefix),
                        },
                    );
                    proof {
                        assert(final(self)@ =~= spec_step(old(self)@, c).p);
                        assert(ev@ =~= spec_step(old(self)@, c).event->0);
                    }
                    Ok(Some(ev))
                },
            }
        } else {
            self.buf.push(c);
            proof {
                assert(final(self)@ =~= spec_step(old(self)@, c).p);
            }
            Ok(None)
        }
    }

    fn expect_close(&mut self, c: char) -> (r: Result<Option<Event>, Error>)
        requires
            old(self)@.st == State::ExpectClose,
            wf(old(self)@),
        ensures
            step_result_matches(old(self)@, final(self)@, c, r),
    {
        if c == '>' {
            match self.resolve(&self.prefix) {
                None => {
                    let e = self.error("Unbound prefix");
                    proof {
                        assert(final(self)@ =~= spec_step(old(self)@, c).p);
                    }
                    Err(e)
                },
                Some(ns) => {
                    let ev = Event::EndTag(
                        EndTag {
                            name: chars_to_string(&self.name),
                            ns: opt_string(&ns),
                            prefix: opt_string(&self.prefix),
                        },
                    );
                    if self.namespaces.len() > 1 {
                        let _ = self.namespaces.pop();
                        proof {
                            assert(stack_view(self.namespaces)
                                =~= old(self)@.namespaces.drop_last());
                        }
                    }
                    self.name = Vec::new();
                    self.prefix = None;
                    self.st = State::OutsideTag;
                    proof {
                        assert(final(self)@ =~= spec_step(old(self)@, c).p);
                        assert(ev@ =~= spec_step(old(self)@, c).event->0);
                    }
                    Ok(Some(ev))
                },
            }
        } else {
            let e = self.error("Expected '>' to close tag");
            proof {
                assert(final(self)@ =~= spec_step(old(self)@, c).p);
            }
            Err(e)
        }
    }

    fn in_attr_value(&mut self, c: char) -> (r: Result<Option<Event>, Error>)
        requires
            old(self)@.st == State::InAttrValue,
            wf(old(self)@),
        ensures
            step_result_matches(old(self)@, final(self)@, c, r),
    {
        let hit = match self.delim {
            Some(d) => d == c,
            None => false,
        };
        if hit {
            self.delim = None;
            self.st = State::InTag;
            let mut name: Vec<char> = Vec::new();
            core::mem::swap(&mut name, &mut self.attr_name);
            match crate::codec::unescape_chars(&self.buf) {
                Err(_) => {
                    let e = self.error("Found invalid entity");
                    proof {
                        assert(final(self)@ =~= spec_step(old(self)@, c).p);
                    }
                    Err(e)
                },
                Ok(value) => {
                    self.buf.clear();
                    let mut prefix: Option<Vec<char>> = None;
                    core::mem::swap(&mut prefix, &mut self.attr_prefix);
                    let default_decl = match &prefix {
                        None => is_xmlns(&name),
                        Some(_) => false,
                    };
                    let prefixed_decl = match &prefix {
                        Some(px) => is_xmlns(px),
                        None => false,
                    };
                    if default_decl {
                        let mut frame = match self.namespaces.pop() {
                            Some(f) => f,
                            None => Vec::new(),
                        };
                        frame.push((Vec::new(), value));
                        self.namespaces.push(frame);
                        proof {
                            assert(stack_view(self.namespaces) =~~= install_binding(
                                old(self)@.namespaces,
                                Seq::empty(),
                                spec_unescape(old(self)@.buf)->Ok_0,
                            ));
                            assert(final(self)@ =~= spec_step(old(self)@, c).p);
                        }
                        Ok(None)
                    } else if prefixed_decl {
                        let mut frame = match self.namespaces.pop() {
                            Some(f) => f,
                            None => Vec::new(),
                        };
                        frame.push((name, value));
                        self.namespaces.push(frame);
                        proof {
                            assert(stack_view(self.namespaces) =~~= install_binding(
                                old(self)@.namespaces,
                                old(self)@.attr_name,
                                spec_unescape(old(self)@.buf)->Ok_0,
                            ));
                            assert(final(self)@ =~= spec_step(old(self)@, c).p);
                        }
                        Ok(None)
                    } else {
                        self.attributes.push(RawAttr { name, prefix, value });
                        proof {
                            assert(final(self)@.attributes =~= old(self)@.attributes.push(
                                RawAttrModel {
                                    name: old(self)@.attr_name,
                                    prefix: old(self)@.attr_prefix,
                                    value: spec_unescape(old(self)@.buf)->Ok_0,
                                },
                            ));
                            assert(final(self)@ =~= spec_step(old(self)@, c).p);
                        }
                        Ok(None)
                    }
                },
            }
        } else {
            self.buf.push(c);
            proof {
                assert(final(self)@ =~= spec_step(old(self)@, c).p);
            }
            Ok(None)
        }
    }

    #[verifier::loop_isolation(false)]
    fn in_tag(&mut self, c: char) -> (r: Result<Option<Event>, Error>)
        requires
            old(self)@.st == State::InTag,
            wf(old(self)@),
        ensures
            step_result_matches(old(self)@, final(self)@, c, r),
    {
        if c == '/' || c == '>' {
            match self.resolve(&self.prefix) {
                None => {
                    let e = self.error("Unbound prefix");
                    proof {
                        assert(final(self)@ =~= spec_step(old(self)@, c).p);
                    }
                    Err(e)
                },
                Some(ns) => {
                    let ghost attrs_m = self@.attributes;
                    let mut resolved_attrs: Vec<Attribute> = Vec::new();
                    let mut i: usize = 0;
                    proof {
                        assert(attrs_m.take(0) =~= Seq::<RawAttrModel>::empty());
                        assert(crate::base::attrs_view(resolved_attrs@) =~= Seq::<
                            AttributeModel,
                        >::empty());
                    }
                    while i < self.attributes.len()
                        invariant
                            i <= self.attributes@.len(),
                            *self == *old(self),
                            attrs_m == self@.attributes,
                            resolve_attrs(self@.namespaces, attrs_m.take(i as int)) == Some(
                                crate::base::attrs_view(resolved_attrs@),
                            ),
                        decreases self.attributes@.len() - i,
                    {
                        proof {
                            assert(attrs_m.take(i + 1).drop_last() =~= attrs_m.take(i as int));
                            assert(attrs_m.take(i + 1).last() == attrs_m[i as int]);
                        }
                        let a_name = chars_to_string(&self.attributes[i].name);
                        let a_value = chars_to_string(&self.attributes[i].value);
                        let has_prefix = self.attributes[i].prefix.is_some();
                        if has_prefix {
                            match self.resolve(&self.attributes[i].prefix) {
                                None => {
                                    let e = self.error("Unbound prefix");
                                    proof {
                                        assert(resolve_attrs(
                                            old(self)@.namespaces,
                                            old(self)@.attributes,
                                        ) is None) by {
                                            lemma_resolve_attrs_unbound(
                                                old(self)@.namespaces,
                                                old(self)@.attributes,
                                                i as int,
                                            );
                                        }
                                        assert(final(self)@ =~= spec_step(old(self)@, c).p);
                                    }
                                    return Err(e);
                                },
                                Some(ans) => {
                                    let ghost rm0 = crate::base::attrs_view(resolved_attrs@);
                                    resolved_attrs.push(
                                        Attribute { name: a_name, ns: opt_string(&ans), value: a_value },
                                    );
                                    proof {
                                        assert(crate::base::attrs_view(resolved_attrs@)
                                            =~= rm0.push(resolved_attrs@.last()@));
                                    }
                                },
                            }
                        } else {
                            let ghost rm0 = crate::base::attrs_view(resolved_attrs@);
                            resolved_attrs.push(
                                Attribute { name: a_name, ns: None, value: a_value },
                            );
                            proof {
                                assert(crate::base::attrs_view(resolved_attrs@)
                                    =~= rm0.push(resolved_attrs@.last()@));
                            }
                        }
                        i = i + 1;
                    }
                    proof {
                        assert(attrs_m.take(attrs_m.len() as int) =~= attrs_m);
                    }
                    let li = self.namespaces.len() - 1;
                    let declared = frame_to_strings(&self.namespaces[li]);
                    let ev = Event::StartTag(
                        StartTag {
                            name: chars_to_string(&self.name),
                            ns: opt_string(&ns),
                            prefix: opt_string(&self.prefix),
                            attributes: resolved_attrs,
                            declared,
                        },
                    );
                    self.attributes.clear();
                    if c == '/' {
                        self.st = State::ExpectClose;
                    } else {
                        self.name = Vec::new();
                        self.prefix = None;
                        self.st = State::OutsideTag;
                    }
                    proof {
                        assert(final(self)@.attributes =~= Seq::<RawAttrModel>::empty());
                        assert(final(self)@ =~= spec_step(old(self)@, c).p);
                        assert(ev@ =~= spec_step(old(self)@, c).event->0);
                    }
                    Ok(Some(ev))
                },
            }
        } else if c == ' ' || c == '\t' || c == '\r' || c == '\n' {
            proof {
                assert(final(self)@ =~= spec_step(old(self)@, c).p);
            }
            Ok(None)
        } else {
            self.buf.push(c);
            self.st = State::InAttrName;
            proof {
                assert(final(self)@ =~= spec_step(old(self)@, c).p);
            }
            Ok(None)
        }
    }
}

/// If resolution fails on the attribute at index `i` and succeeds on every
/// earlier one, the whole resolution fails.
proof fn lemma_resolve_attrs_unbound(ns: Seq<FrameModel>, attrs: Seq<RawAttrModel>, i: int)
    requires
        0 <= i < attrs.len(),
        attrs[i].prefix is Some,
        resolve_prefix(ns, attrs[i].prefix) is None,
        resolve_attrs(ns, attrs.take(i)) is Some,
    ensures
        resolve_attrs(ns, attrs) is None,
    decreases attrs.len(),
{
    if attrs.len() - 1 == i {
        assert(attrs.drop_last() =~= attrs.take(i));
        assert(attrs.last() == attrs[i]);
    } else {
        assert(attrs.drop_last().take(i) =~= attrs.take(i));
        assert(attrs.drop_last()[i] == attrs[i]);
        lemma_resolve_attrs_unbound(ns, attrs.drop_last(), i);
    }
}


/// The model of a sequence of tokenizer outputs.
pub open spec fn results_view(s: Seq<Result<Event, Error>>) -> Seq<Result<EventModel, ErrorModel>> {
    s.map_values(|r: Result<Event, Error>| crate::base::res_view(r))
}

/// A sequence of events, each wrapped as a success.
pub open spec fn oks_view(s: Seq<EventModel>) -> Seq<Result<EventModel, ErrorModel>> {
    s.map_values(|e: EventModel| Result::<EventModel, ErrorModel>::Ok(e))
}

/// The events one step yields: none or one.
pub open spec fn opt_event_seq(e: Option<EventModel>) -> Seq<EventModel> {
    match e {
        None => Seq::empty(),
        Some(ev) => seq![ev],
    }
}

/// The outcome of feeding a fragment: the final state, the emitted events,
/// and the error that stopped the feed, if one did.
#[verifier::ext_equal]
pub ghost struct FeedModel {
    pub p: ParserModel,
    pub events: Seq<EventModel>,
    pub err: Option<ErrorModel>,
}

/// Feeding a fragment character by character.  Characters after the first
/// error are not consumed.
pub open spec fn spec_feed(p: ParserModel, s: Seq<char>) -> FeedModel
    decreases s.len(),
{
    if s.len() == 0 {
        FeedModel { p, events: Seq::empty(), err: None }
    } else {
        let m = spec_feed_char(p, s[0]);
        if m.err is Some {
            FeedModel { p: m.p, events: Seq::empty(), err: m.err }
        } else {
            let rest = spec_feed(m.p, s.drop_first());
            FeedModel { p: rest.p, events: opt_event_seq(m.event) + rest.events, err: rest.err }
        }
    }
}

/// The outputs a feed hands back: its events as successes, then its error,
/// if one stopped it.
pub open spec fn feed_results(out: FeedModel) -> Seq<Result<EventModel, ErrorModel>> {
    oks_view(out.events) + (match out.err {
        None => Seq::empty(),
        Some(e) => seq![Result::<EventModel, ErrorModel>::Err(e)],
    })
}

/// Law: feeding a well-formed input split at an arbitrary boundary into two
/// fragments yields exactly the events of feeding it in one piece: the
/// fragments' event sequences concatenate, the states agree, and so does
/// the error, provided the first fragment raises none.
pub proof fn lemma_feed_split(p: ParserModel, a: Seq<char>, b: Seq<char>)
    requires
        spec_feed(p, a).err is None,
    ensures
        ({
            let fa = spec_feed(p, a);
            let fb = spec_feed(fa.p, b);
            spec_feed(p, a + b) == (FeedModel {
                p: fb.p,
                events: fa.events + fb.events,
                err: fb.err,
            })
        }),
    decreases a.len(),
{
    let fa = spec_feed(p, a);
    let fb = spec_feed(fa.p, b);
    if a.len() == 0 {
        assert(a + b =~= b);
        assert(fa.p == p);
        assert(fa.events + fb.events =~= fb.events);
        assert(spec_feed(p, a + b) =~= (FeedModel {
            p: fb.p,
            events: fa.events + fb.events,
            err: fb.err,
        }));
    } else {
        let m = spec_feed_char(p, a[0]);
        assert(m.err is None) by {
            if m.err is Some {
                assert(fa.err == m.err);
            }
        }
        let fa2 = spec_feed(m.p, a.drop_first());
        assert(fa2.err is None) by {
            assert(fa.err == fa2.err);
        }
        lemma_feed_split(m.p, a.drop_first(), b);
        assert((a + b).len() > 0);
        assert((a + b)[0] == a[0]);
        assert((a + b).drop_first() =~= a.drop_first() + b);
        let fb2 = spec_feed(fa2.p, b);
        assert(fa2.p == fa.p);
        assert(fb2 == fb);
        assert(opt_event_seq(m.event) + (fa2.events + fb.events) =~= (opt_event_seq(m.event)
            + fa2.events) + fb.events);
        assert(spec_feed(p, a + b) =~= (FeedModel {
            p: fb.p,
            events: fa.events + fb.events,
            err: fb.err,
        }));
    }
}

/// Unfolding of a feed at its next character: the step either extends the
/// events or stops the feed with its error.
pub proof fn lemma_feed_snoc(p: ParserModel, s: Seq<char>, i: int)
    requires
        0 <= i < s.len(),
        spec_feed(p, s.take(i)).err is None,
    ensures
        ({
            let sofar = spec_feed(p, s.take(i));
            let m = spec_feed_char(sofar.p, s[i]);
            spec_feed(p, s.take(i + 1)) == (if m.err is Some {
                FeedModel { p: m.p, events: sofar.events, err: m.err }
            } else {
                FeedModel { p: m.p, events: sofar.events + opt_event_seq(m.event), err: None }
            })
        }),
{
    let sofar = spec_feed(p, s.take(i));
    let m = spec_feed_char(sofar.p, s[i]);
    assert(s.take(i + 1) =~= s.take(i) + seq![s[i]]);
    lemma_feed_split(p, s.take(i), seq![s[i]]);
    let one = spec_feed(sofar.p, seq![s[i]]);
    assert(seq![s[i]][0] == s[i]);
    assert(seq![s[i]].drop_first() =~= Seq::<char>::empty());
    if m.err is Some {
        assert(one == (FeedModel { p: m.p, events: Seq::empty(), err: m.err }));
        assert(sofar.events + Seq::<EventModel>::empty() =~= sofar.events);
        assert(spec_feed(p, s.take(i + 1)) =~= (FeedModel {
            p: m.p,
            events: sofar.events,
            err: m.err,
        }));
    } else {
        assert(spec_feed(m.p, seq![s[i]].drop_first()) == (FeedModel {
            p: m.p,
            events: Seq::<EventModel>::empty(),
            err: None,
        }));
        assert(opt_event_seq(m.event) + Seq::<EventModel>::empty() =~= opt_event_seq(m.event));
        assert(one == (FeedModel { p: m.p, events: opt_event_seq(m.event), err: None }));
        assert(spec_feed(p, s.take(i + 1)) =~= (FeedModel {
            p: m.p,
            events: sofar.events + opt_event_seq(m.event),
            err: None,
        }));
    }
}

/// A feed that errs at position `i` ends there: what follows the offending
/// character is not consumed.
pub proof fn lemma_feed_stops(p: ParserModel, s: Seq<char>, i: int)
    requires
        0 <= i < s.len(),
        spec_feed(p, s.take(i)).err is None,
        spec_feed_char(spec_feed(p, s.take(i)).p, s[i]).err is Some,
    ensures
        ({
            let sofar = spec_feed(p, s.take(i));
            let m = spec_feed_char(sofar.p, s[i]);
            spec_feed(p, s) == (FeedModel { p: m.p, events: sofar.events, err: m.err })
        }),
{
    let sofar = spec_feed(p, s.take(i));
    let m = spec_feed_char(sofar.p, s[i]);
    assert(s =~= s.take(i) + s.skip(i));
    lemma_feed_split(p, s.take(i), s.skip(i));
    assert(s.skip(i).len() > 0);
    assert(s.skip(i)[0] == s[i]);
    let tail_out = spec_feed(sofar.p, s.skip(i));
    assert(tail_out == (FeedModel { p: m.p, events: Seq::<EventModel>::empty(), err: m.err }));
    assert(sofar.events + Seq::<EventModel>::empty() =~= sofar.events);
    assert(spec_feed(p, s) =~= (FeedModel { p: m.p, events: sofar.events, err: m.err }));
}

impl Parser {
    /// Position bookkeeping for one consumed character.
    fn advance_pos(&mut self, c: char)
        ensures
            final(self)@ == spec_advance_pos(old(self)@, c),
    {
        if c == '\n' {
            if self.line < usize::MAX {
                self.line = self.line + 1;
            }
            self.col = 0;
        } else {
            if self.col < usize::MAX {
                self.col = self.col + 1;
            }
        }
        proof {
            assert(final(self)@ =~= spec_advance_pos(old(self)@, c));
        }
    }

    /// One step of the automaton on one character.
    fn parse_character(&mut self, c: char) -> (r: Result<Option<Event>, Error>)
        requires
            wf(old(self)@),
        ensures
            step_result_matches(old(self)@, final(self)@, c, r),
            wf(final(self)@),
    {
        proof {
            lemma_step_wf(old(self)@, c);
        }
        let st = self.st;
        match st {
            State::OutsideTag => self.outside_tag(c),
            State::TagOpened => self.tag_opened(c),
            State::InProcessingInstructions => self.in_processing_instructions(c),
            State::InTagName => self.in_tag_name(c),
            State::InCloseTagName => self.in_close_tag_name(c),
            State::InTag => self.in_tag(c),
            State::InAttrName => self.in_attr_name(c),
            State::InAttrValue => self.in_attr_value(c),
            State::ExpectDelimiter => self.expect_delimiter(c),
            State::ExpectClose => self.expect_close(c),
            State::ExpectSpaceOrClose => self.expect_space_or_close(c),
            State::InExclamationMark => self.in_exclamation_mark(c),
            State::InCDATAOpening => self.in_cdata_opening(c),
            State::InCDATA => self.in_cdata(c),
            State::InCommentOpening => self.in_comment_opening(c),
            State::InComment1 => self.in_comment1(c),
            State::InComment2 => self.in_comment2(c),
            State::InDoctype => self.in_doctype(c),
        }
    }

    /// Feeds the fragment `data` and returns the events it produces, in
    /// order.  Feeding stops at the first error, which is returned as the
    /// last element; what follows the offending character in this fragment
    /// is not consumed.  A fragment may end anywhere: the tokenizer resumes
    /// mid-token on the next call.
    #[verifier::loop_isolation(false)]
    pub fn feed_str(&mut self, data: &str) -> (events: Vec<Result<Event, Error>>)
        requires
            wf(old(self)@),
        ensures
            wf(final(self)@),
            final(self)@ == spec_feed(old(self)@, data@).p,
            results_view(events@) == feed_results(spec_feed(old(self)@, data@)),
    {
        let chars = str_to_chars(data);
        let mut events: Vec<Result<Event, Error>> = Vec::new();
        let mut i: usize = 0;
        proof {
            assert(data@.take(0) =~= Seq::<char>::empty());
            assert(results_view(events@) =~= oks_view(spec_feed(old(self)@, data@.take(0)).events));
        }
        while i < chars.len()
            invariant
                i <= chars@.len(),
                wf(self@),
                spec_feed(old(self)@, data@.take(i as int)).err is None,
                self@ == spec_feed(old(self)@, data@.take(i as int)).p,
                results_view(events@) == oks_view(spec_feed(old(self)@, data@.take(i as int)).events),
            decreases chars@.len() - i,
        {
            let c = chars[i];
            let ghost sofar = spec_feed(old(self)@, data@.take(i as int));
            self.advance_pos(c);
            match self.parse_character(c) {
                Ok(None) => {
                    proof {
                        lemma_feed_snoc(old(self)@, data@, i as int);
                        assert(results_view(events@) =~= oks_view(
                            spec_feed(old(self)@, data@.take(i + 1)).events,
                        ));
                    }
                },
                Ok(Some(ev)) => {
                    events.push(Ok(ev));
                    proof {
                        lemma_feed_snoc(old(self)@, data@, i as int);
                        assert(oks_view(sofar.events.push(ev@)) =~= oks_view(sofar.events).push(
                            Result::Ok(ev@),
                        ));
                        assert(sofar.events + opt_event_seq(Some(ev@)) =~= sofar.events.push(ev@));
                        assert(results_view(events@) =~= oks_view(sofar.events).push(
                            Result::Ok(ev@),
                        ));
                    }
                },
                Err(e) => {
                    events.push(Err(e));
                    proof {
                        lemma_feed_stops(old(self)@, data@, i as int);
                        let out = spec_feed(old(self)@, data@);
                        assert(results_view(events@) =~= oks_view(out.events).push(
                            Result::Err(e@),
                        ));
                        assert(feed_results(out) =~= oks_view(out.events).push(Result::Err(e@)));
                    }
                    return events;
                },
            }
            i = i + 1;
        }
        proof {
            assert(data@.take(chars@.len() as int) =~= data@);
            let out = spec_feed(old(self)@, data@);
            assert(feed_results(out) =~= oks_view(out.events));
        }
        events
    }

    /// Parses the string `data`, returning the events and, on failure, the
    /// error, as `feed_str` does.
    pub fn parse_str(&mut self, data: &str) -> (events: Vec<Result<Event, Error>>)
        requires
            wf(old(self)@),
        ensures
            wf(final(self)@),
            final(self)@ == spec_feed(old(self)@, data@).p,
            results_view(events@) == feed_results(spec_feed(old(self)@, data@)),
    {
        self.feed_str(data)
    }
}

} // verus!
