//! Laws of the tokenizer's event stream: how the namespace stack depth
//! tracks the emitted tags, and how a self-closing tag's two events match.

use crate::base::EventModel;
use crate::parser::{
    init_parser, lemma_feed_split, pending_frame, spec_feed, spec_feed_char, spec_step, wf,
    FrameModel, ParserModel, State,
};
use vstd::prelude::*;

verus! {

/// The namespace stack depth of a tokenizer state.
pub open spec fn depth(p: ParserModel) -> int {
    p.namespaces.len() as int
}

/// How one event moves the count of open elements: a start tag opens one,
/// an end tag closes one if any is open.
pub open spec fn step_open(n: int, e: EventModel) -> int {
    match e {
        EventModel::StartTag(_) => n + 1,
        EventModel::EndTag(_) => if n > 0 {
            n - 1
        } else {
            0
        },
        _ => n,
    }
}

/// The count of open elements after a sequence of events, starting from `n`.
pub open spec fn open_count_from(n: int, evts: Seq<EventModel>) -> int
    decreases evts.len(),
{
    if evts.len() == 0 {
        n
    } else {
        step_open(open_count_from(n, evts.drop_last()), evts.last())
    }
}

/// The depth invariant: the stack holds the bottom frame, one frame per
/// open element, and one more while a start tag's attributes are still
/// being read.
pub open spec fn depth_ok(p: ParserModel, n: int) -> bool {
    &&& n >= 0
    &&& depth(p) == 1 + n + pending_frame(p.st)
    &&& (p.st == State::ExpectClose ==> n >= 1)
}

/// The open count after one optional event.
pub open spec fn step_open_opt(n: int, e: Option<EventModel>) -> int {
    match e {
        None => n,
        Some(ev) => step_open(n, ev),
    }
}

proof fn lemma_step_depth(p: ParserModel, c: char, n: int)
    requires
        wf(p),
        depth_ok(p, n),
        spec_step(p, c).err is None,
    ensures
        depth_ok(spec_step(p, c).p, step_open_opt(n, spec_step(p, c).event)),
{
}

proof fn lemma_open_count_concat(n: int, a: Seq<EventModel>, b: Seq<EventModel>)
    ensures
        open_count_from(n, a + b) == open_count_from(open_count_from(n, a), b),
    decreases b.len(),
{
    if b.len() == 0 {
        assert(a + b =~= a);
    } else {
        lemma_open_count_concat(n, a, b.drop_last());
        assert((a + b).drop_last() =~= a + b.drop_last());
        assert((a + b).last() == b.last());
    }
}

/// Law: over any error-free feed, the namespace stack depth equals one for
/// the bottom frame, plus the count of elements the emitted events leave
/// open, plus one while a start tag is still being read.
pub proof fn lemma_feed_depth(p: ParserModel, s: Seq<char>, n: int)
    requires
        wf(p),
        depth_ok(p, n),
        spec_feed(p, s).err is None,
    ensures
        depth_ok(spec_feed(p, s).p, open_count_from(n, spec_feed(p, s).events)),
    decreases s.len(),
{
    let out = spec_feed(p, s);
    if s.len() == 0 {
        assert(open_count_from(n, out.events) == n);
    } else {
        let p1 = crate::parser::spec_advance_pos(p, s[0]);
        let m = spec_feed_char(p, s[0]);
        assert(m.err is None) by {
            if m.err is Some {
                assert(out.err == m.err);
            }
        }
        crate::parser::lemma_advance_pos_wf(p, s[0]);
        assert(depth_ok(p1, n));
        lemma_step_depth(p1, s[0], n);
        crate::parser::lemma_step_wf(p1, s[0]);
        let n1 = step_open_opt(n, m.event);
        let rest = spec_feed(m.p, s.drop_first());
        lemma_feed_depth(m.p, s.drop_first(), n1);
        lemma_open_count_concat(n, crate::parser::opt_event_seq(m.event), rest.events);
        match m.event {
            None => {
                assert(crate::parser::opt_event_seq(m.event) =~= Seq::<EventModel>::empty());
                assert(open_count_from(n, Seq::<EventModel>::empty()) == n);
                assert(open_count_from(n, crate::parser::opt_event_seq(m.event)) == n1);
            },
            Some(ev) => {
                let one = crate::parser::opt_event_seq(m.event);
                assert(one.len() == 1);
                assert(one.drop_last() =~= Seq::<EventModel>::empty());
                assert(open_count_from(n, one.drop_last()) == n);
                assert(one.last() == ev);
                assert(open_count_from(n, one) == step_open(n, ev));
                assert(open_count_from(n, crate::parser::opt_event_seq(m.event)) == n1);
            },
        }
    }
}

/// Law: a balanced well-formed document returns the namespace stack depth
/// to 1.  Feeding a fresh tokenizer a document that raises no error, whose
/// events leave no element open, and which ends outside any tag, leaves
/// exactly the bottom frame on the stack.
pub proof fn lemma_depth_returns_to_one(s: Seq<char>)
    requires
        spec_feed(init_parser(), s).err is None,
        open_count_from(0, spec_feed(init_parser(), s).events) == 0,
        pending_frame(spec_feed(init_parser(), s).p.st) == 0,
    ensures
        depth(spec_feed(init_parser(), s).p) == 1,
{
    assert(wf(init_parser()));
    assert(depth_ok(init_parser(), 0));
    lemma_feed_depth(init_parser(), s, 0);
}

proof fn lemma_stack_lookup_push_empty(ns: Seq<FrameModel>, k: Seq<char>)
    ensures
        crate::parser::stack_lookup(ns.push(Seq::empty()), k) == crate::parser::stack_lookup(
            ns,
            k,
        ),
{
    let pushed = ns.push(Seq::<(Seq<char>, Seq<char>)>::empty());
    assert(pushed.last() =~= Seq::<(Seq<char>, Seq<char>)>::empty());
    assert(crate::parser::frame_lookup(pushed.last(), k) is None);
    assert(pushed.drop_last() =~= ns);
}

/// Law: a self-closing tag emits a matched pair.  When a tag being read
/// closes with `/` and then `>`, the start tag emitted on the `/` and the
/// end tag emitted on the `>` carry the same local name, the same prefix,
/// and the same resolved namespace.
pub proof fn lemma_self_closing_matches(p: ParserModel)
    requires
        wf(p),
        p.st == State::InTagName || p.st == State::InTag,
        spec_feed_char(p, '/').err is None,
    ensures
        ({
            let m1 = spec_feed_char(p, '/');
            let m2 = spec_feed_char(m1.p, '>');
            &&& m1.event is Some
            &&& m1.event->0 is StartTag
            &&& m2.err is None
            &&& m2.event is Some
            &&& m2.event->0 is EndTag
            &&& m2.event->0->EndTag_0.name == m1.event->0->StartTag_0.name
            &&& m2.event->0->EndTag_0.prefix == m1.event->0->StartTag_0.prefix
            &&& m2.event->0->EndTag_0.ns == m1.event->0->StartTag_0.ns
        }),
{
    let p1 = crate::parser::spec_advance_pos(p, '/');
    let m1 = spec_feed_char(p, '/');
    let p2 = crate::parser::spec_advance_pos(m1.p, '>');
    if p.st == State::InTagName {
        let prefix = crate::parser::qname_prefix(p.buf);
        lemma_stack_lookup_push_empty(p.namespaces, Seq::empty());
        match prefix {
            None => {},
            Some(px) => {
                lemma_stack_lookup_push_empty(p.namespaces, px);
            },
        }
        assert(crate::parser::resolve_prefix(p1.namespaces.push(Seq::empty()), prefix)
            == crate::parser::resolve_prefix(p1.namespaces, prefix));
    } else {
    }
}


/// A character that a tag name can be made of without steering the
/// automaton: not a terminator, not whitespace, not a prefix separator,
/// and not one of the branch characters after `<`.
pub open spec fn plain_name_char(c: char) -> bool {
    c != '/' && c != '>' && c != ':' && !crate::parser::is_ws(c) && c != '?' && c != '!'
}

/// A plain tag name: nonempty and made of plain characters.
pub open spec fn plain_name(s: Seq<char>) -> bool {
    s.len() > 0 && forall|i: int| 0 <= i < s.len() ==> plain_name_char(#[trigger] s[i])
}

/// Feeding plain name characters while a tag name is being read only grows
/// the buffer (and moves the position).
proof fn lemma_feed_in_tag_name(p: ParserModel, s: Seq<char>)
    requires
        wf(p),
        p.st == State::InTagName,
        forall|i: int| 0 <= i < s.len() ==> plain_name_char(#[trigger] s[i]),
    ensures
        ({
            let out = spec_feed(p, s);
            &&& out.err is None
            &&& out.events == Seq::<EventModel>::empty()
            &&& out.p == (ParserModel { line: out.p.line, col: out.p.col, buf: p.buf + s, ..p })
        }),
    decreases s.len(),
{
    let out = spec_feed(p, s);
    if s.len() == 0 {
        assert(p.buf + s =~= p.buf);
        assert(out.p == (ParserModel { line: out.p.line, col: out.p.col, buf: p.buf + s, ..p }));
    } else {
        let p1 = crate::parser::spec_advance_pos(p, s[0]);
        let m = spec_feed_char(p, s[0]);
        assert(plain_name_char(s[0]));
        assert(m.err is None && m.event is None);
        assert(m.p == (ParserModel { line: p1.line, col: p1.col, buf: p.buf.push(s[0]), ..p }));
        crate::parser::lemma_advance_pos_wf(p, s[0]);
        crate::parser::lemma_step_wf(p1, s[0]);
        lemma_feed_in_tag_name(m.p, s.drop_first());
        let rest = spec_feed(m.p, s.drop_first());
        assert(Seq::<EventModel>::empty() + rest.events =~= rest.events);
        assert(p.buf.push(s[0]) + s.drop_first() =~= p.buf + s);
        assert(out.p == (ParserModel { line: out.p.line, col: out.p.col, buf: p.buf + s, ..p }));
    }
}


/// No `:` in a text means no colon is found.
proof fn lemma_find_colon_absent(s: Seq<char>)
    requires
        forall|i: int| 0 <= i < s.len() ==> #[trigger] s[i] != ':',
    ensures
        crate::parser::find_colon(s) is None,
{
    crate::parser::lemma_find_colon_bounds(s);
    if crate::parser::find_colon(s) is Some {
        let j = crate::parser::find_colon(s)->0;
        assert(s[j] == ':');
        assert(false);
    }
}

/// The bottom frame binds no default namespace and no plain prefix.
proof fn lemma_bottom_frame_lookup(key: Seq<char>)
    requires
        key != crate::parser::xml_prefix(),
        key != crate::parser::xmlns_prefix(),
    ensures
        crate::parser::frame_lookup(crate::parser::bottom_frame(), key) is None,
{
    let b = crate::parser::bottom_frame();
    assert(b.last() == (crate::parser::xmlns_prefix(), crate::parser::xmlns_uri()));
    assert(b.drop_last() =~= seq![(crate::parser::xml_prefix(), crate::parser::xml_uri())]);
    assert(b.drop_last().last() == (crate::parser::xml_prefix(), crate::parser::xml_uri()));
    assert(b.drop_last().drop_last() =~= Seq::<(Seq<char>, Seq<char>)>::empty());
    assert(crate::parser::frame_lookup(b.drop_last().drop_last(), key) is None);
    assert(crate::parser::frame_lookup(b.drop_last(), key) is None);
    assert(crate::parser::frame_lookup(b, key) is None);
}


/// Feeding `<` then a plain name from the initial state reaches the
/// tag-name state with the name buffered and everything else untouched.
proof fn lemma_feed_open(name: Seq<char>)
    requires
        plain_name(name),
    ensures
        ({
            let out = spec_feed(init_parser(), seq!['<'] + name);
            &&& out.err is None
            &&& out.events == Seq::<EventModel>::empty()
            &&& out.p == (ParserModel {
                line: out.p.line,
                col: out.p.col,
                buf: name,
                st: State::InTagName,
                ..init_parser()
            })
        }),
{
    let p0 = init_parser();
    let a = seq!['<'];
    assert(wf(p0));
    let m1 = spec_feed_char(p0, '<');
    assert(m1.err is None && m1.event is None);
    assert(m1.p.st == State::TagOpened);
    assert(m1.p.buf =~= Seq::<char>::empty());
    let f1 = spec_feed(p0, a);
    assert(a.len() == 1);
    assert(a[0] == '<');
    assert(a.drop_first() =~= Seq::<char>::empty());
    assert(spec_feed(m1.p, a.drop_first()) == (crate::parser::FeedModel {
        p: m1.p,
        events: Seq::<EventModel>::empty(),
        err: None,
    }));
    assert(f1.p == m1.p && f1.err is None);
    assert(f1.events =~= Seq::<EventModel>::empty());
    crate::parser::lemma_advance_pos_wf(p0, '<');
    crate::parser::lemma_step_wf(crate::parser::spec_advance_pos(p0, '<'), '<');
    assert(wf(f1.p));
    let m2 = spec_feed_char(f1.p, name[0]);
    assert(plain_name_char(name[0]));
    assert(m2.err is None && m2.event is None);
    assert(m2.p.st == State::InTagName);
    assert(m2.p.buf =~= seq![name[0]]);
    crate::parser::lemma_advance_pos_wf(f1.p, name[0]);
    crate::parser::lemma_step_wf(crate::parser::spec_advance_pos(f1.p, name[0]), name[0]);
    assert(wf(m2.p));
    assert(forall|i: int|
        0 <= i < name.drop_first().len() ==> plain_name_char(#[trigger] name.drop_first()[i]));
    lemma_feed_in_tag_name(m2.p, name.drop_first());
    let f2 = spec_feed(f1.p, name);
    let fname = spec_feed(m2.p, name.drop_first());
    assert(name.len() > 0);
    assert(f2.p == fname.p && f2.err is None);
    assert(f2.events =~= Seq::<EventModel>::empty());
    assert(f2.p.buf =~= seq![name[0]] + name.drop_first());
    assert(f2.p.buf =~= name);
    lemma_feed_split(p0, a, name);
    let out = spec_feed(p0, a + name);
    assert(out.err is None);
    assert(out.events =~= Seq::<EventModel>::empty());
    assert(out.p == (ParserModel {
        line: out.p.line,
        col: out.p.col,
        buf: name,
        st: State::InTagName,
        ..init_parser()
    }));
}


/// Escaped text never holds a `<`.
proof fn lemma_escape_no_lt(s: Seq<char>)
    ensures
        forall|i: int|
            0 <= i < crate::codec::spec_escape(s).len() ==> #[trigger] crate::codec::spec_escape(
                s,
            )[i] != '<',
    decreases s.len(),
{
    if s.len() > 0 {
        lemma_escape_no_lt(s.drop_first());
        let head = crate::codec::esc_char(s[0]);
        assert(forall|i: int| 0 <= i < head.len() ==> #[trigger] head[i] != '<');
        assert forall|i: int|
            0 <= i < crate::codec::spec_escape(s).len() implies #[trigger] crate::codec::spec_escape(
            s,
        )[i] != '<' by {
            if i < head.len() {
                assert(crate::codec::spec_escape(s)[i] == head[i]);
            } else {
                assert(crate::codec::spec_escape(s)[i] == crate::codec::spec_escape(
                    s.drop_first(),
                )[i - head.len()]);
            }
        }
    }
}

/// Escaping keeps a text nonempty.
proof fn lemma_escape_nonempty(s: Seq<char>)
    requires
        s.len() > 0,
    ensures
        crate::codec::spec_escape(s).len() > 0,
{
    assert(crate::codec::esc_char(s[0]).len() > 0);
}

/// Feeding characters other than `<` outside any tag only grows the
/// buffer.
proof fn lemma_feed_outside_tag(p: ParserModel, s: Seq<char>)
    requires
        wf(p),
        p.st == State::OutsideTag,
        forall|i: int| 0 <= i < s.len() ==> #[trigger] s[i] != '<',
    ensures
        ({
            let out = spec_feed(p, s);
            &&& out.err is None
            &&& out.events == Seq::<EventModel>::empty()
            &&& out.p == (ParserModel { line: out.p.line, col: out.p.col, buf: p.buf + s, ..p })
        }),
    decreases s.len(),
{
    let out = spec_feed(p, s);
    if s.len() == 0 {
        assert(p.buf + s =~= p.buf);
        assert(out.p == (ParserModel { line: out.p.line, col: out.p.col, buf: p.buf + s, ..p }));
    } else {
        let p1 = crate::parser::spec_advance_pos(p, s[0]);
        let m = spec_feed_char(p, s[0]);
        assert(s[0] != '<');
        assert(m.err is None && m.event is None);
        crate::parser::lemma_advance_pos_wf(p, s[0]);
        crate::parser::lemma_step_wf(p1, s[0]);
        lemma_feed_outside_tag(m.p, s.drop_first());
        let rest = spec_feed(m.p, s.drop_first());
        assert(Seq::<EventModel>::empty() + rest.events =~= rest.events);
        assert(p.buf.push(s[0]) + s.drop_first() =~= p.buf + s);
        assert(out.p == (ParserModel { line: out.p.line, col: out.p.col, buf: p.buf + s, ..p }));
    }
}

/// Feeding plain name characters while a close-tag name is being read only
/// grows the buffer.
proof fn lemma_feed_in_close_tag_name(p: ParserModel, s: Seq<char>)
    requires
        wf(p),
        p.st == State::InCloseTagName,
        forall|i: int| 0 <= i < s.len() ==> plain_name_char(#[trigger] s[i]),
    ensures
        ({
            let out = spec_feed(p, s);
            &&& out.err is None
            &&& out.events == Seq::<EventModel>::empty()
            &&& out.p == (ParserModel { line: out.p.line, col: out.p.col, buf: p.buf + s, ..p })
        }),
    decreases s.len(),
{
    let out = spec_feed(p, s);
    if s.len() == 0 {
        assert(p.buf + s =~= p.buf);
        assert(out.p == (ParserModel { line: out.p.line, col: out.p.col, buf: p.buf + s, ..p }));
    } else {
        let p1 = crate::parser::spec_advance_pos(p, s[0]);
        let m = spec_feed_char(p, s[0]);
        assert(plain_name_char(s[0]));
        assert(m.err is None && m.event is None);
        crate::parser::lemma_advance_pos_wf(p, s[0]);
        crate::parser::lemma_step_wf(p1, s[0]);
        lemma_feed_in_close_tag_name(m.p, s.drop_first());
        let rest = spec_feed(m.p, s.drop_first());
        assert(Seq::<EventModel>::empty() + rest.events =~= rest.events);
        assert(p.buf.push(s[0]) + s.drop_first() =~= p.buf + s);
        assert(out.p == (ParserModel { line: out.p.line, col: out.p.col, buf: p.buf + s, ..p }));
    }
}

/// Law (round trip, plain leaf): an element with a plain name, no
/// namespace, no attributes and no children parses back from its canonical
/// text to itself: serialization yields `<name/>`, and feeding that text
/// through a fresh tokenizer and builder returns the element.
#[verifier::rlimit(60)]
pub proof fn lemma_round_trip_plain_leaf(e: crate::element::ElemModel)
    requires
        plain_name(e.name),
        e.ns is None,
        e.default_ns is None,
        e.prefixes == Seq::<(Seq<char>, Seq<char>)>::empty(),
        e.attributes == Seq::<crate::base::AttributeModel>::empty(),
        e.children == Seq::<crate::element::XmlModel>::empty(),
    ensures
        crate::serialize::spec_elem_text(e, None, Seq::empty()) is Some,
        crate::element_builder::spec_from_str(
            crate::serialize::spec_elem_text(e, None, Seq::empty())->0,
        ) == Ok::<crate::element::ElemModel, crate::element_builder::BuilderErrorModel>(e),
{
    let nm = e.name;
    let empty_env = Seq::<(Seq<char>, Seq<char>)>::empty();
    // Serialization: the text is `<name/>`.
    assert(empty_env + e.prefixes =~= empty_env);
    assert(crate::serialize::spec_open_name(e, empty_env) == Some(nm));
    assert(crate::serialize::spec_attrs_text(e.attributes, empty_env) == Some(
        Seq::<char>::empty(),
    ));
    assert(crate::serialize::spec_default_decl(e, None) == Seq::<char>::empty());
    let text = crate::serialize::spec_elem_text(e, None, Seq::empty())->0;
    reveal_strlit("<");
    reveal_strlit("/>");
    let s1 = seq!['<'] + nm;
    let c2 = seq!['/', '>'];
    assert("<"@ =~= seq!['<']);
    assert("/>"@ =~= c2);
    assert(text =~= s1 + c2);
    // `<name`.
    lemma_feed_open(nm);
    let p0 = init_parser();
    let f1 = spec_feed(p0, s1);
    let q1 = f1.p;
    assert(wf(q1)) by {
        lemma_feed_wf(p0, s1);
    }
    // `/`: the name resolves with no prefix and no default namespace, the
    // start tag is emitted, and an empty frame is pushed.
    lemma_find_colon_absent(nm);
    assert(crate::parser::qname_prefix(q1.buf) is None);
    assert(crate::parser::qname_local(q1.buf) == nm);
    assert(q1.namespaces =~= seq![crate::parser::bottom_frame()]);
    assert(crate::parser::stack_lookup(q1.namespaces, Seq::<char>::empty()) is None) by {
        lemma_bottom_frame_lookup(Seq::<char>::empty());
        assert(q1.namespaces.last() == crate::parser::bottom_frame());
        assert(crate::parser::frame_lookup(q1.namespaces.last(), Seq::<char>::empty()) is None);
        assert(q1.namespaces.drop_last() =~= Seq::<FrameModel>::empty());
        assert(crate::parser::stack_lookup(q1.namespaces.drop_last(), Seq::<char>::empty())
            is None);
    }
    assert(crate::parser::resolve_prefix(q1.namespaces, None) == Some(None::<Seq<char>>));
    let m3 = spec_feed_char(q1, '/');
    let start_model = crate::base::StartTagModel {
        name: nm,
        ns: None,
        prefix: None,
        attributes: Seq::empty(),
        declared: Seq::empty(),
    };
    assert(m3.err is None);
    assert(m3.event == Some(EventModel::StartTag(start_model)));
    assert(m3.p.st == State::ExpectClose);
    assert(m3.p.name == nm && m3.p.prefix is None);
    assert(m3.p.namespaces =~= seq![
        crate::parser::bottom_frame(),
        Seq::<(Seq<char>, Seq<char>)>::empty(),
    ]);
    crate::parser::lemma_advance_pos_wf(q1, '/');
    crate::parser::lemma_step_wf(crate::parser::spec_advance_pos(q1, '/'), '/');
    assert(wf(m3.p));
    lemma_feed_one(q1, '/');
    let f3 = spec_feed(q1, seq!['/']);
    assert(f3.p == m3.p && f3.err is None);
    assert(f3.events =~= seq![EventModel::StartTag(start_model)]);
    // `>`: the pending tag resolves the same way, the frame is popped, and
    // the matching end tag is emitted.
    assert(crate::parser::stack_lookup(m3.p.namespaces, Seq::<char>::empty()) is None) by {
        lemma_bottom_frame_lookup(Seq::<char>::empty());
        assert(m3.p.namespaces.last() =~= Seq::<(Seq<char>, Seq<char>)>::empty());
        assert(crate::parser::frame_lookup(m3.p.namespaces.last(), Seq::<char>::empty()) is None);
        assert(m3.p.namespaces.drop_last() =~= seq![crate::parser::bottom_frame()]);
        assert(m3.p.namespaces.drop_last().last() == crate::parser::bottom_frame());
        assert(crate::parser::frame_lookup(
            m3.p.namespaces.drop_last().last(),
            Seq::<char>::empty(),
        ) is None);
        assert(m3.p.namespaces.drop_last().drop_last() =~= Seq::<FrameModel>::empty());
    }
    assert(crate::parser::resolve_prefix(m3.p.namespaces, None) == Some(None::<Seq<char>>));
    let m4 = spec_feed_char(m3.p, '>');
    let end_model = crate::base::EndTagModel { name: nm, ns: None, prefix: None };
    assert(m4.err is None);
    assert(m4.event == Some(EventModel::EndTag(end_model)));
    lemma_feed_one(m3.p, '>');
    let f4 = spec_feed(m3.p, seq!['>']);
    assert(f4.err is None);
    assert(f4.events =~= seq![EventModel::EndTag(end_model)]);
    // Assembling the whole feed.
    assert(c2 =~= seq!['/'] + seq!['>']);
    lemma_feed_split(q1, seq!['/'], seq!['>']);
    let g2 = spec_feed(q1, c2);
    assert(g2.err is None);
    assert(g2.events =~= seq![
        EventModel::StartTag(start_model),
        EventModel::EndTag(end_model),
    ]);
    lemma_feed_split(p0, s1, c2);
    let out = spec_feed(p0, text);
    assert(out == spec_feed(p0, s1 + c2));
    assert(out.err is None);
    assert(out.events =~= g2.events);
    // Draining the two events through a fresh builder.
    let rs = crate::parser::feed_results(out);
    assert(crate::parser::oks_view(out.events) =~= seq![
        Ok::<EventModel, crate::base::ErrorModel>(EventModel::StartTag(start_model)),
        Ok::<EventModel, crate::base::ErrorModel>(EventModel::EndTag(end_model)),
    ]);
    assert(rs =~= seq![
        Ok::<EventModel, crate::base::ErrorModel>(EventModel::StartTag(start_model)),
        Ok::<EventModel, crate::base::ErrorModel>(EventModel::EndTag(end_model)),
    ]);
    let b0 = crate::element_builder::BuilderModel { stack: Seq::empty() };
    let h1 = crate::element_builder::spec_handle_event(b0, rs[0]);
    let elem0 = crate::element_builder::elem_of_start(
        start_model,
        crate::element_builder::parent_default(b0.stack),
    );
    assert(crate::parser::frame_lookup(start_model.declared, Seq::<char>::empty()) is None);
    assert(crate::element_builder::prefixes_of_declared(start_model.declared)
        =~= Seq::<(Seq<char>, Seq<char>)>::empty());
    assert(elem0 =~= e);
    assert(h1.out is None);
    assert(h1.b.stack =~= seq![elem0]);
    let h2 = crate::element_builder::spec_handle_event(h1.b, rs[1]);
    assert(h1.b.stack.last() == elem0);
    assert(h1.b.stack.drop_last() =~= Seq::<crate::element::ElemModel>::empty());
    assert(h2.out == Some(Ok::<
        crate::element::ElemModel,
        crate::element_builder::BuilderErrorModel,
    >(elem0)));
    let rs1 = rs.drop_first();
    assert(rs.len() == 2);
    assert(rs1.len() == 1);
    assert(rs1[0] == rs[1]);
    assert(crate::element_builder::spec_handle_event(h1.b, rs1[0]) == h2);
    assert(crate::element_builder::spec_drain(h1.b, rs1) == Ok::<
        crate::element::ElemModel,
        crate::element_builder::BuilderErrorModel,
    >(elem0));
    assert(crate::element_builder::spec_drain(b0, rs) == crate::element_builder::spec_drain(
        h1.b,
        rs1,
    ));
    assert(elem0 == e);
}

/// A one-character feed is one step.
proof fn lemma_feed_one(p: ParserModel, c: char)
    ensures
        ({
            let m = spec_feed_char(p, c);
            spec_feed(p, seq![c]) == (if m.err is Some {
                crate::parser::FeedModel { p: m.p, events: Seq::empty(), err: m.err }
            } else {
                crate::parser::FeedModel {
                    p: m.p,
                    events: crate::parser::opt_event_seq(m.event),
                    err: None,
                }
            })
        }),
{
    let s = seq![c];
    assert(s.len() == 1 && s[0] == c);
    assert(s.drop_first() =~= Seq::<char>::empty());
    let m = spec_feed_char(p, c);
    if m.err is None {
        assert(spec_feed(m.p, s.drop_first()) == (crate::parser::FeedModel {
            p: m.p,
            events: Seq::<EventModel>::empty(),
            err: None,
        }));
        assert(crate::parser::opt_event_seq(m.event) + Seq::<EventModel>::empty()
            =~= crate::parser::opt_event_seq(m.event));
    }
}

/// Law (round trip, text leaf): an element with a plain name, no
/// namespace, no attributes, and exactly one nonempty character-data
/// child parses back from its canonical text to itself.  The character
/// data travels through escaping on the way out and unescaping on the way
/// back in.
#[verifier::rlimit(100)]
pub proof fn lemma_round_trip_text_leaf(e: crate::element::ElemModel)
    requires
        plain_name(e.name),
        e.ns is None,
        e.default_ns is None,
        e.prefixes == Seq::<(Seq<char>, Seq<char>)>::empty(),
        e.attributes == Seq::<crate::base::AttributeModel>::empty(),
        e.children.len() == 1,
        e.children[0] is Chars,
        e.children[0]->Chars_0.len() > 0,
    ensures
        crate::serialize::spec_elem_text(e, None, Seq::empty()) is Some,
        crate::element_builder::spec_from_str(
            crate::serialize::spec_elem_text(e, None, Seq::empty())->0,
        ) == Ok::<crate::element::ElemModel, crate::element_builder::BuilderErrorModel>(e),
{
    let nm = e.name;
    let t = e.children[0]->Chars_0;
    let esc = crate::codec::spec_escape(t);
    let empty_env = Seq::<(Seq<char>, Seq<char>)>::empty();
    // Serialization: the text is `<name>` + escaped text + `</name>`.
    assert(empty_env + e.prefixes =~= empty_env);
    assert(crate::serialize::spec_open_name(e, empty_env) == Some(nm));
    assert(crate::serialize::spec_attrs_text(e.attributes, empty_env) == Some(
        Seq::<char>::empty(),
    ));
    assert(crate::serialize::spec_default_decl(e, None) == Seq::<char>::empty());
    assert(e.children.drop_last() =~= Seq::<crate::element::XmlModel>::empty());
    assert(e.children.last() == e.children[0]);
    assert(crate::serialize::spec_children_text(e.children, e.default_ns, empty_env) == Some(
        Seq::<char>::empty() + esc,
    ));
    assert(Seq::<char>::empty() + esc =~= esc);
    let text = crate::serialize::spec_elem_text(e, None, Seq::empty())->0;
    reveal_strlit("<");
    reveal_strlit(">");
    reveal_strlit("</");
    reveal_strlit("/>");
    assert("<"@ =~= seq!['<']);
    assert(">"@ =~= seq!['>']);
    assert("</"@ =~= seq!['<', '/']);
    let s1 = seq!['<'] + nm;
    let t7 = seq!['>'];
    let t6 = nm + t7;
    let t5 = seq!['/'] + t6;
    let t4 = seq!['<'] + t5;
    let t3 = esc + t4;
    let t2 = seq!['>'] + t3;
    assert(text =~= s1 + t2);
    // `<name`.
    lemma_feed_open(nm);
    let p0 = init_parser();
    let f1 = spec_feed(p0, s1);
    let q1 = f1.p;
    assert(wf(q1)) by {
        lemma_feed_wf(p0, s1);
    }
    // `>`: the start tag is emitted and an empty frame is pushed.
    lemma_find_colon_absent(nm);
    assert(crate::parser::qname_prefix(q1.buf) is None);
    assert(crate::parser::qname_local(q1.buf) == nm);
    assert(q1.namespaces =~= seq![crate::parser::bottom_frame()]);
    assert(crate::parser::stack_lookup(q1.namespaces, Seq::<char>::empty()) is None) by {
        lemma_bottom_frame_lookup(Seq::<char>::empty());
        assert(q1.namespaces.last() == crate::parser::bottom_frame());
        assert(crate::parser::frame_lookup(q1.namespaces.last(), Seq::<char>::empty()) is None);
        assert(q1.namespaces.drop_last() =~= Seq::<FrameModel>::empty());
        assert(crate::parser::stack_lookup(q1.namespaces.drop_last(), Seq::<char>::empty())
            is None);
    }
    assert(crate::parser::resolve_prefix(q1.namespaces, None) == Some(None::<Seq<char>>));
    let m2 = spec_feed_char(q1, '>');
    let start_model = crate::base::StartTagModel {
        name: nm,
        ns: None,
        prefix: None,
        attributes: Seq::empty(),
        declared: Seq::empty(),
    };
    assert(m2.err is None);
    assert(m2.event == Some(EventModel::StartTag(start_model)));
    assert(m2.p.st == State::OutsideTag);
    assert(m2.p.buf =~= Seq::<char>::empty());
    assert(m2.p.namespaces =~= seq![
        crate::parser::bottom_frame(),
        Seq::<(Seq<char>, Seq<char>)>::empty(),
    ]);
    crate::parser::lemma_advance_pos_wf(q1, '>');
    crate::parser::lemma_step_wf(crate::parser::spec_advance_pos(q1, '>'), '>');
    assert(wf(m2.p));
    lemma_feed_one(q1, '>');
    let f2 = spec_feed(q1, seq!['>']);
    assert(f2.p == m2.p && f2.err is None);
    assert(f2.events =~= seq![EventModel::StartTag(start_model)]);
    // The escaped text accumulates outside any tag.
    lemma_escape_no_lt(t);
    lemma_feed_outside_tag(m2.p, esc);
    let f3 = spec_feed(m2.p, esc);
    let q3 = f3.p;
    assert(f3.err is None && f3.events == Seq::<EventModel>::empty());
    assert(q3.buf =~= esc);
    assert(q3.st == State::OutsideTag);
    assert(q3.namespaces == m2.p.namespaces);
    assert(q3.name == nm && q3.prefix is None);
    assert(wf(q3)) by {
        lemma_feed_wf(m2.p, esc);
    }
    // `<`: the buffered text is unescaped and emitted.
    lemma_escape_nonempty(t);
    crate::codec::lemma_unescape_escape(t);
    let m4 = spec_feed_char(q3, '<');
    assert(m4.err is None);
    assert(m4.event == Some(EventModel::Characters(t)));
    assert(m4.p.st == State::TagOpened);
    assert(m4.p.buf =~= Seq::<char>::empty());
    crate::parser::lemma_advance_pos_wf(q3, '<');
    crate::parser::lemma_step_wf(crate::parser::spec_advance_pos(q3, '<'), '<');
    assert(wf(m4.p));
    lemma_feed_one(q3, '<');
    let f4 = spec_feed(q3, seq!['<']);
    assert(f4.p == m4.p && f4.err is None);
    assert(f4.events =~= seq![EventModel::Characters(t)]);
    // `/`: the close-tag name opens.
    let m5 = spec_feed_char(m4.p, '/');
    assert(m5.err is None && m5.event is None);
    assert(m5.p.st == State::InCloseTagName);
    assert(m5.p.buf =~= Seq::<char>::empty());
    crate::parser::lemma_advance_pos_wf(m4.p, '/');
    crate::parser::lemma_step_wf(crate::parser::spec_advance_pos(m4.p, '/'), '/');
    assert(wf(m5.p));
    lemma_feed_one(m4.p, '/');
    let f5 = spec_feed(m4.p, seq!['/']);
    assert(f5.p == m5.p && f5.err is None);
    assert(f5.events =~= Seq::<EventModel>::empty());
    // The close-tag name accumulates.
    lemma_feed_in_close_tag_name(m5.p, nm);
    let f6 = spec_feed(m5.p, nm);
    let q6 = f6.p;
    assert(f6.err is None && f6.events == Seq::<EventModel>::empty());
    assert(Seq::<char>::empty() + nm =~= nm);
    assert(q6.buf =~= nm);
    assert(q6.st == State::InCloseTagName);
    assert(q6.namespaces == m2.p.namespaces);
    assert(wf(q6)) by {
        lemma_feed_wf(m5.p, nm);
    }
    // `>`: the end tag is emitted and the frame is popped.
    assert(crate::parser::qname_prefix(q6.buf) is None);
    assert(crate::parser::qname_local(q6.buf) == nm);
    assert(crate::parser::stack_lookup(q6.namespaces, Seq::<char>::empty()) is None) by {
        lemma_bottom_frame_lookup(Seq::<char>::empty());
        assert(q6.namespaces.last() =~= Seq::<(Seq<char>, Seq<char>)>::empty());
        assert(crate::parser::frame_lookup(q6.namespaces.last(), Seq::<char>::empty()) is None);
        assert(q6.namespaces.drop_last() =~= seq![crate::parser::bottom_frame()]);
        assert(q6.namespaces.drop_last().last() == crate::parser::bottom_frame());
        assert(crate::parser::frame_lookup(
            q6.namespaces.drop_last().last(),
            Seq::<char>::empty(),
        ) is None);
        assert(q6.namespaces.drop_last().drop_last() =~= Seq::<FrameModel>::empty());
    }
    assert(crate::parser::resolve_prefix(q6.namespaces, None) == Some(None::<Seq<char>>));
    let m7 = spec_feed_char(q6, '>');
    let end_model = crate::base::EndTagModel { name: nm, ns: None, prefix: None };
    assert(m7.err is None);
    assert(m7.event == Some(EventModel::EndTag(end_model)));
    lemma_feed_one(q6, '>');
    let f7 = spec_feed(q6, seq!['>']);
    assert(f7.p == m7.p && f7.err is None);
    assert(f7.events =~= seq![EventModel::EndTag(end_model)]);
    // Assembling the whole feed, right to left.
    lemma_feed_split(m5.p, nm, t7);
    let g6 = spec_feed(m5.p, t6);
    assert(g6.err is None);
    assert(g6.events =~= seq![EventModel::EndTag(end_model)]);
    lemma_feed_split(m4.p, seq!['/'], t6);
    let g5 = spec_feed(m4.p, t5);
    assert(g5.err is None);
    assert(g5.events =~= seq![EventModel::EndTag(end_model)]);
    lemma_feed_split(q3, seq!['<'], t5);
    let g4 = spec_feed(q3, t4);
    assert(g4.err is None);
    assert(g4.events =~= seq![EventModel::Characters(t), EventModel::EndTag(end_model)]);
    lemma_feed_split(m2.p, esc, t4);
    let g3 = spec_feed(m2.p, t3);
    assert(g3.err is None);
    assert(g3.events =~= seq![EventModel::Characters(t), EventModel::EndTag(end_model)]);
    lemma_feed_split(q1, seq!['>'], t3);
    let g2 = spec_feed(q1, t2);
    assert(g2.err is None);
    assert(g2.events =~= seq![
        EventModel::StartTag(start_model),
        EventModel::Characters(t),
        EventModel::EndTag(end_model),
    ]);
    lemma_feed_split(p0, s1, t2);
    let out = spec_feed(p0, text);
    assert(out == spec_feed(p0, s1 + t2));
    assert(out.err is None);
    assert(out.events =~= g2.events);
    // Draining the three events through a fresh builder.
    let rs = crate::parser::feed_results(out);
    assert(crate::parser::oks_view(out.events) =~= seq![
        Ok::<EventModel, crate::base::ErrorModel>(EventModel::StartTag(start_model)),
        Ok::<EventModel, crate::base::ErrorModel>(EventModel::Characters(t)),
        Ok::<EventModel, crate::base::ErrorModel>(EventModel::EndTag(end_model)),
    ]);
    assert(rs =~= seq![
        Ok::<EventModel, crate::base::ErrorModel>(EventModel::StartTag(start_model)),
        Ok::<EventModel, crate::base::ErrorModel>(EventModel::Characters(t)),
        Ok::<EventModel, crate::base::ErrorModel>(EventModel::EndTag(end_model)),
    ]);
    let b0 = crate::element_builder::BuilderModel { stack: Seq::empty() };
    let h1 = crate::element_builder::spec_handle_event(b0, rs[0]);
    let elem0 = crate::element_builder::elem_of_start(
        start_model,
        crate::element_builder::parent_default(b0.stack),
    );
    assert(crate::parser::frame_lookup(start_model.declared, Seq::<char>::empty()) is None);
    assert(crate::element_builder::prefixes_of_declared(start_model.declared)
        =~= Seq::<(Seq<char>, Seq<char>)>::empty());
    assert(h1.out is None);
    assert(h1.b.stack =~= seq![elem0]);
    let h2 = crate::element_builder::spec_handle_event(h1.b, rs[1]);
    let elem1 = crate::element::ElemModel {
        children: elem0.children.push(crate::element::XmlModel::Chars(t)),
        ..elem0
    };
    assert(h2.out is None);
    assert(h2.b.stack =~= seq![elem1]) by {
        assert(h1.b.stack.last() == elem0);
        assert(crate::element_builder::push_child(
            h1.b.stack,
            crate::element::XmlModel::Chars(t),
        ) =~= seq![elem1]);
    }
    let h3 = crate::element_builder::spec_handle_event(h2.b, rs[2]);
    assert(h2.b.stack.last() == elem1);
    assert(h2.b.stack.drop_last() =~= Seq::<crate::element::ElemModel>::empty());
    assert(h3.out == Some(Ok::<
        crate::element::ElemModel,
        crate::element_builder::BuilderErrorModel,
    >(elem1)));
    assert(elem1 =~= e) by {
        assert(elem0.children =~= Seq::<crate::element::XmlModel>::empty());
        assert(elem1.children =~= e.children);
    }
    // The drain walks the three outputs.
    let rs1 = rs.drop_first();
    let rs2 = rs1.drop_first();
    assert(rs.len() == 3);
    assert(rs1.len() == 2 && rs1[0] == rs[1] && rs1[1] == rs[2]);
    assert(rs2.len() == 1 && rs2[0] == rs[2]);
    assert(rs1.drop_first() =~= rs2);
    assert(crate::element_builder::spec_handle_event(h1.b, rs1[0]) == h2);
    assert(crate::element_builder::spec_handle_event(h2.b, rs2[0]) == h3);
    assert(crate::element_builder::spec_drain(h2.b, rs2) == Ok::<
        crate::element::ElemModel,
        crate::element_builder::BuilderErrorModel,
    >(elem1));
    assert(crate::element_builder::spec_drain(h1.b, rs1) == crate::element_builder::spec_drain(
        h2.b,
        rs2,
    ));
    assert(crate::element_builder::spec_drain(b0, rs) == crate::element_builder::spec_drain(
        h1.b,
        rs1,
    ));
    assert(elem1 == e);
}

/// A feed that raises no error keeps the state well-formed.
proof fn lemma_feed_wf(p: ParserModel, s: Seq<char>)
    requires
        wf(p),
    ensures
        spec_feed(p, s).err is None ==> wf(spec_feed(p, s).p),
    decreases s.len(),
{
    if s.len() > 0 {
        let m = spec_feed_char(p, s[0]);
        crate::parser::lemma_advance_pos_wf(p, s[0]);
        crate::parser::lemma_step_wf(crate::parser::spec_advance_pos(p, s[0]), s[0]);
        if m.err is None {
            lemma_feed_wf(m.p, s.drop_first());
        }
    }
}

} // verus!
