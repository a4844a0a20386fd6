//! The tree builder: consumes tokenizer events and assembles completed
//! root elements, keeping a stack of partially built elements.

use crate::base::{res_view, opt_str_view, Error, ErrorModel, Event, EventModel, StartTagModel};
use crate::element::{
    children_view, elem_view, opt_eq_opt, ElemModel, Element, Xml, XmlModel,
};
use crate::parser::{
    feed_results, frame_lookup, init_parser, results_view, spec_feed, FrameModel, Parser,
};
use crate::text::str_eq;
use vstd::pervasive::VecAdditionalExecFns;
use vstd::prelude::*;

verus! {

/// An error surfaced while building a tree.
#[derive(PartialEq, Debug)]
pub enum BuilderError {
    /// An upstream tokenizer error, passed through.
    Parser(Error),
    /// An end tag whose name or namespace does not match the open element.
    UnmatchedEndTag,
    /// The stream ended and no root element was completed.
    NoElement,
}

/// Model of a [`BuilderError`].
#[verifier::ext_equal]
pub ghost enum BuilderErrorModel {
    Parser(ErrorModel),
    UnmatchedEndTag,
    NoElement,
}

impl View for BuilderError {
    type V = BuilderErrorModel;

    open spec fn view(&self) -> BuilderErrorModel {
        match self {
            BuilderError::Parser(e) => BuilderErrorModel::Parser(e@),
            BuilderError::UnmatchedEndTag => BuilderErrorModel::UnmatchedEndTag,
            BuilderError::NoElement => BuilderErrorModel::NoElement,
        }
    }
}

/// The models of a sequence of elements.
pub open spec fn elems_view(s: Seq<Element>) -> Seq<ElemModel> {
    s.map_values(|e: Element| elem_view(e))
}

/// Model of an [`ElementBuilder`]: the stack of open elements, outermost
/// first.
#[verifier::ext_equal]
pub ghost struct BuilderModel {
    pub stack: Seq<ElemModel>,
}

/// A tree builder.
pub struct ElementBuilder {
    stack: Vec<Element>,
}

impl View for ElementBuilder {
    type V = BuilderModel;

    closed spec fn view(&self) -> BuilderModel {
        BuilderModel { stack: elems_view(self.stack@) }
    }
}

/// The default namespace of the element a start tag opens: the last
/// default declaration on the tag itself, or the parent's default.
pub open spec fn default_of_declared(
    declared: FrameModel,
    parent_default: Option<Seq<char>>,
) -> Option<Seq<char>> {
    match frame_lookup(declared, Seq::empty()) {
        Some(u) => if u.len() == 0 {
            None
        } else {
            Some(u)
        },
        None => parent_default,
    }
}

/// The prefix mapping an element keeps from the bindings declared on its
/// tag: a namespace-URI-to-prefix pair for each nonempty prefix bound to a
/// nonempty URI, in declaration order.
pub open spec fn prefixes_of_declared(d: FrameModel) -> FrameModel
    decreases d.len(),
{
    if d.len() == 0 {
        Seq::empty()
    } else {
        let rest = prefixes_of_declared(d.drop_last());
        if d.last().0.len() > 0 && d.last().1.len() > 0 {
            rest.push((d.last().1, d.last().0))
        } else {
            rest
        }
    }
}

/// The element a start tag opens, before any children are attached.
pub open spec fn elem_of_start(t: StartTagModel, parent_default: Option<Seq<char>>) -> ElemModel {
    ElemModel {
        name: t.name,
        ns: t.ns,
        default_ns: default_of_declared(t.declared, parent_default),
        prefixes: prefixes_of_declared(t.declared),
        attributes: t.attributes,
        children: Seq::empty(),
    }
}

/// The default namespace in scope under the open elements.
pub open spec fn parent_default(stack: Seq<ElemModel>) -> Option<Seq<char>> {
    if stack.len() == 0 {
        None
    } else {
        stack.last().default_ns
    }
}

/// The stack with `x` attached as a child of its top element.
pub open spec fn push_child(stack: Seq<ElemModel>, x: XmlModel) -> Seq<ElemModel> {
    stack.update(
        stack.len() - 1,
        ElemModel { children: stack.last().children.push(x), ..stack.last() },
    )
}

/// The outcome of handing the builder one tokenizer output.
#[verifier::ext_equal]
pub ghost struct HandleOut {
    pub b: BuilderModel,
    pub out: Option<Result<ElemModel, BuilderErrorModel>>,
}

/// What one tokenizer output does to the builder.
///
/// A start tag opens an element; a matching end tag closes the top one,
/// attaching it to its parent, or yields it when it is a root; any other
/// content attaches to the top element, and is discarded outside a root.
/// Tokenizer errors pass through.
pub open spec fn spec_handle_event(b: BuilderModel, r: Result<EventModel, ErrorModel>) -> HandleOut {
    match r {
        Err(e) => HandleOut { b, out: Some(Err(BuilderErrorModel::Parser(e))) },
        Ok(ev) => match ev {
            EventModel::StartTag(t) => HandleOut {
                b: BuilderModel { stack: b.stack.push(elem_of_start(t, parent_default(b.stack))) },
                out: None,
            },
            EventModel::EndTag(t) => {
                if b.stack.len() == 0 {
                    HandleOut { b, out: Some(Err(BuilderErrorModel::UnmatchedEndTag)) }
                } else {
                    let top = b.stack.last();
                    if top.name == t.name && top.ns == t.ns {
                        let rest = b.stack.drop_last();
                        if rest.len() == 0 {
                            HandleOut { b: BuilderModel { stack: rest }, out: Some(Ok(top)) }
                        } else {
                            HandleOut {
                                b: BuilderModel { stack: push_child(rest, XmlModel::Elem(top)) },
                                out: None,
                            }
                        }
                    } else {
                        HandleOut { b, out: Some(Err(BuilderErrorModel::UnmatchedEndTag)) }
                    }
                }
            },
            EventModel::Characters(s) => spec_append_node(b, XmlModel::Chars(s)),
            EventModel::CDATA(s) => spec_append_node(b, XmlModel::Cdata(s)),
            EventModel::Comment(s) => spec_append_node(b, XmlModel::Comment(s)),
            EventModel::PI(s) => spec_append_node(b, XmlModel::Pi(s)),
        },
    }
}

/// Content outside any root is discarded; otherwise it attaches to the top
/// element.
pub open spec fn spec_append_node(b: BuilderModel, x: XmlModel) -> HandleOut {
    if b.stack.len() == 0 {
        HandleOut { b, out: None }
    } else {
        HandleOut { b: BuilderModel { stack: push_child(b.stack, x) }, out: None }
    }
}

/// The model of the builder's answer.
pub open spec fn out_view(r: Option<Result<Element, BuilderError>>) -> Option<
    Result<ElemModel, BuilderErrorModel>,
> {
    match r {
        Option::None => Option::None,
        Option::Some(Result::Ok(e)) => Option::Some(Result::Ok(elem_view(e))),
        Option::Some(Result::Err(e)) => Option::Some(Result::Err(e@)),
    }
}

/// The last default-namespace declaration on a tag, if any.
fn lookup_default(declared: &Vec<(String, String)>) -> (r: Option<String>)
    ensures
        opt_str_view(r) == frame_lookup(crate::base::decls_view(declared@), Seq::empty()),
{
    let mut i = declared.len();
    proof {
        assert(crate::base::decls_view(declared@).take(i as int) =~= crate::base::decls_view(
            declared@,
        ));
    }
    while i > 0
        invariant
            i <= declared@.len(),
            frame_lookup(crate::base::decls_view(declared@), Seq::empty()) == frame_lookup(
                crate::base::decls_view(declared@).take(i as int),
                Seq::empty(),
            ),
        decreases i,
    {
        i = i - 1;
        proof {
            let dv = crate::base::decls_view(declared@);
            assert(dv.take(i + 1).last() == dv[i as int]);
            assert(dv.take(i + 1).drop_last() =~= dv.take(i as int));
        }
        if declared[i].0.as_str().is_empty() {
            proof {
                assert(crate::base::decls_view(declared@)[i as int].0 =~= Seq::<char>::empty());
            }
            let u = declared[i].1.clone();
            return Some(u);
        }
        proof {
            assert(crate::base::decls_view(declared@)[i as int].0 != Seq::<char>::empty());
        }
    }
    proof {
        assert(crate::base::decls_view(declared@).take(0) =~= Seq::<(Seq<char>, Seq<char>)>::empty());
    }
    None
}

/// The URI-to-prefix pairs kept from the bindings declared on a tag.
#[verifier::loop_isolation(false)]
fn prefixes_of_declared_exec(declared: &Vec<(String, String)>) -> (r: Vec<(String, String)>)
    ensures
        crate::base::decls_view(r@) == prefixes_of_declared(crate::base::decls_view(declared@)),
{
    let mut r: Vec<(String, String)> = Vec::new();
    let mut i: usize = 0;
    proof {
        assert(crate::base::decls_view(declared@).take(0) =~= Seq::<(Seq<char>, Seq<char>)>::empty());
        assert(crate::base::decls_view(r@) =~= Seq::<(Seq<char>, Seq<char>)>::empty());
    }
    while i < declared.len()
        invariant
            i <= declared@.len(),
            crate::base::decls_view(r@) == prefixes_of_declared(
                crate::base::decls_view(declared@).take(i as int),
            ),
        decreases declared@.len() - i,
    {
        proof {
            let dv = crate::base::decls_view(declared@);
            assert(dv.take(i + 1).last() == dv[i as int]);
            assert(dv.take(i + 1).drop_last() =~= dv.take(i as int));
        }
        if !declared[i].0.as_str().is_empty() && !declared[i].1.as_str().is_empty() {
            let ghost d0 = crate::base::decls_view(r@);
            r.push((declared[i].1.clone(), declared[i].0.clone()));
            proof {
                assert(crate::base::decls_view(r@) =~= d0.push(
                    (declared@[i as int].1@, declared@[i as int].0@),
                ));
            }
        }
        i = i + 1;
    }
    proof {
        assert(crate::base::decls_view(declared@).take(declared@.len() as int)
            =~= crate::base::decls_view(declared@));
    }
    r
}


impl ElementBuilder {
    /// Returns a new `ElementBuilder` with an empty stack.
    pub fn new() -> (b: ElementBuilder)
        ensures
            b@ == (BuilderModel { stack: Seq::empty() }),
    {
        let b = ElementBuilder { stack: Vec::new() };
        proof {
            assert(b@ =~= (BuilderModel { stack: Seq::empty() }));
        }
        b
    }

    /// Attaches a node to the element on top of the stack; content outside
    /// any root is discarded.
    fn append_node(&mut self, x: Xml)
        ensures
            final(self)@ == spec_append_node(old(self)@, x@).b,
    {
        let n = self.stack.len();
        if n == 0 {
            return ;
        }
        let mut top = match self.stack.pop() {
            Some(t) => t,
            None => Element::new(String::new(), None, Vec::new()),
        };
        let ghost topm = elem_view(top);
        let ghost xm = x@;
        let ghost oldc = top.children@;
        top.children.push(x);
        proof {
            assert(top.children@.drop_last() =~= oldc);
            assert(children_view(top.children@) =~= topm.children.push(xm));
            assert(elem_view(top) =~= (ElemModel { children: topm.children.push(xm), ..topm }));
        }
        self.stack.push(top);
        proof {
            assert(elems_view(self.stack@) =~= push_child(old(self)@.stack, xm));
        }
    }

    /// Handles one tokenizer output.  Returns `Some(Ok(root))` when a root
    /// element just closed, `Some(Err(..))` on an unmatched end tag or an
    /// upstream tokenizer error, and `None` otherwise.
    pub fn handle_event(&mut self, e: Result<Event, Error>) -> (r: Option<
        Result<Element, BuilderError>,
    >)
        ensures
            final(self)@ == spec_handle_event(old(self)@, res_view(e)).b,
            out_view(r) == spec_handle_event(old(self)@, res_view(e)).out,
    {
        match e {
            Err(err) => Some(Err(BuilderError::Parser(err))),
            Ok(Event::StartTag(t)) => {
                let default_ns = match lookup_default(&t.declared) {
                    Some(u) => {
                        if u.as_str().is_empty() {
                            None
                        } else {
                            Some(u)
                        }
                    },
                    None => {
                        let n = self.stack.len();
                        if n > 0 {
                            match &self.stack[n - 1].default_ns {
                                Some(u) => Some(u.clone()),
                                None => None,
                            }
                        } else {
                            None
                        }
                    },
                };
                let prefixes = prefixes_of_declared_exec(&t.declared);
                let ghost tm = t@;
                let elem = Element {
                    name: t.name,
                    ns: t.ns,
                    default_ns,
                    prefixes,
                    attributes: t.attributes,
                    children: Vec::new(),
                };
                proof {
                    assert(children_view(elem.children@) =~= Seq::<XmlModel>::empty());
                    assert(elem_view(elem) =~= elem_of_start(tm, parent_default(old(self)@.stack)));
                }
                self.stack.push(elem);
                proof {
                    assert(elems_view(self.stack@) =~= old(self)@.stack.push(
                        elem_of_start(tm, parent_default(old(self)@.stack)),
                    ));
                }
                None
            },
            Ok(Event::EndTag(t)) => {
                let n = self.stack.len();
                if n == 0 {
                    return Some(Err(BuilderError::UnmatchedEndTag));
                }
                let matches = str_eq(self.stack[n - 1].name.as_str(), t.name.as_str())
                    && opt_eq_opt(&self.stack[n - 1].ns, &t.ns);
                if !matches {
                    return Some(Err(BuilderError::UnmatchedEndTag));
                }
                let top = match self.stack.pop() {
                    Some(x) => x,
                    None => Element::new(String::new(), None, Vec::new()),
                };
                proof {
                    assert(elems_view(self.stack@) =~= old(self)@.stack.drop_last());
                }
                if self.stack.len() == 0 {
                    Some(Ok(top))
                } else {
                    self.append_node(Xml::ElementNode(top));
                    None
                }
            },
            Ok(Event::Characters(s)) => {
                self.append_node(Xml::CharacterNode(s));
                None
            },
            Ok(Event::CDATA(s)) => {
                self.append_node(Xml::CDATANode(s));
                None
            },
            Ok(Event::Comment(s)) => {
                self.append_node(Xml::CommentNode(s));
                None
            },
            Ok(Event::PI(s)) => {
                self.append_node(Xml::PINode(s));
                None
            },
        }
    }
}


/// The answer of draining a sequence of tokenizer outputs through a
/// builder: the first completed root or error; `NoElement` when the
/// outputs run out first.
pub open spec fn spec_drain(b: BuilderModel, rs: Seq<Result<EventModel, ErrorModel>>) -> Result<
    ElemModel,
    BuilderErrorModel,
>
    decreases rs.len(),
{
    if rs.len() == 0 {
        Err(BuilderErrorModel::NoElement)
    } else {
        let h = spec_handle_event(b, rs[0]);
        match h.out {
            Some(r) => r,
            None => spec_drain(h.b, rs.drop_first()),
        }
    }
}

/// The tree a whole input yields: its tokenizer outputs drained through a
/// fresh builder.
pub open spec fn spec_from_str(s: Seq<char>) -> Result<ElemModel, BuilderErrorModel> {
    spec_drain(
        BuilderModel { stack: Seq::empty() },
        feed_results(spec_feed(init_parser(), s)),
    )
}

impl Element {
    /// Feeds the entire string through a tokenizer and a builder and
    /// returns the first completed root element.  Fails with `NoElement`
    /// when none completes, and with the first unmatched end tag or
    /// tokenizer error otherwise.
    #[verifier::loop_isolation(false)]
    pub fn from_str(data: &str) -> (r: Result<Element, BuilderError>)
        ensures
            (match r {
                Ok(e) => Ok::<ElemModel, BuilderErrorModel>(elem_view(e)),
                Err(e) => Err::<ElemModel, BuilderErrorModel>(e@),
            }) == spec_from_str(data@),
    {
        let mut p = Parser::new();
        let mut b = ElementBuilder::new();
        proof {
            assert(crate::parser::wf(init_parser()));
        }
        let mut events = p.feed_str(data);
        let ghost all = results_view(events@);
        let n = events.len();
        let mut i: usize = 0;
        proof {
            assert(all.skip(0) =~= all);
        }
        while i < n
            invariant
                i <= n,
                n == events@.len(),
                all.len() == n,
                forall|k: int| i <= k < n ==> res_view(#[trigger] events@[k]) == all[k],
                spec_from_str(data@) == spec_drain(b@, all.skip(i as int)),
            decreases n - i,
        {
            proof {
                assert(all.skip(i as int)[0] == all[i as int]);
                assert(all.skip(i as int).drop_first() =~= all.skip(i + 1));
            }
            let mut slot: Result<Event, Error> = Err(Error { line: 0, col: 0, msg: "" });
            events.set_and_swap(i, &mut slot);
            match b.handle_event(slot) {
                Some(Ok(e)) => {
                    return Ok(e);
                },
                Some(Err(err)) => {
                    return Err(err);
                },
                None => {},
            }
            i = i + 1;
        }
        proof {
            assert(all.skip(n as int) =~= Seq::<Result<EventModel, ErrorModel>>::empty());
        }
        Err(BuilderError::NoElement)
    }
}

} // verus!
