//! The in-memory tree: element nodes, their children, and the operations a
//! caller uses to read and build trees by hand.

use crate::base::{attrs_view, decls_view, opt_str_view, Attribute, AttributeModel};
use crate::text::str_eq;
use vstd::pervasive::VecAdditionalExecFns;
use vstd::prelude::*;

verus! {

broadcast use vstd::std_specs::vec::group_vec_axioms;

/// An XML tree node.
#[derive(PartialEq, Debug)]
pub enum Xml {
    /// An element.
    ElementNode(Element),
    /// Character data.
    CharacterNode(String),
    /// A CDATA section.
    CDATANode(String),
    /// A comment.
    CommentNode(String),
    /// A processing instruction.
    PINode(String),
}

/// An element: a named node with namespace bookkeeping, attributes, and
/// ordered children.
#[derive(PartialEq, Debug)]
pub struct Element {
    /// The element's local name.
    pub name: String,
    /// The element's resolved namespace.
    pub ns: Option<String>,
    /// The default namespace in scope at this element.
    pub default_ns: Option<String>,
    /// The prefixes declared on this element, as namespace-URI-to-prefix
    /// pairs; a later pair shadows an earlier one with the same URI.
    pub prefixes: Vec<(String, String)>,
    /// The element's attributes; the pair of local name and namespace is a
    /// key: no two attributes share one.
    pub attributes: Vec<Attribute>,
    /// The element's child nodes, in document order.
    pub children: Vec<Xml>,
}

/// Model of an [`Xml`] node.
#[verifier::ext_equal]
pub ghost enum XmlModel {
    Elem(ElemModel),
    Chars(Seq<char>),
    Cdata(Seq<char>),
    Comment(Seq<char>),
    Pi(Seq<char>),
}

/// Model of an [`Element`].
#[verifier::ext_equal]
pub ghost struct ElemModel {
    pub name: Seq<char>,
    pub ns: Option<Seq<char>>,
    pub default_ns: Option<Seq<char>>,
    pub prefixes: Seq<(Seq<char>, Seq<char>)>,
    pub attributes: Seq<AttributeModel>,
    pub children: Seq<XmlModel>,
}

/// The model of a tree node.
pub open spec fn xml_view(x: Xml) -> XmlModel
    decreases x,
{
    match x {
        Xml::ElementNode(e) => XmlModel::Elem(elem_view(e)),
        Xml::CharacterNode(s) => XmlModel::Chars(s@),
        Xml::CDATANode(s) => XmlModel::Cdata(s@),
        Xml::CommentNode(s) => XmlModel::Comment(s@),
        Xml::PINode(s) => XmlModel::Pi(s@),
    }
}

/// The models of a sequence of tree nodes.
pub open spec fn children_view(s: Seq<Xml>) -> Seq<XmlModel>
    decreases s,
{
    if s.len() == 0 {
        Seq::empty()
    } else {
        children_view(s.drop_last()).push(xml_view(s.last()))
    }
}

/// The model of an element, children modelled recursively.
pub open spec fn elem_view(e: Element) -> ElemModel
    decreases e,
{
    ElemModel {
        name: e.name@,
        ns: opt_str_view(e.ns),
        default_ns: opt_str_view(e.default_ns),
        prefixes: decls_view(e.prefixes@),
        attributes: attrs_view(e.attributes@),
        children: children_view(e.children@),
    }
}

/// The model of a sequence of nodes is the sequence of their models.
pub proof fn lemma_children_view(s: Seq<Xml>)
    ensures
        children_view(s).len() == s.len(),
        forall|i: int| 0 <= i < s.len() ==> children_view(s)[i] == xml_view(#[trigger] s[i]),
    decreases s,
{
    if s.len() > 0 {
        lemma_children_view(s.drop_last());
        assert forall|i: int| 0 <= i < s.len() implies children_view(s)[i] == xml_view(s[i]) by {
            if i < s.len() - 1 {
                assert(s.drop_last()[i] == s[i]);
            }
        }
    }
}

impl View for Xml {
    type V = XmlModel;

    open spec fn view(&self) -> XmlModel {
        xml_view(*self)
    }
}

impl View for Element {
    type V = ElemModel;

    open spec fn view(&self) -> ElemModel {
        elem_view(*self)
    }
}

/// The namespace of an optional borrowed string.
pub open spec fn opt_ref_view(o: Option<&str>) -> Option<Seq<char>> {
    match o {
        Option::None => Option::None,
        Option::Some(s) => Option::Some(s@),
    }
}

/// The value of the attribute keyed by `name` and `ns`, if one stands in
/// the sequence.
pub open spec fn spec_get_attr(
    attrs: Seq<AttributeModel>,
    name: Seq<char>,
    ns: Option<Seq<char>>,
) -> Option<Seq<char>>
    decreases attrs.len(),
{
    if attrs.len() == 0 {
        None
    } else if attrs[0].name == name && attrs[0].ns == ns {
        Some(attrs[0].value)
    } else {
        spec_get_attr(attrs.drop_first(), name, ns)
    }
}

/// The sequence with the attribute keyed by `name` and `ns` set to `value`:
/// replaced in place if present, appended otherwise.
pub open spec fn spec_set_attr(
    attrs: Seq<AttributeModel>,
    a: AttributeModel,
) -> Seq<AttributeModel>
    decreases attrs.len(),
{
    if attrs.len() == 0 {
        seq![a]
    } else if attrs[0].name == a.name && attrs[0].ns == a.ns {
        seq![a] + attrs.drop_first()
    } else {
        seq![attrs[0]] + spec_set_attr(attrs.drop_first(), a)
    }
}

/// The sequence without the attribute keyed by `name` and `ns`.
pub open spec fn spec_remove_attr(
    attrs: Seq<AttributeModel>,
    name: Seq<char>,
    ns: Option<Seq<char>>,
) -> Seq<AttributeModel>
    decreases attrs.len(),
{
    if attrs.len() == 0 {
        attrs
    } else if attrs[0].name == name && attrs[0].ns == ns {
        attrs.drop_first()
    } else {
        seq![attrs[0]] + spec_remove_attr(attrs.drop_first(), name, ns)
    }
}

/// Equality of two optional names.
pub fn opt_eq_str(a: &Option<String>, b: &Option<&str>) -> (r: bool)
    ensures
        r == (opt_str_view(*a) == opt_ref_view(*b)),
{
    match (a, b) {
        (None, None) => true,
        (Some(x), Some(y)) => {
            let r = str_eq(x.as_str(), *y);
            proof {
                if x@ == y@ {
                    assert(opt_str_view(*a) == opt_ref_view(*b));
                }
            }
            r
        },
        _ => {
            proof {
                assert(opt_str_view(*a) != opt_ref_view(*b));
            }
            false
        },
    }
}

impl Element {
    /// Creates a new element with the given name and namespace, which also
    /// becomes its default namespace.  Attributes are given as
    /// `(name, namespace, value)` triples; a later triple with the same
    /// name and namespace replaces an earlier one.
    #[verifier::loop_isolation(false)]
    pub fn new(
        name: String,
        ns: Option<String>,
        attrs: Vec<(String, Option<String>, String)>,
    ) -> (r: Element)
        ensures
            r@.name == name@,
            r@.ns == opt_str_view(ns),
            r@.default_ns == opt_str_view(ns),
            r@.prefixes == Seq::<(Seq<char>, Seq<char>)>::empty(),
            r@.attributes == spec_collect_attrs(triples_view(attrs@)),
            r@.children == Seq::<XmlModel>::empty(),
    {
        let ns2 = match &ns {
            Some(u) => Some(u.clone()),
            None => None,
        };
        let mut e = Element {
            name,
            ns: ns2,
            default_ns: ns,
            prefixes: Vec::new(),
            attributes: Vec::new(),
            children: Vec::new(),
        };
        let mut attrs = attrs;
        let ghost attrs0 = attrs@;
        let ghost triples = triples_view(attrs0);
        let mut i: usize = 0;
        proof {
            assert(attrs_view(e.attributes@) =~= spec_collect_attrs(triples.take(0)));
            assert(e@.children =~= Seq::<XmlModel>::empty());
            assert(e@.prefixes =~= Seq::<(Seq<char>, Seq<char>)>::empty());
        }
        while i < attrs.len()
            invariant
                i <= attrs@.len(),
                attrs@.len() == attrs0.len(),
                forall|k: int| i <= k < attrs0.len() ==> attrs@[k] == attrs0[k],
                attrs_view(e.attributes@) == spec_collect_attrs(triples.take(i as int)),
                e@.name == name@,
                e@.ns == opt_str_view(ns),
                e@.default_ns == opt_str_view(ns),
                e@.prefixes == Seq::<(Seq<char>, Seq<char>)>::empty(),
                e@.children == Seq::<XmlModel>::empty(),
            decreases attrs@.len() - i,
        {
            proof {
                assert(triples.len() == attrs0.len());
                assert(triples.take(i + 1).drop_last() =~= triples.take(i as int));
                assert(triples.take(i + 1).last() == triples[i as int]);
                assert(triples[i as int] == triple_view(attrs0[i as int]));
            }
            let mut triple = (String::new(), None, String::new());
            attrs.set_and_swap(i, &mut triple);
            let (aname, ans, avalue) = triple;
            set_attr_in_vec(&mut e.attributes, Attribute { name: aname, ns: ans, value: avalue });
            i = i + 1;
        }
        proof {
            assert(triples.take(triples.len() as int) =~= triples);
        }
        e
    }

    /// The value of the attribute with the given name and namespace, or
    /// `None` when no such attribute exists.
    pub fn get_attribute<'a>(&'a self, name: &str, ns: Option<&str>) -> (r: Option<&'a str>)
        ensures
            opt_ref_view(r) == spec_get_attr(self@.attributes, name@, opt_ref_view(ns)),
    {
        let n = self.attributes.len();
        let mut i: usize = 0;
        proof {
            assert(self@.attributes.skip(0) =~= self@.attributes);
        }
        while i < n
            invariant
                i <= n,
                n == self.attributes@.len(),
                spec_get_attr(self@.attributes, name@, opt_ref_view(ns)) == spec_get_attr(
                    self@.attributes.skip(i as int),
                    name@,
                    opt_ref_view(ns),
                ),
            decreases n - i,
        {
            proof {
                assert(self@.attributes.skip(i as int)[0] == self@.attributes[i as int]);
                assert(self@.attributes.skip(i as int).drop_first() =~= self@.attributes.skip(
                    i + 1,
                ));
            }
            let a = &self.attributes[i];
            if str_eq(a.name.as_str(), name) && opt_eq_str(&a.ns, &ns) {
                return Some(a.value.as_str());
            }
            i = i + 1;
        }
        proof {
            assert(self@.attributes.skip(n as int) =~= Seq::<AttributeModel>::empty());
        }
        None
    }

    /// Sets the attribute with the given name and namespace and returns the
    /// value it replaced, if any.
    pub fn set_attribute(&mut self, name: String, ns: Option<String>, value: String) -> (r: Option<
        String,
    >)
        ensures
            final(self)@ == (ElemModel {
                attributes: spec_set_attr(
                    old(self)@.attributes,
                    AttributeModel { name: name@, ns: opt_str_view(ns), value: value@ },
                ),
                ..old(self)@
            }),
            opt_str_view(r) == spec_get_attr(old(self)@.attributes, name@, opt_str_view(ns)),
    {
        let r = set_attr_in_vec(
            &mut self.attributes,
            Attribute { name, ns, value },
        );
        proof {
            assert(final(self)@ =~= (ElemModel {
                attributes: attrs_view(final(self).attributes@),
                ..old(self)@
            }));
        }
        r
    }

    /// Removes the attribute with the given name and namespace and returns
    /// its value, if it was present.
    pub fn remove_attribute(&mut self, name: &str, ns: Option<&str>) -> (r: Option<String>)
        ensures
            final(self)@ == (ElemModel {
                attributes: spec_remove_attr(old(self)@.attributes, name@, opt_ref_view(ns)),
                ..old(self)@
            }),
            opt_str_view(r) == spec_get_attr(old(self)@.attributes, name@, opt_ref_view(ns)),
    {
        let n = self.attributes.len();
        let mut i: usize = 0;
        proof {
            assert(old(self)@.attributes.skip(0) =~= old(self)@.attributes);
        }
        while i < n
            invariant
                i <= n,
                *self == *old(self),
                n == self.attributes@.len(),
                spec_get_attr(old(self)@.attributes, name@, opt_ref_view(ns)) == spec_get_attr(
                    old(self)@.attributes.skip(i as int),
                    name@,
                    opt_ref_view(ns),
                ),
                spec_remove_attr(old(self)@.attributes, name@, opt_ref_view(ns))
                    == old(self)@.attributes.take(i as int) + spec_remove_attr(
                    old(self)@.attributes.skip(i as int),
                    name@,
                    opt_ref_view(ns),
                ),
            decreases n - i,
        {
            proof {
                let rest = old(self)@.attributes.skip(i as int);
                assert(rest[0] == old(self)@.attributes[i as int]);
                assert(rest.drop_first() =~= old(self)@.attributes.skip(i + 1));
                assert(old(self)@.attributes.take(i as int) + (seq![rest[0]] + spec_remove_attr(
                    rest.drop_first(),
                    name@,
                    opt_ref_view(ns),
                )) =~= old(self)@.attributes.take(i + 1) + spec_remove_attr(
                    rest.drop_first(),
                    name@,
                    opt_ref_view(ns),
                ));
            }
            let is_hit = str_eq(self.attributes[i].name.as_str(), name) && opt_eq_str(
                &self.attributes[i].ns,
                &ns,
            );
            if is_hit {
                let a = self.attributes.remove(i);
                proof {
                    assert(attrs_view(final(self).attributes@) =~= old(self)@.attributes.take(
                        i as int,
                    ) + old(self)@.attributes.skip(i as int).drop_first());
                    assert(final(self)@ =~= (ElemModel {
                        attributes: spec_remove_attr(
                            old(self)@.attributes,
                            name@,
                            opt_ref_view(ns),
                        ),
                        ..old(self)@
                    }));
                }
                return Some(a.value);
            }
            i = i + 1;
        }
        proof {
            assert(old(self)@.attributes.skip(n as int) =~= Seq::<AttributeModel>::empty());
            assert(old(self)@.attributes.take(n as int) + Seq::<AttributeModel>::empty()
                =~= old(self)@.attributes);
            assert(final(self)@ =~= (ElemModel {
                attributes: spec_remove_attr(old(self)@.attributes, name@, opt_ref_view(ns)),
                ..old(self)@
            }));
        }
        None
    }

    /// Appends a child element.
    pub fn tag(&mut self, child: Element)
        ensures
            final(self)@ == (ElemModel {
                children: old(self)@.children.push(XmlModel::Elem(child@)),
                ..old(self)@
            }),
    {
        self.children.push(Xml::ElementNode(child));
        proof {
            assert(self.children@.drop_last() =~= old(self).children@);
            assert(final(self)@.children =~= old(self)@.children.push(XmlModel::Elem(child@)));
            assert(final(self)@ =~= (ElemModel {
                children: old(self)@.children.push(XmlModel::Elem(child@)),
                ..old(self)@
            }));
        }
    }

    /// Appends a child element, like [`Element::tag`].
    pub fn tag_stay(&mut self, child: Element)
        ensures
            final(self)@ == (ElemModel {
                children: old(self)@.children.push(XmlModel::Elem(child@)),
                ..old(self)@
            }),
    {
        self.tag(child);
    }

    /// Appends character data.
    pub fn text(&mut self, text: String)
        ensures
            final(self)@ == (ElemModel {
                children: old(self)@.children.push(XmlModel::Chars(text@)),
                ..old(self)@
            }),
    {
        self.children.push(Xml::CharacterNode(text));
        proof {
            assert(self.children@.drop_last() =~= old(self).children@);
            assert(final(self)@.children =~= old(self)@.children.push(XmlModel::Chars(text@)));
            assert(final(self)@ =~= (ElemModel {
                children: old(self)@.children.push(XmlModel::Chars(text@)),
                ..old(self)@
            }));
        }
    }

    /// Appends a CDATA section.
    pub fn cdata(&mut self, text: String)
        ensures
            final(self)@ == (ElemModel {
                children: old(self)@.children.push(XmlModel::Cdata(text@)),
                ..old(self)@
            }),
    {
        self.children.push(Xml::CDATANode(text));
        proof {
            assert(self.children@.drop_last() =~= old(self).children@);
            assert(final(self)@.children =~= old(self)@.children.push(XmlModel::Cdata(text@)));
            assert(final(self)@ =~= (ElemModel {
                children: old(self)@.children.push(XmlModel::Cdata(text@)),
                ..old(self)@
            }));
        }
    }

    /// Appends a comment.
    pub fn comment(&mut self, text: String)
        ensures
            final(self)@ == (ElemModel {
                children: old(self)@.children.push(XmlModel::Comment(text@)),
                ..old(self)@
            }),
    {
        self.children.push(Xml::CommentNode(text));
        proof {
            assert(self.children@.drop_last() =~= old(self).children@);
            assert(final(self)@.children =~= old(self)@.children.push(XmlModel::Comment(text@)));
            assert(final(self)@ =~= (ElemModel {
                children: old(self)@.children.push(XmlModel::Comment(text@)),
                ..old(self)@
            }));
        }
    }

    /// Appends a processing instruction.
    pub fn pi(&mut self, text: String)
        ensures
            final(self)@ == (ElemModel {
                children: old(self)@.children.push(XmlModel::Pi(text@)),
                ..old(self)@
            }),
    {
        self.children.push(Xml::PINode(text));
        proof {
            assert(self.children@.drop_last() =~= old(self).children@);
            assert(final(self)@.children =~= old(self)@.children.push(XmlModel::Pi(text@)));
            assert(final(self)@ =~= (ElemModel {
                children: old(self)@.children.push(XmlModel::Pi(text@)),
                ..old(self)@
            }));
        }
    }
}

/// The model of one attribute triple.
pub open spec fn triple_view(t: (String, Option<String>, String)) -> AttributeModel {
    AttributeModel { name: t.0@, ns: opt_str_view(t.1), value: t.2@ }
}

/// The model of a sequence of attribute triples.
pub open spec fn triples_view(s: Seq<(String, Option<String>, String)>) -> Seq<AttributeModel> {
    s.map_values(|t: (String, Option<String>, String)| triple_view(t))
}

/// The attribute mapping collected from a sequence of triples, a later
/// triple with the same key replacing an earlier one.
pub open spec fn spec_collect_attrs(ts: Seq<AttributeModel>) -> Seq<AttributeModel>
    decreases ts.len(),
{
    if ts.len() == 0 {
        Seq::empty()
    } else {
        spec_set_attr(spec_collect_attrs(ts.drop_last()), ts.last())
    }
}

/// Sets the attribute with the key of `a` in a vector of attributes and
/// returns the value it replaced, if any.
fn set_attr_in_vec(attrs: &mut Vec<Attribute>, a: Attribute) -> (r: Option<String>)
    ensures
        attrs_view(final(attrs)@) == spec_set_attr(attrs_view(old(attrs)@), a@),
        opt_str_view(r) == spec_get_attr(attrs_view(old(attrs)@), a@.name, a@.ns),
{
    let n = attrs.len();
    let mut i: usize = 0;
    proof {
        assert(attrs_view(old(attrs)@).skip(0) =~= attrs_view(old(attrs)@));
    }
    while i < n
        invariant
            i <= n,
            *attrs == *old(attrs),
            n == attrs@.len(),
            spec_get_attr(attrs_view(old(attrs)@), a@.name, a@.ns) == spec_get_attr(
                attrs_view(old(attrs)@).skip(i as int),
                a@.name,
                a@.ns,
            ),
            spec_set_attr(attrs_view(old(attrs)@), a@) == attrs_view(old(attrs)@).take(i as int)
                + spec_set_attr(attrs_view(old(attrs)@).skip(i as int), a@),
        decreases n - i,
    {
        proof {
            let rest = attrs_view(old(attrs)@).skip(i as int);
            assert(rest[0] == attrs_view(old(attrs)@)[i as int]);
            assert(rest.drop_first() =~= attrs_view(old(attrs)@).skip(i + 1));
            if !(rest[0].name == a@.name && rest[0].ns == a@.ns) {
                assert(attrs_view(old(attrs)@).take(i as int) + (seq![rest[0]] + spec_set_attr(
                    rest.drop_first(),
                    a@,
                )) =~= attrs_view(old(attrs)@).take(i + 1) + spec_set_attr(
                    rest.drop_first(),
                    a@,
                ));
            }
        }
        let is_hit = str_eq(attrs[i].name.as_str(), a.name.as_str()) && opt_eq_opt(
            &attrs[i].ns,
            &a.ns,
        );
        if is_hit {
            let mut a2 = a;
            attrs.set_and_swap(i, &mut a2);
            proof {
                assert(attrs_view(final(attrs)@) =~= attrs_view(old(attrs)@).take(i as int) + (
                seq![a@] + attrs_view(old(attrs)@).skip(i as int).drop_first()));
            }
            return Some(a2.value);
        }
        i = i + 1;
    }
    attrs.push(a);
    proof {
        assert(attrs_view(old(attrs)@).skip(n as int) =~= Seq::<AttributeModel>::empty());
        assert(attrs_view(old(attrs)@).take(n as int) =~= attrs_view(old(attrs)@));
        assert(attrs_view(final(attrs)@) =~= attrs_view(old(attrs)@) + seq![a@]);
        assert(attrs_view(old(attrs)@) + seq![a@] =~= attrs_view(old(attrs)@).take(n as int)
            + spec_set_attr(attrs_view(old(attrs)@).skip(n as int), a@));
    }
    None
}

/// Equality of two optional names.
pub fn opt_eq_opt(a: &Option<String>, b: &Option<String>) -> (r: bool)
    ensures
        r == (opt_str_view(*a) == opt_str_view(*b)),
{
    match (a, b) {
        (None, None) => true,
        (Some(x), Some(y)) => {
            let r = str_eq(x.as_str(), y.as_str());
            proof {
                if x@ == y@ {
                    assert(opt_str_view(*a) == opt_str_view(*b));
                }
            }
            r
        },
        _ => {
            proof {
                assert(opt_str_view(*a) != opt_str_view(*b));
            }
            false
        },
    }
}


/// The character data a node contributes to its element's content:
/// character and CDATA text, with elements searched recursively.
pub open spec fn spec_content(x: XmlModel) -> Seq<char>
    decreases x,
{
    match x {
        XmlModel::Elem(e) => spec_children_content(e.children),
        XmlModel::Chars(s) => s,
        XmlModel::Cdata(s) => s,
        XmlModel::Comment(_) => Seq::empty(),
        XmlModel::Pi(_) => Seq::empty(),
    }
}

/// The concatenated content of a list of nodes, in order.
pub open spec fn spec_children_content(cs: Seq<XmlModel>) -> Seq<char>
    decreases cs,
{
    if cs.len() == 0 {
        Seq::empty()
    } else {
        spec_children_content(cs.drop_last()) + spec_content(cs.last())
    }
}

/// The first element among `cs` with the given name and namespace.
pub open spec fn spec_find_child(
    cs: Seq<XmlModel>,
    name: Seq<char>,
    ns: Option<Seq<char>>,
) -> Option<ElemModel>
    decreases cs.len(),
{
    if cs.len() == 0 {
        None
    } else {
        match cs[0] {
            XmlModel::Elem(e) => if e.name == name && e.ns == ns {
                Some(e)
            } else {
                spec_find_child(cs.drop_first(), name, ns)
            },
            _ => spec_find_child(cs.drop_first(), name, ns),
        }
    }
}

/// All elements among `cs` with the given name and namespace, in order.
pub open spec fn spec_filter_children(
    cs: Seq<XmlModel>,
    name: Seq<char>,
    ns: Option<Seq<char>>,
) -> Seq<ElemModel>
    decreases cs.len(),
{
    if cs.len() == 0 {
        Seq::empty()
    } else {
        let rest = spec_filter_children(cs.drop_last(), name, ns);
        match cs.last() {
            XmlModel::Elem(e) => if e.name == name && e.ns == ns {
                rest.push(e)
            } else {
                rest
            },
            _ => rest,
        }
    }
}

/// The first attribute keyed by `name` and `ns`, whole.
pub open spec fn spec_find_attr(
    attrs: Seq<AttributeModel>,
    name: Seq<char>,
    ns: Option<Seq<char>>,
) -> Option<AttributeModel>
    decreases attrs.len(),
{
    if attrs.len() == 0 {
        None
    } else if attrs[0].name == name && attrs[0].ns == ns {
        Some(attrs[0])
    } else {
        spec_find_attr(attrs.drop_first(), name, ns)
    }
}

/// The models of a sequence of borrowed elements.
pub open spec fn relems_view(s: Seq<&Element>) -> Seq<ElemModel> {
    s.map_values(|e: &Element| elem_view(*e))
}

/// The concatenated character and CDATA content of a list of nodes.
#[verifier::loop_isolation(false)]
fn children_content_exec(cs: &Vec<Xml>) -> (r: Vec<char>)
    ensures
        r@ == spec_children_content(children_view(cs@)),
    decreases *cs,
{
    let ghost cm = children_view(cs@);
    proof {
        lemma_children_view(cs@);
    }
    let mut out: Vec<char> = Vec::new();
    let mut i: usize = 0;
    proof {
        assert(cm.take(0) =~= Seq::<XmlModel>::empty());
        assert(out@ =~= Seq::<char>::empty());
    }
    while i < cs.len()
        invariant
            i <= cs@.len(),
            cm == children_view(cs@),
            cm.len() == cs@.len(),
            forall|k: int| 0 <= k < cs@.len() ==> cm[k] == xml_view(#[trigger] cs@[k]),
            out@ == spec_children_content(cm.take(i as int)),
        decreases cs@.len() - i,
    {
        proof {
            assert(cm.take(i + 1).drop_last() =~= cm.take(i as int));
            assert(cm.take(i + 1).last() == cm[i as int]);
        }
        match &cs[i] {
            Xml::ElementNode(e) => {
                proof {
                    assert(cm[i as int] == XmlModel::Elem(elem_view(*e)));
                    assert(spec_content(cm[i as int]) == spec_children_content(
                        children_view(e.children@),
                    ));
                }
                let mut t = children_content_exec(&e.children);
                out.append(&mut t);
            },
            Xml::CharacterNode(s) => {
                proof {
                    assert(cm[i as int] == XmlModel::Chars(s@));
                }
                let mut t = crate::text::str_to_chars(s.as_str());
                out.append(&mut t);
            },
            Xml::CDATANode(s) => {
                proof {
                    assert(cm[i as int] == XmlModel::Cdata(s@));
                }
                let mut t = crate::text::str_to_chars(s.as_str());
                out.append(&mut t);
            },
            Xml::CommentNode(_) => {
                proof {
                    assert(out@ + Seq::<char>::empty() =~= out@);
                }
            },
            Xml::PINode(_) => {
                proof {
                    assert(out@ + Seq::<char>::empty() =~= out@);
                }
            },
        }
        proof {
            assert(out@ =~= spec_children_content(cm.take(i as int)) + spec_content(
                cm[i as int],
            ));
            assert(out@ =~= spec_children_content(cm.take(i + 1)));
        }
        i = i + 1;
    }
    proof {
        assert(cm.take(cs@.len() as int) =~= cm);
    }
    out
}

impl Element {
    /// The character and CDATA text contained in the element, elements
    /// searched recursively, comments and processing instructions skipped.
    pub fn content_str(&self) -> (r: String)
        ensures
            r@ == spec_children_content(self@.children),
    {
        let v = children_content_exec(&self.children);
        crate::text::chars_to_string(&v)
    }

    /// The first child element with the given name and namespace, or
    /// `None` when no such child exists.
    #[verifier::loop_isolation(false)]
    pub fn get_child<'a>(&'a self, name: &str, ns: Option<&str>) -> (r: Option<&'a Element>)
        ensures
            (match r {
                Some(e) => Some(elem_view(*e)),
                None => None,
            }) == spec_find_child(self@.children, name@, opt_ref_view(ns)),
    {
        let ghost cm = children_view(self.children@);
        let ghost nsm = opt_ref_view(ns);
        proof {
            lemma_children_view(self.children@);
            assert(cm.skip(0) =~= cm);
        }
        let n = self.children.len();
        let mut i: usize = 0;
        while i < n
            invariant
                i <= n,
                n == self.children@.len(),
                cm == children_view(self.children@),
                cm.len() == n,
                forall|k: int| 0 <= k < n ==> cm[k] == xml_view(#[trigger] self.children@[k]),
                spec_find_child(cm, name@, nsm) == spec_find_child(cm.skip(i as int), name@, nsm),
            decreases n - i,
        {
            proof {
                assert(cm.skip(i as int)[0] == cm[i as int]);
                assert(cm.skip(i as int).drop_first() =~= cm.skip(i + 1));
            }
            match &self.children[i] {
                Xml::ElementNode(e) => {
                    if str_eq(e.name.as_str(), name) && opt_eq_str(&e.ns, &ns) {
                        return Some(e);
                    }
                },
                _ => {},
            }
            i = i + 1;
        }
        proof {
            assert(cm.skip(n as int) =~= Seq::<XmlModel>::empty());
        }
        None
    }

    /// All child elements with the given name and namespace, in order;
    /// empty when none exists.
    #[verifier::loop_isolation(false)]
    pub fn get_children<'a>(&'a self, name: &str, ns: Option<&str>) -> (r: Vec<&'a Element>)
        ensures
            relems_view(r@) == spec_filter_children(self@.children, name@, opt_ref_view(ns)),
    {
        let ghost cm = children_view(self.children@);
        let ghost nsm = opt_ref_view(ns);
        proof {
            lemma_children_view(self.children@);
        }
        let n = self.children.len();
        let mut out: Vec<&'a Element> = Vec::new();
        let mut i: usize = 0;
        proof {
            assert(cm.take(0) =~= Seq::<XmlModel>::empty());
            assert(relems_view(out@) =~= Seq::<ElemModel>::empty());
        }
        while i < n
            invariant
                i <= n,
                n == self.children@.len(),
                cm == children_view(self.children@),
                cm.len() == n,
                forall|k: int| 0 <= k < n ==> cm[k] == xml_view(#[trigger] self.children@[k]),
                relems_view(out@) == spec_filter_children(cm.take(i as int), name@, nsm),
            decreases n - i,
        {
            proof {
                assert(cm.take(i + 1).drop_last() =~= cm.take(i as int));
                assert(cm.take(i + 1).last() == cm[i as int]);
            }
            match &self.children[i] {
                Xml::ElementNode(e) => {
                    if str_eq(e.name.as_str(), name) && opt_eq_str(&e.ns, &ns) {
                        let ghost o0 = relems_view(out@);
                        out.push(e);
                        proof {
                            assert(relems_view(out@) =~= o0.push(elem_view(*e)));
                        }
                    }
                },
                _ => {},
            }
            i = i + 1;
        }
        proof {
            assert(cm.take(n as int) =~= cm);
        }
        out
    }

    /// The first attribute with the given name and no namespace.
    pub fn attribute_with_name<'a>(&'a self, name: &str) -> (r: Option<&'a Attribute>)
        ensures
            (match r {
                Some(a) => Some(a@),
                None => None,
            }) == spec_find_attr(self@.attributes, name@, None),
    {
        self.attribute_with_name_and_ns(name, None)
    }

    /// The first attribute with the given name and namespace.
    #[verifier::loop_isolation(false)]
    pub fn attribute_with_name_and_ns<'a>(&'a self, name: &str, ns: Option<&str>) -> (r: Option<
        &'a Attribute,
    >)
        ensures
            (match r {
                Some(a) => Some(a@),
                None => None,
            }) == spec_find_attr(self@.attributes, name@, opt_ref_view(ns)),
    {
        let ghost am = self@.attributes;
        let ghost nsm = opt_ref_view(ns);
        proof {
            assert(am.skip(0) =~= am);
        }
        let n = self.attributes.len();
        let mut i: usize = 0;
        while i < n
            invariant
                i <= n,
                n == self.attributes@.len(),
                am == self@.attributes,
                spec_find_attr(am, name@, nsm) == spec_find_attr(am.skip(i as int), name@, nsm),
            decreases n - i,
        {
            proof {
                assert(am.skip(i as int)[0] == am[i as int]);
                assert(am.skip(i as int).drop_first() =~= am.skip(i + 1));
            }
            let a = &self.attributes[i];
            if str_eq(a.name.as_str(), name) && opt_eq_str(&a.ns, &ns) {
                return Some(a);
            }
            i = i + 1;
        }
        proof {
            assert(am.skip(n as int) =~= Seq::<AttributeModel>::empty());
        }
        None
    }

    /// The first child element with the given name and no namespace.
    pub fn child_with_name<'a>(&'a self, name: &str) -> (r: Option<&'a Element>)
        ensures
            (match r {
                Some(e) => Some(elem_view(*e)),
                None => None,
            }) == spec_find_child(self@.children, name@, None),
    {
        self.get_child(name, None)
    }

    /// The first child element with the given name and namespace.
    pub fn child_with_name_and_ns<'a>(&'a self, name: &str, ns: Option<&str>) -> (r: Option<
        &'a Element,
    >)
        ensures
            (match r {
                Some(e) => Some(elem_view(*e)),
                None => None,
            }) == spec_find_child(self@.children, name@, opt_ref_view(ns)),
    {
        self.get_child(name, ns)
    }

    /// All child elements with the given name and no namespace.
    pub fn children_with_name<'a>(&'a self, name: &str) -> (r: Vec<&'a Element>)
        ensures
            relems_view(r@) == spec_filter_children(self@.children, name@, None),
    {
        self.get_children(name, None)
    }

    /// All child elements with the given name and namespace.
    pub fn children_with_name_and_ns<'a>(&'a self, name: &str, ns: Option<&str>) -> (r: Vec<
        &'a Element,
    >)
        ensures
            relems_view(r@) == spec_filter_children(self@.children, name@, opt_ref_view(ns)),
    {
        self.get_children(name, ns)
    }
}

} // verus!
