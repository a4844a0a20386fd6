//! Tree to text: the canonical XML form of an element, escaping character
//! data and attribute values, declaring the default namespace where it
//! changes, and writing prefixes for namespaced names.

use crate::base::{decls_view, AttributeModel};
use crate::codec::spec_escape;
use crate::element::{elem_view, xml_view, ElemModel, Element, Xml, XmlModel};
use crate::parser::{frame_lookup, FrameModel};
use crate::text::{chars_to_string, str_to_chars};
use vstd::prelude::*;

verus! {

broadcast use vstd::std_specs::vec::group_vec_axioms;

/// The key under which a namespace is looked up: its URI, or the empty
/// string for no namespace.
pub open spec fn opt_ns_key(ns: Option<Seq<char>>) -> Seq<char> {
    match ns {
        None => Seq::empty(),
        Some(u) => u,
    }
}

/// The text of one attribute, ` name='value'` or ` px:name='value'`, the
/// value escaped; `None` when its namespace has no prefix bound.
pub open spec fn spec_attr_text(a: AttributeModel, all: FrameModel) -> Option<Seq<char>> {
    match a.ns {
        None => Some(" "@ + a.name + "='"@ + spec_escape(a.value) + "'"@),
        Some(u) => match frame_lookup(all, u) {
            None => None,
            Some(px) => Some(
                " "@ + px + ":"@ + a.name + "='"@ + spec_escape(a.value) + "'"@,
            ),
        },
    }
}

/// The text of a sequence of attributes, in order.
pub open spec fn spec_attrs_text(attrs: Seq<AttributeModel>, all: FrameModel) -> Option<Seq<char>>
    decreases attrs.len(),
{
    if attrs.len() == 0 {
        Some(Seq::empty())
    } else {
        match spec_attrs_text(attrs.drop_last(), all) {
            None => None,
            Some(t) => match spec_attr_text(attrs.last(), all) {
                None => None,
                Some(u) => Some(t + u),
            },
        }
    }
}

/// The name as written in the element's tags: bare when its namespace is
/// the default, prefixed otherwise; `None` when a needed prefix is
/// unbound.
pub open spec fn spec_open_name(e: ElemModel, all: FrameModel) -> Option<Seq<char>> {
    if e.ns == e.default_ns {
        Some(e.name)
    } else {
        match frame_lookup(all, opt_ns_key(e.ns)) {
            None => None,
            Some(px) => Some(px + ":"@ + e.name),
        }
    }
}

/// The ` xmlns='…'` declaration an element writes: at the root when its
/// default namespace is set, below when it differs from its parent's.
pub open spec fn spec_default_decl(e: ElemModel, parent: Option<Option<Seq<char>>>) -> Seq<char> {
    match parent {
        None => match e.default_ns {
            Some(u) => " xmlns='"@ + u + "'"@,
            None => Seq::empty(),
        },
        Some(pd) => if pd != e.default_ns {
            " xmlns='"@ + opt_ns_key(e.default_ns) + "'"@
        } else {
            Seq::empty()
        },
    }
}

/// The canonical text of an element under its parent's default namespace
/// and the prefixes in scope; `None` when a needed prefix is unbound.
pub open spec fn spec_elem_text(
    e: ElemModel,
    parent: Option<Option<Seq<char>>>,
    env: FrameModel,
) -> Option<Seq<char>>
    decreases e,
{
    let all = env + e.prefixes;
    match spec_open_name(e, all) {
        None => None,
        Some(nm) => match spec_attrs_text(e.attributes, all) {
            None => None,
            Some(at) => {
                let head = "<"@ + nm + spec_default_decl(e, parent) + at;
                if e.children.len() == 0 {
                    Some(head + "/>"@)
                } else {
                    match spec_children_text(e.children, e.default_ns, all) {
                        None => None,
                        Some(ct) => Some(head + ">"@ + ct + "</"@ + nm + ">"@),
                    }
                }
            },
        },
    }
}

/// The text of a sequence of child nodes, in order.
pub open spec fn spec_children_text(
    cs: Seq<XmlModel>,
    parent_default: Option<Seq<char>>,
    env: FrameModel,
) -> Option<Seq<char>>
    decreases cs,
{
    if cs.len() == 0 {
        Some(Seq::empty())
    } else {
        match spec_children_text(cs.drop_last(), parent_default, env) {
            None => None,
            Some(t) => match spec_node_text(cs.last(), parent_default, env) {
                None => None,
                Some(u) => Some(t + u),
            },
        }
    }
}

/// The text of one node: an element recursively, character data escaped,
/// CDATA, comments and processing instructions in their brackets.
pub open spec fn spec_node_text(
    x: XmlModel,
    parent_default: Option<Seq<char>>,
    env: FrameModel,
) -> Option<Seq<char>>
    decreases x,
{
    match x {
        XmlModel::Elem(e) => spec_elem_text(e, Some(parent_default), env),
        XmlModel::Chars(s) => Some(spec_escape(s)),
        XmlModel::Cdata(s) => Some("<![CDATA["@ + s + "]]>"@),
        XmlModel::Comment(s) => Some("<!--"@ + s + "-->"@),
        XmlModel::Pi(s) => Some("<?"@ + s + "?>"@),
    }
}

/// Appends the characters of a string slice.
fn push_str_chars(out: &mut Vec<char>, s: &str)
    ensures
        final(out)@ == old(out)@ + s@,
{
    let mut cs = str_to_chars(s);
    out.append(&mut cs);
}

/// Appends the characters of an owned vector.
fn push_chars(out: &mut Vec<char>, mut cs: Vec<char>)
    ensures
        final(out)@ == old(out)@ + cs@,
{
    out.append(&mut cs);
}

/// The concatenation of two binding environments.
fn concat_decls(env: &Vec<(String, String)>, own: &Vec<(String, String)>) -> (r: Vec<
    (String, String),
>)
    ensures
        decls_view(r@) == decls_view(env@) + decls_view(own@),
{
    let mut r: Vec<(String, String)> = Vec::new();
    let mut i: usize = 0;
    proof {
        assert(decls_view(r@) =~= (decls_view(env@) + decls_view(own@)).take(0));
    }
    while i < env.len()
        invariant
            i <= env@.len(),
            decls_view(r@) == (decls_view(env@) + decls_view(own@)).take(i as int),
        decreases env@.len() - i,
    {
        let ghost r0 = r@;
        r.push((env[i].0.clone(), env[i].1.clone()));
        proof {
            assert(r@.last().0@ == env@[i as int].0@);
            assert(r@.last().1@ == env@[i as int].1@);
            assert(r@.drop_last() =~= r0);
            let all = decls_view(env@) + decls_view(own@);
            assert(decls_view(r0).len() == all.take(i as int).len());
            assert(decls_view(r0).len() == r0.len());
            assert(r0.len() == i);
            assert(r@.len() == i + 1);
            assert(decls_view(r@).len() == r@.len());
            assert(decls_view(r@).len() == i + 1);
            assert forall|k: int| 0 <= k < i + 1 implies decls_view(r@)[k] == all.take(i + 1)[k] by {
                assert(decls_view(r@)[k] == (r@[k].0@, r@[k].1@));
                assert(all.take(i + 1)[k] == decls_view(env@)[k]);
                assert(decls_view(env@)[k] == (env@[k].0@, env@[k].1@));
                if k < i {
                    assert(r@[k] == r0[k]);
                    assert(decls_view(r0)[k] == (r0[k].0@, r0[k].1@));
                    assert(decls_view(r0)[k] == all.take(i as int)[k]);
                }
            }
            assert(decls_view(r@) =~= all.take(i + 1));
        }
        i = i + 1;
    }
    let mut j: usize = 0;
    while j < own.len()
        invariant
            j <= own@.len(),
            decls_view(r@) == (decls_view(env@) + decls_view(own@)).take(env@.len() + j),
        decreases own@.len() - j,
    {
        let ghost r0 = r@;
        r.push((own[j].0.clone(), own[j].1.clone()));
        proof {
            assert(r@.last().0@ == own@[j as int].0@);
            assert(r@.last().1@ == own@[j as int].1@);
            assert(r@.drop_last() =~= r0);
            let all = decls_view(env@) + decls_view(own@);
            let m = env@.len() + j;
            assert(decls_view(r0).len() == all.take(m as int).len());
            assert(decls_view(r0).len() == r0.len());
            assert(r0.len() == m);
            assert(r@.len() == m + 1);
            assert(decls_view(r@).len() == r@.len());
            assert forall|k: int| 0 <= k < m + 1 implies decls_view(r@)[k] == all.take(m + 1)[k] by {
                assert(decls_view(r@)[k] == (r@[k].0@, r@[k].1@));
                if k < m {
                    assert(r@[k] == r0[k]);
                    assert(decls_view(r0)[k] == (r0[k].0@, r0[k].1@));
                    assert(decls_view(r0)[k] == all.take(m as int)[k]);
                } else {
                    assert(all.take(m + 1)[k] == decls_view(own@)[j as int]);
                    assert(decls_view(own@)[j as int] == (own@[j as int].0@, own@[j as int].1@));
                }
            }
            assert(decls_view(r@) =~= all.take(m + 1));
        }
        j = j + 1;
    }
    proof {
        assert((decls_view(env@) + decls_view(own@)).take(env@.len() + own@.len() as int) =~= decls_view(
            env@,
        ) + decls_view(own@));
    }
    r
}

/// The prefix bound to a key in an environment, latest binding first.
fn lookup_decl(all: &Vec<(String, String)>, key: &str) -> (r: Option<String>)
    ensures
        crate::base::opt_str_view(r) == frame_lookup(decls_view(all@), key@),
{
    let mut i = all.len();
    proof {
        assert(decls_view(all@).take(i as int) =~= decls_view(all@));
    }
    while i > 0
        invariant
            i <= all@.len(),
            frame_lookup(decls_view(all@), key@) == frame_lookup(
                decls_view(all@).take(i as int),
                key@,
            ),
        decreases i,
    {
        i = i - 1;
        proof {
            let dv = decls_view(all@);
            assert(dv.take(i + 1).last() == dv[i as int]);
            assert(dv.take(i + 1).drop_last() =~= dv.take(i as int));
        }
        if crate::text::str_eq(all[i].0.as_str(), key) {
            return Some(all[i].1.clone());
        }
    }
    proof {
        assert(decls_view(all@).take(0) =~= Seq::<(Seq<char>, Seq<char>)>::empty());
    }
    None
}


/// If the attribute at `i` has no text and everything before it does, the
/// whole attribute list has none.
proof fn lemma_attrs_text_none(attrs: Seq<AttributeModel>, all: FrameModel, i: int)
    requires
        0 <= i < attrs.len(),
        spec_attrs_text(attrs.take(i), all) is Some,
        spec_attr_text(attrs[i], all) is None,
    ensures
        spec_attrs_text(attrs, all) is None,
    decreases attrs.len(),
{
    if attrs.len() - 1 == i {
        assert(attrs.drop_last() =~= attrs.take(i));
        assert(attrs.last() == attrs[i]);
    } else {
        assert(attrs.drop_last().take(i) =~= attrs.take(i));
        assert(attrs.drop_last()[i] == attrs[i]);
        lemma_attrs_text_none(attrs.drop_last(), all, i);
    }
}

/// If the child at `i` has no text and everything before it does, the
/// whole child list has none.
proof fn lemma_children_text_none(
    cs: Seq<XmlModel>,
    pd: Option<Seq<char>>,
    env: FrameModel,
    i: int,
)
    requires
        0 <= i < cs.len(),
        spec_children_text(cs.take(i), pd, env) is Some,
        spec_node_text(cs[i], pd, env) is None,
    ensures
        spec_children_text(cs, pd, env) is None,
    decreases cs.len(),
{
    if cs.len() - 1 == i {
        assert(cs.drop_last() =~= cs.take(i));
        assert(cs.last() == cs[i]);
    } else {
        assert(cs.drop_last().take(i) =~= cs.take(i));
        assert(cs.drop_last()[i] == cs[i]);
        lemma_children_text_none(cs.drop_last(), pd, env, i);
    }
}

/// The model of an optional parent default namespace.
pub open spec fn parent_view(p: Option<&Option<String>>) -> Option<Option<Seq<char>>> {
    match p {
        Option::None => Option::None,
        Option::Some(d) => Option::Some(crate::base::opt_str_view(*d)),
    }
}

/// The text of the attributes of a tag, in order, against the bindings in
/// scope.
#[verifier::loop_isolation(false)]
fn attrs_text_exec(attrs: &Vec<crate::base::Attribute>, all: &Vec<(String, String)>) -> (r: Option<
    Vec<char>,
>)
    ensures
        crate::parser::opt_chars_view(r) == spec_attrs_text(
            crate::base::attrs_view(attrs@),
            decls_view(all@),
        ),
{
    let ghost am = crate::base::attrs_view(attrs@);
    let ghost allm = decls_view(all@);
    let mut out: Vec<char> = Vec::new();
    let mut i: usize = 0;
    proof {
        assert(am.take(0) =~= Seq::<AttributeModel>::empty());
        assert(out@ =~= Seq::<char>::empty());
    }
    while i < attrs.len()
        invariant
            i <= attrs@.len(),
            spec_attrs_text(am.take(i as int), allm) == Some(out@),
        decreases attrs@.len() - i,
    {
        proof {
            assert(am.take(i + 1).drop_last() =~= am.take(i as int));
            assert(am.take(i + 1).last() == am[i as int]);
        }
        let a = &attrs[i];
        let escaped = crate::codec::escape(a.value.as_str());
        match &a.ns {
            None => {
                let ghost out0 = out@;
                push_str_chars(&mut out, " ");
                push_str_chars(&mut out, a.name.as_str());
                push_str_chars(&mut out, "='");
                push_str_chars(&mut out, escaped.as_str());
                push_str_chars(&mut out, "'");
                proof {
                    assert(out@ =~= out0 + (" "@ + am[i as int].name + "='"@ + spec_escape(
                        am[i as int].value,
                    ) + "'"@));
                }
            },
            Some(u) => {
                match lookup_decl(all, u.as_str()) {
                    None => {
                        proof {
                            lemma_attrs_text_none(am, allm, i as int);
                        }
                        return None;
                    },
                    Some(px) => {
                        let ghost out0 = out@;
                        push_str_chars(&mut out, " ");
                        push_str_chars(&mut out, px.as_str());
                        push_str_chars(&mut out, ":");
                        push_str_chars(&mut out, a.name.as_str());
                        push_str_chars(&mut out, "='");
                        push_str_chars(&mut out, escaped.as_str());
                        push_str_chars(&mut out, "'");
                        proof {
                            assert(out@ =~= out0 + (" "@ + px@ + ":"@ + am[i as int].name + "='"@
                                + spec_escape(am[i as int].value) + "'"@));
                        }
                    },
                }
            },
        }
        i = i + 1;
    }
    proof {
        assert(am.take(attrs@.len() as int) =~= am);
    }
    Some(out)
}

/// The text of one tree node.
#[verifier::loop_isolation(false)]
fn node_text_exec(x: &Xml, parent_default: &Option<String>, env: &Vec<(String, String)>) -> (r:
    Option<Vec<char>>)
    ensures
        crate::parser::opt_chars_view(r) == spec_node_text(
            xml_view(*x),
            crate::base::opt_str_view(*parent_default),
            decls_view(env@),
        ),
    decreases *x,
{
    match x {
        Xml::ElementNode(e) => elem_text_exec(e, Some(parent_default), env),
        Xml::CharacterNode(s) => {
            let escaped = crate::codec::escape(s.as_str());
            Some(str_to_chars(escaped.as_str()))
        },
        Xml::CDATANode(s) => {
            let mut out: Vec<char> = Vec::new();
            push_str_chars(&mut out, "<![CDATA[");
            push_str_chars(&mut out, s.as_str());
            push_str_chars(&mut out, "]]>");
            proof {
                assert(out@ =~= "<![CDATA["@ + s@ + "]]>"@);
            }
            Some(out)
        },
        Xml::CommentNode(s) => {
            let mut out: Vec<char> = Vec::new();
            push_str_chars(&mut out, "<!--");
            push_str_chars(&mut out, s.as_str());
            push_str_chars(&mut out, "-->");
            proof {
                assert(out@ =~= "<!--"@ + s@ + "-->"@);
            }
            Some(out)
        },
        Xml::PINode(s) => {
            let mut out: Vec<char> = Vec::new();
            push_str_chars(&mut out, "<?");
            push_str_chars(&mut out, s.as_str());
            push_str_chars(&mut out, "?>");
            proof {
                assert(out@ =~= "<?"@ + s@ + "?>"@);
            }
            Some(out)
        },
    }
}

/// The text of a list of children, in order.
#[verifier::loop_isolation(false)]
fn children_text_exec(
    cs: &Vec<Xml>,
    parent_default: &Option<String>,
    env: &Vec<(String, String)>,
) -> (r: Option<Vec<char>>)
    ensures
        crate::parser::opt_chars_view(r) == spec_children_text(
            crate::element::children_view(cs@),
            crate::base::opt_str_view(*parent_default),
            decls_view(env@),
        ),
    decreases *cs,
{
    let ghost cm = crate::element::children_view(cs@);
    let ghost pd = crate::base::opt_str_view(*parent_default);
    let ghost envm = decls_view(env@);
    proof {
        crate::element::lemma_children_view(cs@);
    }
    let mut out: Vec<char> = Vec::new();
    let mut i: usize = 0;
    proof {
        assert(cm.take(0) =~= Seq::<XmlModel>::empty());
        assert(out@ =~= Seq::<char>::empty());
    }
    while i < cs.len()
        invariant
            i <= cs@.len(),
            spec_children_text(cm.take(i as int), pd, envm) == Some(out@),
        decreases cs@.len() - i,
    {
        proof {
            assert(cm.take(i + 1).drop_last() =~= cm.take(i as int));
            assert(cm.take(i + 1).last() == cm[i as int]);
        }
        match node_text_exec(&cs[i], parent_default, env) {
            None => {
                proof {
                    lemma_children_text_none(cm, pd, envm, i as int);
                }
                return None;
            },
            Some(t) => {
                push_chars(&mut out, t);
            },
        }
        i = i + 1;
    }
    proof {
        assert(cm.take(cs@.len() as int) =~= cm);
    }
    Some(out)
}

/// The canonical text of an element, under a parent's default namespace
/// (or none, at the root) and the prefixes in scope.
#[verifier::loop_isolation(false)]
fn elem_text_exec(e: &Element, parent: Option<&Option<String>>, env: &Vec<(String, String)>) -> (r:
    Option<Vec<char>>)
    ensures
        crate::parser::opt_chars_view(r) == spec_elem_text(
            elem_view(*e),
            parent_view(parent),
            decls_view(env@),
        ),
    decreases *e,
{
    let ghost em = elem_view(*e);
    let ghost pm = parent_view(parent);
    let all = concat_decls(env, &e.prefixes);
    let ghost allm = decls_view(env@) + em.prefixes;
    // The name as written in tags.
    let nm: Vec<char>;
    if crate::element::opt_eq_opt(&e.ns, &e.default_ns) {
        nm = str_to_chars(e.name.as_str());
        proof {
            assert(spec_open_name(em, allm) == Some(em.name));
        }
    } else {
        let key: &str = match &e.ns {
            Some(u) => u.as_str(),
            None => "",
        };
        proof {
            reveal_strlit("");
            assert(""@ =~= Seq::<char>::empty());
            assert(key@ == opt_ns_key(em.ns));
        }
        match lookup_decl(&all, key) {
            None => {
                return None;
            },
            Some(px) => {
                let mut v = str_to_chars(px.as_str());
                push_str_chars(&mut v, ":");
                push_str_chars(&mut v, e.name.as_str());
                nm = v;
                proof {
                    assert(nm@ =~= px@ + ":"@ + em.name);
                }
            },
        }
    }
    let ghost nmm = spec_open_name(em, allm)->0;
    // The default-namespace declaration, if one is written here.
    let mut decl: Vec<char> = Vec::new();
    let writes_decl: bool = match parent {
        None => match &e.default_ns {
            Some(_) => true,
            None => false,
        },
        Some(pd) => !crate::element::opt_eq_opt(pd, &e.default_ns),
    };
    if writes_decl {
        push_str_chars(&mut decl, " xmlns='");
        match &e.default_ns {
            Some(u) => push_str_chars(&mut decl, u.as_str()),
            None => {},
        }
        push_str_chars(&mut decl, "'");
        proof {
            reveal_strlit("");
            assert(""@ =~= Seq::<char>::empty());
            assert(decl@ =~= " xmlns='"@ + opt_ns_key(em.default_ns) + "'"@);
            assert(decl@ =~= spec_default_decl(em, pm));
        }
    } else {
        proof {
            assert(decl@ =~= spec_default_decl(em, pm));
        }
    }
    // The attributes.
    let at = match attrs_text_exec(&e.attributes, &all) {
        None => {
            return None;
        },
        Some(t) => t,
    };
    let mut out: Vec<char> = Vec::new();
    push_str_chars(&mut out, "<");
    push_chars(&mut out, crate::text::vec_slice(&nm, 0, nm.len()));
    push_chars(&mut out, decl);
    push_chars(&mut out, at);
    let ghost head = "<"@ + nmm + spec_default_decl(em, pm) + spec_attrs_text(
        em.attributes,
        allm,
    )->0;
    proof {
        assert(out@ =~= head);
    }
    if e.children.len() == 0 {
        push_str_chars(&mut out, "/>");
        proof {
            assert(em.children.len() == 0);
            assert(out@ =~= head + "/>"@);
        }
        return Some(out);
    }
    proof {
        crate::element::lemma_children_view(e.children@);
        assert(em.children.len() > 0);
    }
    push_str_chars(&mut out, ">");
    let ct = match children_text_exec(&e.children, &e.default_ns, &all) {
        None => {
            return None;
        },
        Some(t) => t,
    };
    push_chars(&mut out, ct);
    push_str_chars(&mut out, "</");
    push_chars(&mut out, nm);
    push_str_chars(&mut out, ">");
    proof {
        assert(out@ =~= head + ">"@ + spec_children_text(em.children, em.default_ns, allm)->0
            + "</"@ + nmm + ">"@);
    }
    Some(out)
}

impl Element {
    /// The canonical XML text of the element: its tag with prefixes where
    /// namespaced names need them, a default-namespace declaration where
    /// the default changes, attributes with escaped values, and the
    /// children in order.  `None` when a needed namespace prefix is
    /// nowhere bound.
    pub fn to_xml(&self) -> (r: Option<String>)
        ensures
            crate::base::opt_str_view(r) == spec_elem_text(
                self@,
                None,
                Seq::empty(),
            ),
    {
        let env: Vec<(String, String)> = Vec::new();
        proof {
            assert(decls_view(env@) =~= Seq::<(Seq<char>, Seq<char>)>::empty());
        }
        match elem_text_exec(self, None, &env) {
            None => None,
            Some(v) => Some(chars_to_string(&v)),
        }
    }
}

impl Xml {
    /// The canonical XML text of a node standing on its own, as
    /// [`Element::to_xml`] writes it.
    pub fn to_xml(&self) -> (r: Option<String>)
        ensures
            crate::base::opt_str_view(r) == spec_node_text(self@, None, Seq::empty()),
    {
        let env: Vec<(String, String)> = Vec::new();
        let none_default: Option<String> = None;
        proof {
            assert(decls_view(env@) =~= Seq::<(Seq<char>, Seq<char>)>::empty());
        }
        match node_text_exec(self, &none_default, &env) {
            None => None,
            Some(v) => Some(chars_to_string(&v)),
        }
    }
}

} // verus!
