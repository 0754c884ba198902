//! The metainfo expander: parses the XML template, inserts one localized
//! sibling per language after each anchor element, appends per-language
//! keyword children, and serializes the tree back with the namespaced
//! language attribute.

use vstd::prelude::*;
use vstd::string::*;
use crate::text::{underscored, pairs_view, split_terminated, split_terminated_str, replace_all,
    replace_all_str, str_eq_str, underscore_tag};
use crate::errors::{LocalizeError, ErrorModel};
use crate::entity::App;
use crate::catalog::{Context, resolve_spec};

verus! {

broadcast use vstd::std_specs::vec::axiom_vec_decreases_to_view, vstd::seq::axiom_seq_index_decreases, vstd::seq::axiom_seq_subrange_decreases;

/// Model of an [`XmlNode`].
#[verifier::ext_equal]
pub enum XmlNodeModel {
    Elem(XmlElemModel),
    Text(Seq<char>),
    Comment(Seq<char>),
    CData(Seq<char>),
    Instruction(Seq<char>, Option<Seq<char>>),
}

/// Model of an [`XmlElem`].
#[verifier::ext_equal]
pub struct XmlElemModel {
    pub prefix: Option<Seq<char>>,
    pub namespace: Option<Seq<char>>,
    pub namespaces: Option<Seq<(Seq<char>, Seq<char>)>>,
    pub name: Seq<char>,
    pub attrs: Seq<(Seq<char>, Seq<char>)>,
    pub children: Seq<XmlNodeModel>,
}

/// One node of an XML document tree.
#[derive(Debug)]
pub enum XmlNode {
    Elem(XmlElem),
    Text(String),
    Comment(String),
    CData(String),
    Instruction(String, Option<String>),
}

/// One element of an XML document tree: its name, namespace data,
/// attributes in document order, and child nodes in order.
#[derive(Debug)]
pub struct XmlElem {
    pub prefix: Option<String>,
    pub namespace: Option<String>,
    pub namespaces: Option<Vec<(String, String)>>,
    pub name: String,
    pub attrs: Vec<(String, String)>,
    pub children: Vec<XmlNode>,
}

pub open spec fn node_model(n: XmlNode) -> XmlNodeModel
    decreases n,
{
    match n {
        XmlNode::Elem(e) => XmlNodeModel::Elem(elem_model(e)),
        XmlNode::Text(s) => XmlNodeModel::Text(s@),
        XmlNode::Comment(s) => XmlNodeModel::Comment(s@),
        XmlNode::CData(s) => XmlNodeModel::CData(s@),
        XmlNode::Instruction(a, b) => XmlNodeModel::Instruction(
            a@,
            match b {
                Some(x) => Some(x@),
                None => None,
            },
        ),
    }
}

pub open spec fn elem_model(e: XmlElem) -> XmlElemModel
    decreases e,
{
    XmlElemModel {
        prefix: match e.prefix {
            Some(p) => Some(p@),
            None => None,
        },
        namespace: match e.namespace {
            Some(p) => Some(p@),
            None => None,
        },
        namespaces: match e.namespaces {
            Some(v) => Some(v@.map_values(|p: (String, String)| (p.0@, p.1@))),
            None => None,
        },
        name: e.name@,
        attrs: e.attrs@.map_values(|p: (String, String)| (p.0@, p.1@)),
        children: nodes_model(e.children@),
    }
}

impl View for XmlNode {
    type V = XmlNodeModel;

    open spec fn view(&self) -> XmlNodeModel {
        node_model(*self)
    }
}

impl View for XmlElem {
    type V = XmlElemModel;

    open spec fn view(&self) -> XmlElemModel {
        elem_model(*self)
    }
}

/// Model of a child-node list, node for node.
pub open spec fn nodes_model(s: Seq<XmlNode>) -> Seq<XmlNodeModel>
    decreases s,
{
    if s.len() == 0 {
        Seq::empty()
    } else {
        seq![node_model(s[0])] + nodes_model(s.skip(1))
    }
}

pub broadcast proof fn lemma_nodes_model_props(s: Seq<XmlNode>)
    ensures
        (#[trigger] nodes_model(s)).len() == s.len(),
        forall|i: int| 0 <= i < s.len() ==> nodes_model(s)[i] == node_model(s[i]),
    decreases s.len(),
{
    if s.len() > 0 {
        lemma_nodes_model_props(s.skip(1));
        assert forall|i: int| 0 <= i < s.len() implies nodes_model(s)[i] == node_model(
            s[i],
        ) by {
            if i > 0 {
                assert(nodes_model(s.skip(1))[i - 1] == node_model(s.skip(1)[i - 1]));
                assert(s.skip(1)[i - 1] == s[i]);
            }
        }
    }
}

#[verifier::external_type_specification]
#[verifier::external_body]
pub struct ExXmlElement(xmltree::Element);

/// What parsing metainfo XML yields: the document element's tree, or
/// nothing when the text is rejected.
pub uninterp spec fn xml_parse(bytes: Seq<u8>) -> Option<XmlElemModel>;

/// What serializing a tree with indentation enabled yields: the written
/// text, or nothing when the writer rejects the tree.
pub uninterp spec fn xml_render(root: XmlElemModel) -> Option<Seq<char>>;

#[verifier::external_type_specification]
#[verifier::external_body]
pub struct ExXMLNode(xmltree::XMLNode);

/// Converts a parsed xmltree element into the library's tree, field for
/// field; part of the trusted parse surface of `parse_metainfo` below.
#[verifier::external_body]
fn from_xmltree(e: xmltree::Element) -> XmlElem {
    let namespaces = e.namespaces.map(|ns| ns.0.into_iter().collect());
    XmlElem {
        prefix: e.prefix,
        namespace: e.namespace,
        namespaces,
        name: e.name,
        attrs: e.attributes.into_iter().collect(),
        children: e.children.into_iter().map(from_xml_node).collect(),
    }
}

/// Converts one parsed xmltree node, variant for variant; part of the
/// trusted parse surface of `parse_metainfo` below.
#[verifier::external_body]
fn from_xml_node(c: xmltree::XMLNode) -> XmlNode {
    match c {
        xmltree::XMLNode::Element(el) => XmlNode::Elem(from_xmltree(el)),
        xmltree::XMLNode::Text(s) => XmlNode::Text(s),
        xmltree::XMLNode::Comment(s) => XmlNode::Comment(s),
        xmltree::XMLNode::CData(s) => XmlNode::CData(s),
        xmltree::XMLNode::ProcessingInstruction(a, b) => XmlNode::Instruction(a, b),
    }
}

/// Converts the library's tree back into an xmltree element, field for
/// field; part of the trusted serialize surface of `render_metainfo` below.
#[verifier::external_body]
fn to_xmltree(e: &XmlElem) -> xmltree::Element {
    let namespaces = e.namespaces.as_ref().map(|v| xmltree::Namespace(v.iter().cloned().collect()));
    xmltree::Element {
        prefix: e.prefix.clone(),
        namespace: e.namespace.clone(),
        namespaces,
        name: e.name.clone(),
        attributes: e.attrs.iter().cloned().collect(),
        children: e.children.iter().map(to_xml_node).collect(),
    }
}

/// Converts one node of the library's tree back, variant for variant; part
/// of the trusted serialize surface of `render_metainfo` below.
#[verifier::external_body]
fn to_xml_node(c: &XmlNode) -> xmltree::XMLNode {
    match c {
        XmlNode::Elem(el) => xmltree::XMLNode::Element(to_xmltree(el)),
        XmlNode::Text(s) => xmltree::XMLNode::Text(s.clone()),
        XmlNode::Comment(s) => xmltree::XMLNode::Comment(s.clone()),
        XmlNode::CData(s) => xmltree::XMLNode::CData(s.clone()),
        XmlNode::Instruction(a, b) => xmltree::XMLNode::ProcessingInstruction(a.clone(), b.clone()),
    }
}

/// Relies on xmltree's `Element::parse`: the document element with its
/// namespace data, attributes in document order and child nodes in order; a
/// function of the input bytes alone. `from_xmltree` converts the result.
#[verifier::external_body]
fn parse_metainfo(bytes: &[u8]) -> (r: Result<XmlElem, String>)
    ensures
        r matches Ok(e) ==> xml_parse(bytes@) == Some(e@),
        r is Err ==> xml_parse(bytes@) is None,
{
    match xmltree::Element::parse(bytes) {
        Ok(e) => Ok(from_xmltree(e)),
        Err(err) => Err(err.to_string()),
    }
}

/// Relies on xmltree's `Element::write_with_config` with indentation
/// enabled, writing into a byte buffer: both the written text and whether
/// writing fails are functions of the tree alone. `to_xmltree` converts the
/// argument.
#[verifier::external_body]
fn render_metainfo(root: &XmlElem) -> (r: Result<String, String>)
    ensures
        r matches Ok(s) ==> xml_render(root@) == Some(s@),
        r is Err ==> xml_render(root@) is None,
{
    let elem = to_xmltree(root);
    let mut data: Vec<u8> = Vec::new();
    let config = xmltree::EmitterConfig::new().perform_indent(true);
    match elem.write_with_config(&mut data, config) {
        Ok(()) => match String::from_utf8(data) {
            Ok(s) => Ok(s),
            Err(e) => Err(e.to_string()),
        },
        Err(e) => Err(e.to_string()),
    }
}

/// The scan for the single unlocalized anchor element named `tag` among the
/// children, from position `i` with the match found so far: an attributed
/// match fails at once as an already-localized tag, a second unattributed
/// match fails as a redefined tag.
pub open spec fn scan_anchor(
    children: Seq<XmlNodeModel>,
    tag: Seq<char>,
    i: int,
    found: Option<int>,
) -> Result<Option<int>, ErrorModel>
    decreases children.len() - i,
{
    if i < 0 || i >= children.len() {
        Ok(found)
    } else {
        match children[i] {
            XmlNodeModel::Elem(e) => {
                if e.name == tag {
                    if e.attrs.len() != 0 {
                        Err(ErrorModel::LocalizedTag(tag))
                    } else if found is Some {
                        Err(ErrorModel::RedefinedTag(tag))
                    } else {
                        scan_anchor(children, tag, i + 1, Some(i))
                    }
                } else {
                    scan_anchor(children, tag, i + 1, found)
                }
            },
            _ => scan_anchor(children, tag, i + 1, found),
        }
    }
}

/// The anchor for `tag`: the index of its single unattributed element, or
/// the missing-tag error when the scan finds none.
pub open spec fn find_anchor(children: Seq<XmlNodeModel>, tag: Seq<char>) -> Result<
    int,
    ErrorModel,
> {
    match scan_anchor(children, tag, 0, None) {
        Err(e) => Err(e),
        Ok(None) => Err(ErrorModel::MissingTag(tag)),
        Ok(Some(i)) => Ok(i),
    }
}

/// The localized siblings inserted for one anchor: one element per resolved
/// language in order, with the underscored tag as its language attribute
/// and the resolved text as its single child.
pub open spec fn lang_elems(tag: Seq<char>, resolved: Seq<(Seq<char>, Seq<char>)>) -> Seq<
    XmlNodeModel,
> {
    resolved.map_values(
        |p: (Seq<char>, Seq<char>)| XmlNodeModel::Elem(
            XmlElemModel {
                prefix: None,
                namespace: None,
                namespaces: None,
                name: tag,
                attrs: seq![("lang"@, underscored(p.0))],
                children: seq![XmlNodeModel::Text(p.1)],
            },
        ),
    )
}

/// Expansion of one anchor field: the localized siblings stand immediately
/// after the anchor, as one contiguous run in language order.
pub open spec fn expand_field(
    children: Seq<XmlNodeModel>,
    tag: Seq<char>,
    resolved: Seq<(Seq<char>, Seq<char>)>,
) -> Result<Seq<XmlNodeModel>, ErrorModel> {
    match find_anchor(children, tag) {
        Err(e) => Err(e),
        Ok(i) => Ok(children.take(i + 1) + lang_elems(tag, resolved) + children.skip(i + 1)),
    }
}

/// The first element child named `name`, from position `i`.
pub open spec fn find_elem(children: Seq<XmlNodeModel>, name: Seq<char>, i: int) -> Option<int>
    decreases children.len() - i,
{
    if i < 0 || i >= children.len() {
        None
    } else {
        match children[i] {
            XmlNodeModel::Elem(e) => if e.name == name {
                Some(i)
            } else {
                find_elem(children, name, i + 1)
            },
            _ => find_elem(children, name, i + 1),
        }
    }
}

/// The keyword children appended for one language: one `keyword` element
/// per segment of the resolved text split at `;`, with the trailing empty
/// segment of a terminating separator discarded.
pub open spec fn keyword_elems_for(tag: Seq<char>, value: Seq<char>) -> Seq<XmlNodeModel> {
    split_terminated(value, ';').map_values(
        |seg: Seq<char>| XmlNodeModel::Elem(
            XmlElemModel {
                prefix: None,
                namespace: None,
                namespaces: None,
                name: "keyword"@,
                attrs: seq![("lang"@, underscored(tag))],
                children: seq![XmlNodeModel::Text(seg)],
            },
        ),
    )
}

/// The keyword children of all resolved languages, language by language.
pub open spec fn keyword_elems(resolved: Seq<(Seq<char>, Seq<char>)>) -> Seq<XmlNodeModel>
    decreases resolved.len(),
{
    if resolved.len() == 0 {
        Seq::empty()
    } else {
        keyword_elems(resolved.drop_last()) + keyword_elems_for(
            resolved.last().0,
            resolved.last().1,
        )
    }
}

/// Expansion of the keywords field: the keyword children are appended at
/// the end of the first `keywords` element, not interleaved by language;
/// its absence is fatal.
pub open spec fn expand_keywords(
    children: Seq<XmlNodeModel>,
    resolved: Seq<(Seq<char>, Seq<char>)>,
) -> Result<Seq<XmlNodeModel>, ErrorModel> {
    match find_elem(children, "keywords"@, 0) {
        None => Err(ErrorModel::MissingKeywords),
        Some(j) => {
            let e = children[j]->Elem_0;
            Ok(
                children.update(
                    j,
                    XmlNodeModel::Elem(
                        XmlElemModel {
                            prefix: e.prefix,
                            namespace: e.namespace,
                            namespaces: e.namespaces,
                            name: e.name,
                            attrs: e.attrs,
                            children: e.children + keyword_elems(resolved),
                        },
                    ),
                ),
            )
        },
    }
}

/// Expansion of a whole metainfo tree: the title anchored at `name`, the
/// comment (if set) at `summary`, then the keywords (if set) under
/// `keywords`.
pub open spec fn metainfo_expand(
    root: XmlElemModel,
    app: crate::entity::AppModel,
    reg: Seq<(Seq<char>, Map<Seq<char>, Seq<char>>)>,
) -> Result<XmlElemModel, ErrorModel> {
    match expand_field(root.children, "name"@, resolve_spec(reg, app.title)) {
        Err(e) => Err(e),
        Ok(c1) => {
            let c2r = match app.comment {
                Some(id) => expand_field(c1, "summary"@, resolve_spec(reg, id)),
                None => Ok(c1),
            };
            match c2r {
                Err(e) => Err(e),
                Ok(c2) => {
                    let c3r = match app.keywords {
                        Some(id) => expand_keywords(c2, resolve_spec(reg, id)),
                        None => Ok(c2),
                    };
                    match c3r {
                        Err(e) => Err(e),
                        Ok(c3) => Ok(
                            XmlElemModel {
                                prefix: root.prefix,
                                namespace: root.namespace,
                                namespaces: root.namespaces,
                                name: root.name,
                                attrs: root.attrs,
                                children: c3,
                            },
                        ),
                    }
                },
            }
        },
    }
}

fn find_anchor_exec(children: &Vec<XmlNode>, tag: &str) -> (r: Result<usize, LocalizeError>)
    ensures
        match find_anchor(nodes_model(children@), tag@) {
            Ok(i) => r matches Ok(x) && x == i && 0 <= i < children@.len(),
            Err(em) => r matches Err(e) && e@ == em,
        },
{
    let ghost cv = nodes_model(children@);
    proof {
        broadcast use lemma_nodes_model_props;
    }
    let mut found: Option<usize> = None;
    let mut i: usize = 0;
    while i < children.len()
        invariant
            i <= children@.len(),
            cv == nodes_model(children@),
            cv.len() == children@.len(),
            match found {
                Some(f) => f < i,
                None => true,
            },
            scan_anchor(cv, tag@, i as int, match found {
                Some(f) => Some(f as int),
                None => None,
            }) == scan_anchor(cv, tag@, 0, None),
        decreases children@.len() - i,
    {
        proof {
            broadcast use lemma_nodes_model_props;

            assert(cv[i as int] == node_model(children@[i as int]));
        }
        match &children[i] {
            XmlNode::Elem(e) => {
                if str_eq_str(e.name.as_str(), tag) {
                    if e.attrs.len() != 0 {
                        proof {
                            assert(e@.attrs.len() == e.attrs@.len());
                        }
                        return Err(LocalizeError::LocalizedTag { tag: String::from_str(tag) });
                    }
                    match found {
                        Some(_) => {
                            return Err(
                                LocalizeError::RedefinedTag { tag: String::from_str(tag) },
                            );
                        },
                        None => {
                            found = Some(i);
                        },
                    }
                } else {
                }
            },
            _ => {},
        }
        i = i + 1;
    }
    match found {
        Some(f) => Ok(f),
        None => Err(LocalizeError::MissingTag { tag: String::from_str(tag) }),
    }
}

fn expand_field_exec(children: Vec<XmlNode>, tag: &str, resolved: &Vec<(String, String)>) -> (r:
    Result<Vec<XmlNode>, LocalizeError>)
    ensures
        match expand_field(nodes_model(children@), tag@, pairs_view(resolved@)) {
            Ok(c) => r matches Ok(v) && nodes_model(v@) == c,
            Err(em) => r matches Err(e) && e@ == em,
        },
{
    let ghost base = nodes_model(children@);
    let ghost rv = pairs_view(resolved@);
    let idx = match find_anchor_exec(&children, tag) {
        Ok(i) => i,
        Err(e) => {
            return Err(e);
        },
    };
    let mut rest = children;
    let n0 = rest.len();
    let mut out: Vec<XmlNode> = Vec::new();
    let mut j: usize = 0;
    proof {
        broadcast use lemma_nodes_model_props;

        assert(rest@.skip(0) =~= rest@);
        assert(base.len() == n0);
    }
    while j <= idx
        invariant
            j <= idx + 1,
            idx < base.len(),
            base.len() == n0,
            out@.len() == j,
            base.len() == out@.len() + rest@.len(),
            nodes_model(out@) =~= base.take(j as int),
            nodes_model(rest@) =~= base.skip(j as int),
        decreases idx + 1 - j,
    {
        let ghost rest0 = rest@;
        let ghost out0 = out@;
        let node = rest.remove(0);
        let ghost n0 = node;
        out.push(node);
        proof {
            broadcast use lemma_nodes_model_props;

            assert(rest@ =~= rest0.skip(1));
            assert(out@ =~= out0.push(n0));
            assert(nodes_model(out@) == nodes_model(out0.push(n0)));
            assert(nodes_model(rest@) == nodes_model(rest0.skip(1)));
            assert(node_model(n0) == nodes_model(rest0)[0]);
            assert(nodes_model(out0) == base.take(j as int));
            assert(nodes_model(rest0) == base.skip(j as int));
            assert(out0.len() == j);
            assert forall|x: int| 0 <= x < j + 1 implies nodes_model(out0.push(n0))[x]
                == base.take(j + 1)[x] by {
                if x < j {
                    assert(out0.push(n0)[x] == out0[x]);
                    assert(nodes_model(out0)[x] == base.take(j as int)[x]);
                } else {
                    assert(out0.push(n0)[x] == n0);
                    assert(nodes_model(rest0)[0] == base.skip(j as int)[0]);
                }
            }
            assert(nodes_model(out0.push(n0)) =~= base.take(j + 1));
            assert forall|x: int| 0 <= x < rest0.len() - 1 implies nodes_model(
                rest0.skip(1),
            )[x] == base.skip(j + 1)[x] by {
                assert(rest0.skip(1)[x] == rest0[x + 1]);
                assert(nodes_model(rest0)[x + 1] == base.skip(j as int)[x + 1]);
            }
            assert(nodes_model(rest0.skip(1)) =~= base.skip(j + 1));
        }
        j = j + 1;
    }
    let ghost mid = nodes_model(out@);
    let mut k: usize = 0;
    proof {
        broadcast use lemma_nodes_model_props;

        assert(lang_elems(tag@, rv.take(0)) =~= Seq::<XmlNodeModel>::empty());
        assert(mid + lang_elems(tag@, rv.take(0)) =~= mid);
    }
    while k < resolved.len()
        invariant
            k <= resolved@.len(),
            rv == pairs_view(resolved@),
            rv.len() == resolved@.len(),
            nodes_model(out@) =~= mid + lang_elems(tag@, rv.take(k as int)),
        decreases resolved@.len() - k,
    {
        let tag_u = underscore_tag(resolved[k].0.as_str());
        let mut attrs: Vec<(String, String)> = Vec::new();
        attrs.push((String::from_str("lang"), tag_u));
        let mut kids: Vec<XmlNode> = Vec::new();
        kids.push(XmlNode::Text(resolved[k].1.clone()));
        let el = XmlElem {
            prefix: None,
            namespace: None,
            namespaces: None,
            name: String::from_str(tag),
            attrs,
            children: kids,
        };
        proof {
            broadcast use lemma_nodes_model_props;

            reveal_strlit("lang");
            assert(rv[k as int] == (resolved@[k as int].0@, resolved@[k as int].1@));
            assert(el.attrs@.map_values(|p: (String, String)| (p.0@, p.1@)) =~= seq![
                ("lang"@, underscored(rv[k as int].0)),
            ]);
            assert(nodes_model(el.children@) =~= seq![XmlNodeModel::Text(rv[k as int].1)]);
            assert(node_model(XmlNode::Elem(el)) == lang_elems(tag@, rv)[k as int]);
        }
        let ghost outbefore = nodes_model(out@);
        out.push(XmlNode::Elem(el));
        proof {
            broadcast use lemma_nodes_model_props;

            assert(rv.take(k + 1).drop_last() =~= rv.take(k as int));
            assert(lang_elems(tag@, rv.take(k + 1)) =~~= lang_elems(tag@, rv.take(k as int))
                + seq![lang_elems(tag@, rv)[k as int]]);
            assert(nodes_model(out@) =~~= outbefore + seq![lang_elems(tag@, rv)[k as int]]);
            assert(nodes_model(out@) =~~= mid + lang_elems(tag@, rv.take(k + 1)));
        }
        k = k + 1;
    }
    proof {
        broadcast use lemma_nodes_model_props;

        assert(rv.take(rv.len() as int) =~= rv);
    }
    let ghost resttail = nodes_model(rest@);
    proof {
        broadcast use lemma_nodes_model_props;

        assert(resttail.skip(0) =~= resttail);
    }
    while rest.len() > 0
        invariant
            nodes_model(out@) =~= mid + lang_elems(tag@, rv) + resttail.take(
                resttail.len() - rest@.len(),
            ),
            nodes_model(rest@) =~= resttail.skip(resttail.len() - rest@.len()),
            rest@.len() <= resttail.len(),
        decreases rest@.len(),
    {
        let ghost rest0 = rest@;
        let ghost out0 = out@;
        let ghost done = resttail.len() - rest0.len();
        let node = rest.remove(0);
        let ghost n0 = node;
        out.push(node);
        proof {
            broadcast use lemma_nodes_model_props;

            assert(rest@ =~= rest0.skip(1));
            assert(out@ =~= out0.push(n0));
            assert(nodes_model(out@) == nodes_model(out0.push(n0)));
            assert(nodes_model(rest@) == nodes_model(rest0.skip(1)));
            assert(node_model(n0) == nodes_model(rest0)[0]);
            assert(nodes_model(out0) == mid + lang_elems(tag@, rv) + resttail.take(done));
            assert(nodes_model(rest0) == resttail.skip(done));
            assert(nodes_model(rest0)[0] == resttail.skip(done)[0]);
            assert forall|x: int| 0 <= x < out0.len() + 1 implies nodes_model(
                out0.push(n0),
            )[x] == (mid + lang_elems(tag@, rv) + resttail.take(done + 1))[x] by {
                if x < out0.len() {
                    assert(out0.push(n0)[x] == out0[x]);
                    assert(nodes_model(out0)[x] == (mid + lang_elems(tag@, rv)
                        + resttail.take(done))[x]);
                } else {
                    assert(out0.push(n0)[x] == n0);
                    assert(resttail.skip(done)[0] == resttail[done]);
                }
            }
            assert(nodes_model(out0.push(n0)) =~= mid + lang_elems(tag@, rv) + resttail.take(
                done + 1,
            ));
            assert forall|x: int| 0 <= x < rest0.len() - 1 implies nodes_model(
                rest0.skip(1),
            )[x] == resttail.skip(done + 1)[x] by {
                assert(rest0.skip(1)[x] == rest0[x + 1]);
                assert(nodes_model(rest0)[x + 1] == resttail.skip(done)[x + 1]);
            }
            assert(nodes_model(rest0.skip(1)) =~= resttail.skip(done + 1));
            assert(resttail.len() - rest@.len() == done + 1);
        }
    }
    proof {
        broadcast use lemma_nodes_model_props;

        assert(resttail.take(resttail.len() as int) =~= resttail);
        assert(mid =~= base.take(idx + 1));
        assert(resttail =~= base.skip(idx + 1));
        assert(nodes_model(out@) =~~= base.take(idx + 1) + lang_elems(tag@, rv) + base.skip(
            idx + 1,
        ));
    }
    Ok(out)
}

proof fn lemma_find_elem_some(children: Seq<XmlNodeModel>, name: Seq<char>, i: int)
    ensures
        find_elem(children, name, i) matches Some(j) ==> i <= j < children.len()
            && children[j] is Elem && children[j]->Elem_0.name == name,
    decreases children.len() - i,
{
    if 0 <= i < children.len() {
        lemma_find_elem_some(children, name, i + 1);
    }
}

fn find_elem_exec(children: &Vec<XmlNode>, name: &str) -> (r: Option<usize>)
    ensures
        match find_elem(nodes_model(children@), name@, 0) {
            Some(i) => r matches Some(x) && x == i && 0 <= i < children@.len(),
            None => r is None,
        },
{
    let ghost cv = nodes_model(children@);
    proof {
        broadcast use lemma_nodes_model_props;
    }
    let mut i: usize = 0;
    while i < children.len()
        invariant
            i <= children@.len(),
            cv == nodes_model(children@),
            cv.len() == children@.len(),
            find_elem(cv, name@, 0) == find_elem(cv, name@, i as int),
        decreases children@.len() - i,
    {
        proof {
            broadcast use lemma_nodes_model_props;

            assert(cv[i as int] == node_model(children@[i as int]));
        }
        match &children[i] {
            XmlNode::Elem(e) => {
                if str_eq_str(e.name.as_str(), name) {
                    return Some(i);
                }
            },
            _ => {},
        }
        i = i + 1;
    }
    None
}

fn expand_keywords_exec(children: Vec<XmlNode>, resolved: &Vec<(String, String)>) -> (r: Result<
    Vec<XmlNode>,
    LocalizeError,
>)
    ensures
        match expand_keywords(nodes_model(children@), pairs_view(resolved@)) {
            Ok(c) => r matches Ok(v) && nodes_model(v@) == c,
            Err(em) => r matches Err(e) && e@ == em,
        },
{
    let ghost base = nodes_model(children@);
    let ghost rv = pairs_view(resolved@);
    proof {
        broadcast use lemma_nodes_model_props;

        lemma_find_elem_some(base, "keywords"@, 0);
    }
    let j = match find_elem_exec(&children, "keywords") {
        Some(j) => j,
        None => {
            return Err(LocalizeError::MissingKeywords);
        },
    };
    let ghost e0 = base[j as int]->Elem_0;
    let mut out = children;
    let node = out.remove(j);
    proof {
        broadcast use lemma_nodes_model_props;

        assert(node_model(node) == base[j as int]);
    }
    let mut e = match node {
        XmlNode::Elem(el) => el,
        XmlNode::Text(t) => {
            proof {
                assert(false);
            }
            return Err(LocalizeError::MissingKeywords);
        },
        XmlNode::Comment(t) => {
            proof {
                assert(false);
            }
            return Err(LocalizeError::MissingKeywords);
        },
        XmlNode::CData(t) => {
            proof {
                assert(false);
            }
            return Err(LocalizeError::MissingKeywords);
        },
        XmlNode::Instruction(t, o) => {
            proof {
                assert(false);
            }
            return Err(LocalizeError::MissingKeywords);
        },
    };
    proof {
        assert(e@ == e0);
    }
    let ghost kids0 = nodes_model(e.children@);
    let ghost pfx0 = e@.prefix;
    let ghost ns0 = e@.namespace;
    let ghost nss0 = e@.namespaces;
    let ghost name0 = e@.name;
    let ghost attrs0 = e@.attrs;
    let mut k: usize = 0;
    proof {
        broadcast use lemma_nodes_model_props;

        assert(keyword_elems(rv.take(0)) =~= Seq::<XmlNodeModel>::empty());
        assert(kids0 + keyword_elems(rv.take(0)) =~= kids0);
    }
    while k < resolved.len()
        invariant
            k <= resolved@.len(),
            rv == pairs_view(resolved@),
            rv.len() == resolved@.len(),
            e@.prefix == pfx0,
            e@.namespace == ns0,
            e@.namespaces == nss0,
            e@.name == name0,
            e@.attrs == attrs0,
            nodes_model(e.children@) == kids0 + keyword_elems(rv.take(k as int)),
        decreases resolved@.len() - k,
    {
        proof {
            assert(rv[k as int] == (resolved@[k as int].0@, resolved@[k as int].1@));
        }
        let segs = split_terminated_str(resolved[k].1.as_str(), ';');
        let ghost sv = split_terminated(rv[k as int].1, ';');
        let ghost kw = keyword_elems_for(rv[k as int].0, rv[k as int].1);
        let ghost mid = nodes_model(e.children@);
        let mut m: usize = 0;
        proof {
            broadcast use lemma_nodes_model_props;

            assert(kw.take(0) =~= Seq::<XmlNodeModel>::empty());
            assert(mid + kw.take(0) =~= mid);
        }
        while m < segs.len()
            invariant
                m <= segs@.len(),
                segs@.map_values(|x: String| x@) == sv,
                sv == split_terminated(rv[k as int].1, ';'),
                kw == keyword_elems_for(rv[k as int].0, rv[k as int].1),
                kw.len() == sv.len(),
                sv.len() == segs@.len(),
                k < resolved@.len(),
                rv == pairs_view(resolved@),
                rv.len() == resolved@.len(),
                e@.prefix == pfx0,
                e@.namespace == ns0,
                e@.namespaces == nss0,
                e@.name == name0,
                e@.attrs == attrs0,
                nodes_model(e.children@) == mid + kw.take(m as int),
            decreases segs@.len() - m,
        {
            let tag_u = underscore_tag(resolved[k].0.as_str());
            let mut attrs: Vec<(String, String)> = Vec::new();
            attrs.push((String::from_str("lang"), tag_u));
            let mut kk: Vec<XmlNode> = Vec::new();
            kk.push(XmlNode::Text(segs[m].clone()));
            let el = XmlElem {
                prefix: None,
                namespace: None,
                namespaces: None,
                name: String::from_str("keyword"),
                attrs,
                children: kk,
            };
            proof {
                broadcast use lemma_nodes_model_props;

                reveal_strlit("lang");
                reveal_strlit("keyword");
                assert(rv[k as int] == (resolved@[k as int].0@, resolved@[k as int].1@));
                assert(segs@[m as int]@ == sv[m as int]);
                assert(el.attrs@.map_values(|p: (String, String)| (p.0@, p.1@)) =~= seq![
                    ("lang"@, underscored(rv[k as int].0)),
                ]);
                assert(nodes_model(el.children@) =~= seq![XmlNodeModel::Text(sv[m as int])]);
                assert(node_model(XmlNode::Elem(el)) == kw[m as int]);
            }
            let ghost cb = e.children@;
            e.children.push(XmlNode::Elem(el));
            proof {
                broadcast use lemma_nodes_model_props;

                assert(e.children@.drop_last() =~= cb);
                assert(kw.take(m + 1).drop_last() =~= kw.take(m as int));
                assert forall|x: int| 0 <= x < cb.len() + 1 implies nodes_model(
                    e.children@,
                )[x] == (mid + kw.take(m + 1))[x] by {
                    if x < cb.len() {
                        assert(e.children@[x] == cb[x]);
                        assert(nodes_model(cb)[x] == (mid + kw.take(m as int))[x]);
                    }
                }
                assert(nodes_model(e.children@) =~= mid + kw.take(m + 1));
            }
            m = m + 1;
        }
        proof {
            broadcast use lemma_nodes_model_props;

            assert(kw.take(kw.len() as int) =~= kw);
            assert(rv.take(k + 1).drop_last() =~= rv.take(k as int));
            assert(rv.take(k + 1).last() == rv[k as int]);
            assert(keyword_elems(rv.take(k + 1)) == keyword_elems(rv.take(k as int))
                + keyword_elems_for(rv[k as int].0, rv[k as int].1));
            assert(mid + kw =~= kids0 + keyword_elems(rv.take(k + 1)));
        }
        k = k + 1;
    }
    proof {
        assert(rv.take(rv.len() as int) =~= rv);
    }
    let ghost outbefore = out@;
    out.insert(j, XmlNode::Elem(e));
    proof {
        broadcast use lemma_nodes_model_props;

        assert(expand_keywords(base, rv) matches Ok(c) && nodes_model(out@) =~~= c) by {
            let c = expand_keywords(base, rv)->Ok_0;
            assert forall|x: int| 0 <= x < base.len() implies nodes_model(out@)[x] == c[x] by {
                if x < j {
                    assert(out@[x] == outbefore.insert(j as int, out@[j as int])[x]);
                    assert(outbefore[x] == children@[x]);
                    assert(nodes_model(children@)[x] == base[x]);
                } else if x > j {
                    assert(outbefore[x - 1] == children@[x]);
                    assert(nodes_model(children@)[x] == base[x]);
                }
            }
        }
    }
    Ok(out)
}

/// Expands a whole metainfo tree: inserts the localized `name` siblings,
/// then the localized `summary` siblings when a comment message is set,
/// then appends the per-language `keyword` children when a keywords message
/// is set. Recoverable resolution errors come back as diagnostic strings.
pub fn localize_metainfo(root: XmlElem, app: &App, ctx: &Context) -> (r: Result<
    (XmlElem, Vec<String>),
    LocalizeError,
>)
    ensures
        match metainfo_expand(root@, app@, ctx@) {
            Ok(m) => r matches Ok(p) && p.0@ == m,
            Err(em) => r matches Err(e) && e@ == em,
        },
{
    let ghost rm = root@;
    let XmlElem { prefix, namespace, namespaces, name, attrs, children } = root;
    let mut diagnostics: Vec<String> = Vec::new();
    let (resolved_title, mut d1) = app.title_msg().get(ctx);
    diagnostics.append(&mut d1);
    let c1 = match expand_field_exec(children, "name", &resolved_title) {
        Ok(c) => c,
        Err(e) => {
            return Err(e);
        },
    };
    let c2 = match app.comment_msg() {
        Some(f) => {
            let (resolved, mut d2) = f.get(ctx);
            diagnostics.append(&mut d2);
            match expand_field_exec(c1, "summary", &resolved) {
                Ok(c) => c,
                Err(e) => {
                    return Err(e);
                },
            }
        },
        None => c1,
    };
    let c3 = match app.keywords_msg() {
        Some(f) => {
            let (resolved, mut d3) = f.get(ctx);
            diagnostics.append(&mut d3);
            match expand_keywords_exec(c2, &resolved) {
                Ok(c) => c,
                Err(e) => {
                    return Err(e);
                },
            }
        },
        None => c2,
    };
    let result = XmlElem { prefix, namespace, namespaces, name, attrs, children: c3 };
    proof {
        assert(result@.prefix == rm.prefix);
        assert(result@.attrs == rm.attrs);
    }
    Ok((result, diagnostics))
}

impl App {
    /// Expands a metainfo XML template given as bytes: one localized
    /// sibling per resolved language follows the `name` anchor (and the
    /// `summary` anchor when a comment message is set) as a contiguous run
    /// in language order, per-language `keyword` children are appended at
    /// the end of the `keywords` element, and the serialized text carries
    /// the namespaced `xml:lang` attribute name; the diagnostic strings of
    /// recoverable resolution errors come alongside. A missing or repeated
    /// anchor, an attributed (already localized) anchor, a missing
    /// `keywords` element, unparseable input and an unserializable expanded
    /// tree each fail with their own error.
    pub fn expand_metainfo(&self, template: &[u8], ctx: &Context) -> (r: Result<
        (String, Vec<String>),
        LocalizeError,
    >)
        ensures
            xml_parse(template@) is None ==> (r matches Err(e) && e@
                == ErrorModel::TemplateSyntax),
            xml_parse(template@) matches Some(root) ==> match metainfo_expand(
                root,
                self@,
                ctx@,
            ) {
                Err(em) => r matches Err(e) && e@ == em,
                Ok(m) => match xml_render(m) {
                    Some(s) => r matches Ok(t) && t.0@ == replace_all(
                        s,
                        " lang="@,
                        " xml:lang="@,
                    ),
                    None => r matches Err(e) && e@ == ErrorModel::Serialize,
                },
            },
    {
        let root = match parse_metainfo(template) {
            Ok(e) => e,
            Err(detail) => {
                return Err(LocalizeError::TemplateSyntax { detail });
            },
        };
        let (tree, diagnostics) = match localize_metainfo(root, self, ctx) {
            Ok(p) => p,
            Err(e) => {
                return Err(e);
            },
        };
        let text = match render_metainfo(&tree) {
            Ok(s) => s,
            Err(detail) => {
                return Err(LocalizeError::Serialize { detail });
            },
        };
        proof {
            reveal_strlit(" lang=");
        }
        Ok((replace_all_str(text.as_str(), " lang=", " xml:lang="), diagnostics))
    }
}

/// Whether the children hold an attributed element named `tag` — the shape
/// of an already-localized anchor variant, as the expander inserts them.
pub open spec fn has_attributed_elem(children: Seq<XmlNodeModel>, tag: Seq<char>) -> bool {
    exists|i: int|
        0 <= i < children.len() && (#[trigger] children[i]) is Elem
            && children[i]->Elem_0.name == tag && children[i]->Elem_0.attrs.len() != 0
}

proof fn lemma_scan_attributed_err(
    children: Seq<XmlNodeModel>,
    tag: Seq<char>,
    i: int,
    found: Option<int>,
)
    requires
        0 <= i,
        exists|x: int|
            i <= x < children.len() && (#[trigger] children[x]) is Elem
                && children[x]->Elem_0.name == tag && children[x]->Elem_0.attrs.len() != 0,
    ensures
        scan_anchor(children, tag, i, found) is Err,
    decreases children.len() - i,
{
    let x = choose|x: int|
        i <= x < children.len() && (#[trigger] children[x]) is Elem
            && children[x]->Elem_0.name == tag && children[x]->Elem_0.attrs.len() != 0;
    if x > i {
        match children[i] {
            XmlNodeModel::Elem(e) => {
                if e.name == tag {
                    if e.attrs.len() == 0 && found is None {
                        lemma_scan_attributed_err(children, tag, i + 1, Some(i));
                    } else if e.attrs.len() == 0 {
                        lemma_scan_attributed_err(children, tag, i + 1, found);
                    }
                } else {
                    lemma_scan_attributed_err(children, tag, i + 1, found);
                }
            },
            _ => {
                lemma_scan_attributed_err(children, tag, i + 1, found);
            },
        }
    }
}

/// Law: re-running the metainfo expander on a tree that already holds an
/// attributed `name` element — as the expander's own output does once any
/// language was inserted for the title — fails; no tree is localized twice.
pub proof fn lemma_metainfo_rerun_fails(
    root: XmlElemModel,
    app: crate::entity::AppModel,
    reg: Seq<(Seq<char>, Map<Seq<char>, Seq<char>>)>,
)
    requires
        has_attributed_elem(root.children, "name"@),
    ensures
        metainfo_expand(root, app, reg) is Err,
{
    lemma_scan_attributed_err(root.children, "name"@, 0, None);
}

} // verus!
