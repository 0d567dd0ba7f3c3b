//! An XML element tree of plain values, read from a document parsed by
//! roxmltree, with the lookups the MusicXML reader makes: attributes by
//! name, element text, and children by tag name.
use vstd::prelude::*;
use vstd::string::StringExecFns;
use crate::text::{trim, str_to_chars, str_eq, trim_vec, chars_to_string};

verus! {

/// An attribute of an element.
pub struct XmlAttribute {
    /// Namespace URI, for a prefixed attribute
    pub namespace: Option<String>,
    /// Local name
    pub name: String,
    pub value: String,
}

/// An element: its local name, attributes, text and element children.
pub struct XmlElement {
    /// Local tag name
    pub name: String,
    pub attributes: Vec<XmlAttribute>,
    /// The text of the element's first child, when that child is text
    pub text: Option<String>,
    /// Element children, in document order
    pub children: Vec<XmlElement>,
}

// ─── Lookups (spec) ───────────────────────────────────────────────────────

/// Value of the first attribute without namespace named `key` among `attrs`.
pub open spec fn attr_in(attrs: Seq<XmlAttribute>, key: Seq<char>) -> Option<Seq<char>>
    decreases attrs.len(),
{
    if attrs.len() == 0 {
        None
    } else if attrs[0].namespace is None && attrs[0].name@ == key {
        Some(attrs[0].value@)
    } else {
        attr_in(attrs.drop_first(), key)
    }
}

/// Value of an element's attribute `key` (without namespace).
pub open spec fn attr(e: XmlElement, key: Seq<char>) -> Option<Seq<char>> {
    attr_in(e.attributes@, key)
}

/// Whether attribute `key` has the value `v`.
pub open spec fn attr_is(e: XmlElement, key: Seq<char>, v: Seq<char>) -> bool {
    attr(e, key) == Some(v)
}

/// An element's text trimmed, if any.
pub open spec fn trimmed_text(e: XmlElement) -> Option<Seq<char>> {
    match e.text {
        Some(t) => Some(trim(t@)),
        None => None,
    }
}

/// An element's text trimmed, `default` (trimmed) without text.
pub open spec fn trimmed_text_or(e: XmlElement, default: Seq<char>) -> Seq<char> {
    match e.text {
        Some(t) => trim(t@),
        None => trim(default),
    }
}

// ─── Lookups (exec) ───────────────────────────────────────────────────────

/// Value of the first attribute without namespace named `key` among `attrs`.
pub fn attribute_in(attrs: &Vec<XmlAttribute>, key: &str) -> (r: Option<String>)
    ensures
        match r {
            Some(v) => attr_in(attrs@, key@) == Some(v@),
            None => attr_in(attrs@, key@) is None,
        },
{
    let mut k: usize = 0;
    proof {
        assert(attrs@.skip(0) == attrs@);
    }
    while k < attrs.len()
        invariant
            k <= attrs@.len(),
            attr_in(attrs@, key@) == attr_in(attrs@.skip(k as int), key@),
        decreases attrs@.len() - k,
    {
        proof {
            assert(attrs@.skip(k as int)[0] == attrs@[k as int]);
            assert(attrs@.skip(k as int).drop_first() == attrs@.skip(k + 1));
        }
        let a = &attrs[k];
        if a.namespace.is_none() && str_eq(a.name.as_str(), key) {
            return Some(String::from_str(a.value.as_str()));
        }
        k = k + 1;
    }
    None
}

/// Value of attribute `key` (without namespace), if present.
pub fn attribute(e: &XmlElement, key: &str) -> (r: Option<String>)
    ensures
        match r {
            Some(v) => attr(*e, key@) == Some(v@),
            None => attr(*e, key@) is None,
        },
{
    attribute_in(&e.attributes, key)
}

/// Whether attribute `key` has the value `v`.
pub fn attribute_is(e: &XmlElement, key: &str, v: &str) -> (r: bool)
    ensures
        r == attr_is(*e, key@, v@),
{
    match attribute(e, key) {
        Some(a) => str_eq(a.as_str(), v),
        None => false,
    }
}

/// The element's text trimmed, if any.
pub fn text_trimmed(e: &XmlElement) -> (r: Option<String>)
    ensures
        match r {
            Some(t) => trimmed_text(*e) == Some(t@),
            None => trimmed_text(*e) is None,
        },
{
    match &e.text {
        Some(t) => {
            let cs = str_to_chars(t.as_str());
            let tv = trim_vec(&cs);
            Some(chars_to_string(&tv))
        },
        None => None,
    }
}

/// The element's text trimmed, or `default` trimmed without text.
pub fn text_trimmed_or(e: &XmlElement, default: &str) -> (r: String)
    ensures
        r@ == trimmed_text_or(*e, default@),
{
    let src: &str = match &e.text {
        Some(t) => t.as_str(),
        None => default,
    };
    let cs = str_to_chars(src);
    let tv = trim_vec(&cs);
    chars_to_string(&tv)
}

// ─── Reading a document ───────────────────────────────────────────────────

/// A node of a parsed document as plain values: the index of its parent
/// among the document's nodes, whether it is an element, its local name,
/// its text, and its attributes as (namespace, local name, value).
pub type NodeView = (Option<usize>, bool, Seq<char>, Option<Seq<char>>, Seq<(Option<Seq<char>>, Seq<char>, Seq<char>)>);

#[verifier::external_type_specification]
#[verifier::external_body]
pub struct ExXmlDocument<'input>(roxmltree::Document<'input>);

/// What roxmltree makes of a text, DTDs allowed or not: the nodes of the
/// document in document order, or the message of its error.
pub uninterp spec fn xml_parse(xml: Seq<char>, allow_dtd: bool) -> Result<Seq<NodeView>, Seq<char>>;

/// The nodes of a parsed document, in document order (the root node first).
pub uninterp spec fn document_contents(doc: roxmltree::Document<'_>) -> Seq<NodeView>;

/// `roxmltree::Document::parse_with_options` with `allow_dtd` set and the
/// other options at their defaults. Claimed: the outcome is a function of
/// the text and the option (the name `xml_parse`): the document's nodes,
/// or the error's message.
#[verifier::external_body]
fn parse_document(xml: &str, allow_dtd: bool) -> (r: Result<roxmltree::Document<'_>, String>)
    ensures
        match r {
            Ok(doc) => xml_parse(xml@, allow_dtd) == Ok::<Seq<NodeView>, Seq<char>>(document_contents(doc)),
            Err(e) => xml_parse(xml@, allow_dtd) == Err::<Seq<NodeView>, Seq<char>>(e@),
        },
{
    let options = roxmltree::ParsingOptions { allow_dtd, ..roxmltree::ParsingOptions::default() };
    roxmltree::Document::parse_with_options(xml, options).map_err(|e| e.to_string())
}

/// A node of a parsed document: the index of its parent among the
/// document's nodes, whether it is an element, its local name, its text
/// and attributes.
pub struct XmlNode {
    pub parent: Option<usize>,
    pub element: bool,
    pub name: String,
    pub text: Option<String>,
    pub attributes: Vec<XmlAttribute>,
}

/// An attribute as plain values.
pub open spec fn attr_view(a: XmlAttribute) -> (Option<Seq<char>>, Seq<char>, Seq<char>) {
    (
        match a.namespace {
            Some(u) => Some(u@),
            None => None,
        },
        a.name@,
        a.value@,
    )
}

/// Attributes as plain values.
pub open spec fn attr_views(s: Seq<XmlAttribute>) -> Seq<(Option<Seq<char>>, Seq<char>, Seq<char>)> {
    Seq::new(s.len(), |k: int| attr_view(s[k]))
}

/// Optional text as plain values.
pub open spec fn text_view(t: Option<String>) -> Option<Seq<char>> {
    match t {
        Some(s) => Some(s@),
        None => None,
    }
}

/// Value of the first attribute without namespace named `key` among
/// attributes given as plain values.
pub open spec fn attr_in_view(attrs: Seq<(Option<Seq<char>>, Seq<char>, Seq<char>)>, key: Seq<char>) -> Option<Seq<char>>
    decreases attrs.len(),
{
    if attrs.len() == 0 {
        None
    } else if attrs[0].0 is None && attrs[0].1 == key {
        Some(attrs[0].2)
    } else {
        attr_in_view(attrs.drop_first(), key)
    }
}

pub proof fn lemma_attr_in_view(attrs: Seq<XmlAttribute>, key: Seq<char>)
    ensures
        attr_in(attrs, key) == attr_in_view(attr_views(attrs), key),
    decreases attrs.len(),
{
    if attrs.len() > 0 {
        assert(attr_views(attrs).drop_first() =~= attr_views(attrs.drop_first()));
        lemma_attr_in_view(attrs.drop_first(), key);
    }
}

/// A node as plain values.
pub open spec fn node_view(n: XmlNode) -> NodeView {
    (n.parent, n.element, n.name@, text_view(n.text), attr_views(n.attributes@))
}

/// Nodes as plain values.
pub open spec fn node_views(ns: Seq<XmlNode>) -> Seq<NodeView> {
    Seq::new(ns.len(), |k: int| node_view(ns[k]))
}

/// `roxmltree::Document::descendants`: every node of the document in
/// document order, each converted to plain values (`parent` by its index,
/// `is_element`, `tag_name().name()`, `text`, `attributes`). Claimed: the
/// result is the document's nodes (the name `document_contents`).
#[verifier::external_body]
fn document_nodes(doc: &roxmltree::Document) -> (r: Vec<XmlNode>)
    ensures
        node_views(r@) == document_contents(*doc),
{
    doc.descendants().map(|n| XmlNode {
        parent: n.parent().map(|p| p.id().get_usize()),
        element: n.is_element(),
        name: n.tag_name().name().to_string(),
        text: n.text().map(|t| t.to_string()),
        attributes: n.attributes().map(|a| XmlAttribute {
            namespace: a.namespace().map(|u| u.to_string()),
            name: a.name().to_string(),
            value: a.value().to_string(),
        }).collect(),
    }).collect()
}

/// The nodes of an XML text in document order (see `XmlNode`), or the
/// message with which roxmltree refuses the text (see `xml_parse`).
pub fn parse_document_nodes(xml: &str, allow_dtd: bool) -> (r: Result<Vec<XmlNode>, String>)
    ensures
        match r {
            Ok(nodes) => xml_parse(xml@, allow_dtd) == Ok::<Seq<NodeView>, Seq<char>>(node_views(nodes@)),
            Err(e) => xml_parse(xml@, allow_dtd) == Err::<Seq<NodeView>, Seq<char>>(e@),
        },
{
    match parse_document(xml, allow_dtd) {
        Ok(doc) => Ok(document_nodes(&doc)),
        Err(m) => Err(m),
    }
}

// ─── The element tree ─────────────────────────────────────────────────────

/// Indices of the element nodes among the first `n` nodes that come after
/// node `i` and name it as their parent, in document order.
pub open spec fn child_indices(ns: Seq<NodeView>, i: int, n: int) -> Seq<int>
    decreases n,
{
    if n <= 0 {
        Seq::empty()
    } else {
        child_indices(ns, i, n - 1) + if i < n - 1 && ns[n - 1].1 && ns[n - 1].0 is Some && ns[n - 1].0->0 == i {
            seq![n - 1]
        } else {
            Seq::empty()
        }
    }
}

/// The element children of node `i`.
pub open spec fn children_of(ns: Seq<NodeView>, i: int) -> Seq<int> {
    child_indices(ns, i, ns.len() as int)
}

/// Whether element `e` has the name, text, attributes and number of
/// children of node `i`.
pub open spec fn matches_node(e: XmlElement, ns: Seq<NodeView>, i: int) -> bool {
    &&& 0 <= i < ns.len()
    &&& e.name@ == ns[i].2
    &&& text_view(e.text) == ns[i].3
    &&& attr_views(e.attributes@) == ns[i].4
    &&& e.children@.len() == children_of(ns, i).len()
}

/// The element reached from `e` by following child positions `p`.
pub open spec fn element_at(e: XmlElement, p: Seq<int>) -> Option<XmlElement>
    decreases p.len(),
{
    if p.len() == 0 {
        Some(e)
    } else if 0 <= p[0] < e.children@.len() {
        element_at(e.children@[p[0]], p.drop_first())
    } else {
        None
    }
}

/// The node reached from node `i` by following child positions `p` among
/// the element children of each node.
pub open spec fn node_at(ns: Seq<NodeView>, i: int, p: Seq<int>) -> Option<int>
    decreases p.len(),
{
    if p.len() == 0 {
        Some(i)
    } else if 0 <= p[0] < children_of(ns, i).len() {
        node_at(ns, children_of(ns, i)[p[0]], p.drop_first())
    } else {
        None
    }
}

/// Whether `e` is the element of node `i` with its subtree: following any
/// path of child positions from `e` and from node `i` reaches an element
/// and a node with the same name, text, attributes and number of element
/// children.
pub open spec fn is_element_tree(e: XmlElement, ns: Seq<NodeView>, i: int) -> bool {
    forall|p: Seq<int>|
        (#[trigger] element_at(e, p)) is Some ==> node_at(ns, i, p) is Some && matches_node(
            element_at(e, p)->0,
            ns,
            node_at(ns, i, p)->0,
        )
}

/// The root element of a document: the first element child of its root node.
pub open spec fn root_index(ns: Seq<NodeView>) -> Option<int> {
    if children_of(ns, 0).len() > 0 {
        Some(children_of(ns, 0)[0])
    } else {
        None
    }
}

proof fn lemma_child_indices_bounds(ns: Seq<NodeView>, i: int, n: int)
    ensures
        forall|c: int| 0 <= c < child_indices(ns, i, n).len() ==> i < #[trigger] child_indices(ns, i, n)[c] < n,
    decreases n,
{
    if n > 0 {
        lemma_child_indices_bounds(ns, i, n - 1);
        let prev = child_indices(ns, i, n - 1);
        let s = child_indices(ns, i, n);
        assert forall|c: int| 0 <= c < s.len() implies i < #[trigger] s[c] < n by {
            if c < prev.len() {
                assert(s[c] == prev[c]);
            }
        }
    }
}

fn copy_string(s: &String) -> (r: String)
    ensures
        r@ == s@,
{
    String::from_str(s.as_str())
}

fn copy_attributes(attrs: &Vec<XmlAttribute>) -> (r: Vec<XmlAttribute>)
    ensures
        attr_views(r@) == attr_views(attrs@),
{
    let mut r: Vec<XmlAttribute> = Vec::new();
    let mut k: usize = 0;
    while k < attrs.len()
        invariant
            k <= attrs@.len(),
            r@.len() == k,
            forall|j: int| 0 <= j < k ==> attr_view(#[trigger] r@[j]) == attr_view(attrs@[j]),
        decreases attrs@.len() - k,
    {
        let a = &attrs[k];
        let namespace = match &a.namespace {
            Some(u) => Some(copy_string(u)),
            None => None,
        };
        r.push(XmlAttribute { namespace, name: copy_string(&a.name), value: copy_string(&a.value) });
        k = k + 1;
    }
    assert(attr_views(r@) =~= attr_views(attrs@));
    r
}

/// Whether `kids[i]` lists the element children of every node `i` (see `children_of`).
spec fn kids_listed(kids: Seq<Vec<usize>>, ns: Seq<NodeView>) -> bool {
    &&& kids.len() == ns.len()
    &&& forall|i: int|
        0 <= i < kids.len() ==> (#[trigger] kids[i])@.len() == children_of(ns, i).len() && forall|c: int|
            0 <= c < kids[i]@.len() ==> kids[i]@[c] as int == children_of(ns, i)[c]
}

/// The element children of every node, as index lists.
fn child_lists(nodes: &Vec<XmlNode>) -> (kids: Vec<Vec<usize>>)
    ensures
        kids_listed(kids@, node_views(nodes@)),
{
    let ghost ns = node_views(nodes@);
    let n = nodes.len();
    let mut kids: Vec<Vec<usize>> = Vec::new();
    let mut i: usize = 0;
    while i < n
        invariant
            i <= n == nodes@.len(),
            kids@.len() == i,
            forall|q: int| 0 <= q < i ==> (#[trigger] kids@[q])@.len() == 0,
        decreases n - i,
    {
        kids.push(Vec::new());
        i = i + 1;
    }
    let mut j: usize = 0;
    while j < n
        invariant
            j <= n == nodes@.len(),
            ns == node_views(nodes@),
            kids@.len() == n,
            forall|q: int|
                0 <= q < n ==> (#[trigger] kids@[q])@.len() == child_indices(ns, q, j as int).len() && forall|c: int|
                    0 <= c < kids@[q]@.len() ==> kids@[q]@[c] as int == child_indices(ns, q, j as int)[c],
        decreases n - j,
    {
        let node = &nodes[j];
        assert(ns[j as int] == node_view(nodes@[j as int]));
        let ghost before = kids@;
        if node.element {
            if let Some(p) = node.parent {
                if p < j {
                    kids[p].push(j);
                }
            }
        }
        assert forall|q: int|
            0 <= q < n implies (#[trigger] kids@[q])@.len() == child_indices(ns, q, j + 1).len() && forall|c: int|
                0 <= c < kids@[q]@.len() ==> kids@[q]@[c] as int == child_indices(ns, q, j + 1)[c] by {
            assert(child_indices(ns, q, j + 1) == child_indices(ns, q, j as int) + if q < j && ns[j as int].1
                && ns[j as int].0 is Some && ns[j as int].0->0 == q {
                seq![j as int]
            } else {
                Seq::<int>::empty()
            });
        }
        j = j + 1;
    }
    kids
}

/// The element of node `i` with its subtree (see `is_element_tree`).
fn build_element(nodes: &Vec<XmlNode>, kids: &Vec<Vec<usize>>, i: usize) -> (e: XmlElement)
    requires
        i < nodes@.len(),
        kids_listed(kids@, node_views(nodes@)),
    ensures
        is_element_tree(e, node_views(nodes@), i as int),
    decreases nodes@.len() - i,
{
    let ghost ns = node_views(nodes@);
    let ks = &kids[i];
    proof {
        lemma_child_indices_bounds(ns, i as int, ns.len() as int);
    }
    let mut children: Vec<XmlElement> = Vec::new();
    let mut c: usize = 0;
    while c < ks.len()
        invariant
            ns == node_views(nodes@),
            i < nodes@.len(),
            kids_listed(kids@, ns),
            *ks == kids@[i as int],
            c <= ks@.len(),
            children@.len() == c,
            forall|d: int| 0 <= d < children_of(ns, i as int).len() ==> i < #[trigger] children_of(ns, i as int)[d] < ns.len(),
            forall|d: int| 0 <= d < c ==> #[trigger] is_element_tree(children@[d], ns, children_of(ns, i as int)[d]),
        decreases ks@.len() - c,
    {
        let k = ks[c];
        assert(k as int == children_of(ns, i as int)[c as int]);
        let child = build_element(nodes, kids, k);
        children.push(child);
        c = c + 1;
    }
    let n = &nodes[i];
    assert(ns[i as int] == node_view(nodes@[i as int]));
    let text = match &n.text {
        Some(t) => Some(copy_string(t)),
        None => None,
    };
    let e = XmlElement { name: copy_string(&n.name), attributes: copy_attributes(&n.attributes), text, children };
    proof {
        let ks = children_of(ns, i as int);
        assert(matches_node(e, ns, i as int));
        assert forall|p: Seq<int>| (#[trigger] element_at(e, p)) is Some implies node_at(ns, i as int, p) is Some
            && matches_node(element_at(e, p)->0, ns, node_at(ns, i as int, p)->0) by {
            if p.len() > 0 {
                let c = p[0];
                let q = p.drop_first();
                assert(0 <= c < children@.len());
                assert(e.children@[c] == children@[c]);
                assert(element_at(e, p) == element_at(children@[c], q));
                assert(node_at(ns, i as int, p) == node_at(ns, ks[c], q));
                assert(is_element_tree(children@[c], ns, ks[c]));
                assert(element_at(children@[c], q) is Some);
            }
        }
    }
    e
}

/// The element tree of a document's nodes: the root element (the first
/// element child of the root node) with its subtree, `None` without one
/// (see `is_element_tree`).
pub fn element_tree(nodes: &Vec<XmlNode>) -> (r: Option<XmlElement>)
    ensures
        match root_index(node_views(nodes@)) {
            Some(k) => r matches Some(root) && is_element_tree(root, node_views(nodes@), k),
            None => r is None,
        },
{
    let ghost ns = node_views(nodes@);
    let kids = child_lists(nodes);
    if nodes.len() == 0 {
        assert(children_of(ns, 0).len() == 0);
        return None;
    }
    if kids[0].len() == 0 {
        return None;
    }
    proof {
        lemma_child_indices_bounds(ns, 0, ns.len() as int);
    }
    let k = kids[0][0];
    Some(build_element(nodes, &kids, k))
}

/// Parse an XML text into its root element (see `element_tree`). Fails
/// with roxmltree's message on a text it does not accept (see
/// `xml_parse`), and with "XML document has no root element" without one.
pub fn parse_xml(xml: &str, allow_dtd: bool) -> (r: Result<XmlElement, String>)
    ensures
        match xml_parse(xml@, allow_dtd) {
            Err(m) => r matches Err(e) && e@ == m,
            Ok(ns) => match root_index(ns) {
                Some(k) => r matches Ok(root) && is_element_tree(root, ns, k),
                None => r matches Err(e) && e@ == "XML document has no root element"@,
            },
        },
{
    let nodes = match parse_document_nodes(xml, allow_dtd) {
        Ok(n) => n,
        Err(m) => {
            return Err(m);
        },
    };
    match element_tree(&nodes) {
        Some(root) => Ok(root),
        None => Err(String::from_str("XML document has no root element")),
    }
}

} // verus!
