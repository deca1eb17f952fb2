//! An XML document as a tree of plain values: the nodes in document order, each with
//! its kind, name, namespace, text, attributes and the positions of its children.
//! The tree is read with `roxmltree`.
use vstd::prelude::*;
use crate::plan::TextNode;

verus! {

#[verifier::external_type_specification]
#[verifier::external_body]
pub struct ExDocument<'input>(roxmltree::Document<'input>);

/// The kind of a node.
#[derive(Debug, Clone, PartialEq, Eq)]
pub enum NodeKind {
    Root,
    Element,
    ProcessingInstruction,
    Comment,
    Text,
}

/// An attribute: local name, namespace URI if any, and value.
#[derive(Debug, Clone, PartialEq, Eq)]
pub struct XmlAttr {
    pub name: String,
    pub namespace: Option<String>,
    pub value: String,
}

/// A node: its kind; for an element its local name and namespace URI (empty name and
/// no namespace otherwise); its text (for a text or comment node, the text; for an
/// element, the text of its first child when that child is text); its attributes; and
/// the positions of its children in the tree.
#[derive(Debug, Clone, PartialEq, Eq)]
pub struct XmlNode {
    pub kind: NodeKind,
    pub name: String,
    pub namespace: Option<String>,
    pub text: Option<String>,
    pub attributes: Vec<XmlAttr>,
    pub children: Vec<usize>,
}

/// A document: its nodes in document order, the root node first.
#[derive(Debug, Clone, PartialEq, Eq)]
pub struct XmlTree {
    pub nodes: Vec<XmlNode>,
}

impl XmlTree {
    /// A tree whose root comes first and whose children all come after their parent.
    pub open spec fn wf(&self) -> bool {
        &&& self.nodes@.len() > 0
        &&& forall|i: int, j: int|
            0 <= i < self.nodes@.len() && 0 <= j < self.nodes@[i].children@.len() ==> i
                < #[trigger] self.nodes@[i].children@[j] < self.nodes@.len()
    }

    /// The number of nodes.
    pub open spec fn len(&self) -> int {
        self.nodes@.len() as int
    }

    /// The positions of the children of node `i`.
    pub open spec fn kids(&self, i: int) -> Seq<usize> {
        self.nodes@[i].children@
    }

    /// Whether node `i` is an element with local name `local`.
    pub open spec fn is_element_named(&self, i: int, local: Seq<char>) -> bool {
        &&& 0 <= i < self.len()
        &&& self.nodes@[i].kind is Element
        &&& self.nodes@[i].name@ == local
    }
}

/// What `roxmltree::Document::parse_with_options` makes of a text without DTD (with the
/// default node limit): the nodes of the document, indexed by node id, or the text of
/// the parse error.
pub uninterp spec fn parse_outcome(text: Seq<char>) -> Result<Seq<XmlNode>, Seq<char>>;

/// What a parsed `roxmltree::Document` holds: its nodes, indexed by node id, each
/// described as an `XmlNode`.
pub uninterp spec fn document_contents(d: roxmltree::Document) -> Seq<XmlNode>;

/// Calls `roxmltree::Document::parse_with_options` without DTD and with the default
/// node limit, and gives a parse error as its `Display` text. Trusted: the outcome is
/// `parse_outcome` of the text, and a document has at most `u32::MAX` nodes (the
/// parser refuses to add a node past its limit, `u32::MAX` by default).
#[verifier::external_body]
fn parse_document<'input>(text: &'input str) -> (r: Result<roxmltree::Document<'input>, String>)
    ensures
        match r {
            Ok(d) => parse_outcome(text@) == Ok::<Seq<XmlNode>, Seq<char>>(document_contents(d))
                && document_contents(d).len() <= u32::MAX,
            Err(m) => parse_outcome(text@) == Err::<Seq<XmlNode>, Seq<char>>(m@),
        },
{
    let opts = roxmltree::ParsingOptions { allow_dtd: false, ..roxmltree::ParsingOptions::default() };
    match roxmltree::Document::parse_with_options(text, opts) {
        Ok(d) => Ok(d),
        Err(e) => Err(e.to_string()),
    }
}

/// Calls `Document::descendants` of the root and counts them: every node once.
#[verifier::external_body]
fn node_count(d: &roxmltree::Document) -> (r: usize)
    ensures
        r == document_contents(*d).len(),
{
    d.descendants().count()
}

/// Calls `Document::get_node` for id `i` and `Node::node_type`, one variant for each.
#[verifier::external_body]
fn node_kind_at(d: &roxmltree::Document, i: usize) -> (r: NodeKind)
    requires
        i < document_contents(*d).len() <= u32::MAX,
    ensures
        r == document_contents(*d)[i as int].kind,
{
    match d.get_node(roxmltree::NodeId::new(i as u32)).unwrap().node_type() {
        roxmltree::NodeType::Root => NodeKind::Root,
        roxmltree::NodeType::Element => NodeKind::Element,
        roxmltree::NodeType::PI => NodeKind::ProcessingInstruction,
        roxmltree::NodeType::Comment => NodeKind::Comment,
        roxmltree::NodeType::Text => NodeKind::Text,
    }
}

/// Calls `Document::get_node` for id `i` and `Node::tag_name`, and gives its local name.
#[verifier::external_body]
fn node_local_name_at(d: &roxmltree::Document, i: usize) -> (r: String)
    requires
        i < document_contents(*d).len() <= u32::MAX,
    ensures
        r == document_contents(*d)[i as int].name,
{
    d.get_node(roxmltree::NodeId::new(i as u32)).unwrap().tag_name().name().to_string()
}

/// Calls `Document::get_node` for id `i` and `Node::tag_name`, and gives its namespace URI.
#[verifier::external_body]
fn node_namespace_at(d: &roxmltree::Document, i: usize) -> (r: Option<String>)
    requires
        i < document_contents(*d).len() <= u32::MAX,
    ensures
        r == document_contents(*d)[i as int].namespace,
{
    d.get_node(roxmltree::NodeId::new(i as u32)).unwrap().tag_name().namespace().map(|s| s.to_string())
}

/// Calls `Document::get_node` for id `i` and `Node::text`.
#[verifier::external_body]
fn node_text_at(d: &roxmltree::Document, i: usize) -> (r: Option<String>)
    requires
        i < document_contents(*d).len() <= u32::MAX,
    ensures
        r == document_contents(*d)[i as int].text,
{
    d.get_node(roxmltree::NodeId::new(i as u32)).unwrap().text().map(|s| s.to_string())
}

/// Calls `Document::get_node` for id `i` and `Node::attributes`, each attribute as its
/// local name, namespace and value.
#[verifier::external_body]
fn node_attributes_at(d: &roxmltree::Document, i: usize) -> (r: Vec<XmlAttr>)
    requires
        i < document_contents(*d).len() <= u32::MAX,
    ensures
        r == document_contents(*d)[i as int].attributes,
{
    d.get_node(roxmltree::NodeId::new(i as u32)).unwrap().attributes().map(|a| XmlAttr {
        name: a.name().to_string(),
        namespace: a.namespace().map(|s| s.to_string()),
        value: a.value().to_string(),
    }).collect()
}

/// Calls `Document::get_node` for id `i` and `Node::children`, and gives each child's id.
#[verifier::external_body]
fn node_child_indices_at(d: &roxmltree::Document, i: usize) -> (r: Vec<usize>)
    requires
        i < document_contents(*d).len() <= u32::MAX,
    ensures
        r == document_contents(*d)[i as int].children,
{
    d.get_node(roxmltree::NodeId::new(i as u32)).unwrap().children().map(|c| c.id().get_usize()).collect()
}

/// The message when a parsed document does not list its nodes in document order.
pub open spec fn msg_bad_tree() -> Seq<char> {
    "XML: порядок узлов документа нарушен"@
}

/// Whether nodes form a tree listed in document order: there is a first node (the
/// root) and every child comes after its parent.
pub open spec fn nodes_in_order(ns: Seq<XmlNode>) -> bool {
    &&& ns.len() > 0
    &&& forall|i: int, j: int|
        0 <= i < ns.len() && 0 <= j < ns[i].children@.len() ==> i < #[trigger] ns[i].children@[j]
            < ns.len()
}

/// What parsing a text into a tree gives: the parse error's text; the parsed nodes when
/// they are in document order; else the message `msg_bad_tree`.
pub open spec fn tree_outcome(text: Seq<char>) -> Result<Seq<XmlNode>, Seq<char>> {
    match parse_outcome(text) {
        Err(m) => Err(m),
        Ok(ns) => if nodes_in_order(ns) {
            Ok(ns)
        } else {
            Err(msg_bad_tree())
        },
    }
}

/// Whether `r` is what parsing `text` into a tree gives (see `tree_outcome`): the same
/// error text, or a tree with the same nodes.
pub open spec fn tree_fits(r: Result<XmlTree, String>, text: Seq<char>) -> bool {
    match tree_outcome(text) {
        Err(m) => r matches Err(e) && e@ == m,
        Ok(ns) => r matches Ok(t) && t.nodes@ == ns,
    }
}

/// Parses an XML text (without DTD) into a tree (see `tree_fits`).
pub fn parse_xml_tree(text: &str) -> (r: Result<XmlTree, String>)
    ensures
        tree_fits(r, text@),
        r matches Ok(t) ==> t.wf(),
{
    let doc = match parse_document(text) {
        Ok(d) => d,
        Err(e) => {
            return Err(e);
        },
    };
    let ghost ns = document_contents(doc);
    let n = node_count(&doc);
    if n == 0 {
        return Err(crate::error::owned("XML: порядок узлов документа нарушен"));
    }
    let mut nodes: Vec<XmlNode> = Vec::new();
    let mut i: usize = 0;
    while i < n
        invariant
            ns == document_contents(doc),
            parse_outcome(text@) == Ok::<Seq<XmlNode>, Seq<char>>(ns),
            n == ns.len() <= u32::MAX,
            i <= n,
            nodes@ == ns.take(i as int),
            forall|a: int, b: int|
                0 <= a < i && 0 <= b < ns[a].children@.len() ==> a < #[trigger] ns[a].children@[b] < n,
        decreases n - i,
    {
        let children = node_child_indices_at(&doc, i);
        let mut j: usize = 0;
        while j < children.len()
            invariant
                ns == document_contents(doc),
                parse_outcome(text@) == Ok::<Seq<XmlNode>, Seq<char>>(ns),
                n == ns.len(),
                i < n,
                j <= children@.len(),
                children == ns[i as int].children,
                forall|b: int| 0 <= b < j ==> i < #[trigger] children@[b] < n,
            decreases children@.len() - j,
        {
            if children[j] <= i || children[j] >= n {
                proof {
                    assert(!nodes_in_order(ns)) by {
                        assert(ns[i as int].children@[j as int] == children@[j as int]);
                    }
                }
                return Err(crate::error::owned("XML: порядок узлов документа нарушен"));
            }
            j += 1;
        }
        let node = XmlNode {
            kind: node_kind_at(&doc, i),
            name: node_local_name_at(&doc, i),
            namespace: node_namespace_at(&doc, i),
            text: node_text_at(&doc, i),
            attributes: node_attributes_at(&doc, i),
            children,
        };
        assert(node == ns[i as int]);
        nodes.push(node);
        proof {
            assert(nodes@ =~= ns.take(i + 1));
        }
        i += 1;
    }
    assert(ns.take(n as int) =~= ns);
    Ok(XmlTree { nodes })
}


/// Node `i` and all nodes below it, in document order.
pub open spec fn descendants(t: XmlTree, i: int) -> Seq<int>
    decreases 2 * (t.len() - i) + 1, 0int,
{
    if 0 <= i < t.len() {
        seq![i] + kids_descendants(t, i, t.kids(i).len() as int)
    } else {
        Seq::empty()
    }
}

/// The descendants of the first `k` children of node `i`, in order.
pub open spec fn kids_descendants(t: XmlTree, i: int, k: int) -> Seq<int>
    decreases 2 * (t.len() - i), k,
{
    if 0 <= i < t.len() && 0 < k <= t.kids(i).len() {
        let c = t.kids(i)[k - 1] as int;
        kids_descendants(t, i, k - 1) + if i < c < t.len() {
            descendants(t, c)
        } else {
            Seq::empty()
        }
    } else {
        Seq::empty()
    }
}

/// Appends node `i` and its descendants, in document order.
pub fn collect_descendants(t: &XmlTree, i: usize, out: &mut Vec<usize>)
    requires
        t.wf(),
        i < t.len(),
    ensures
        final(out)@.map_values(|x: usize| x as int) == old(out)@.map_values(|x: usize| x as int)
            + descendants(*t, i as int),
    decreases t.len() - i,
{
    let ghost start = out@.map_values(|x: usize| x as int);
    out.push(i);
    assert(out@.map_values(|x: usize| x as int) =~= start + seq![i as int]);
    let kids = &t.nodes[i].children;
    let mut k: usize = 0;
    while k < kids.len()
        invariant
            t.wf(),
            i < t.len(),
            kids@ == t.kids(i as int),
            k <= kids@.len(),
            out@.map_values(|x: usize| x as int) == start + seq![i as int] + kids_descendants(
                *t,
                i as int,
                k as int,
            ),
        decreases kids@.len() - k,
    {
        let c = kids[k];
        assert(i < c < t.len());
        collect_descendants(t, c, out);
        proof {
            assert(kids_descendants(*t, i as int, k + 1) == kids_descendants(*t, i as int, k as int)
                + descendants(*t, c as int));
        }
        k += 1;
    }
    assert(descendants(*t, i as int) == seq![i as int] + kids_descendants(*t, i as int, kids@.len() as int));
}

/// The positions in `ids` of elements with local name `local`, in order.
pub open spec fn elements_named(t: XmlTree, ids: Seq<int>, local: Seq<char>) -> Seq<int>
    decreases ids.len(),
{
    if ids.len() == 0 {
        ids
    } else if t.is_element_named(ids.last(), local) {
        elements_named(t, ids.drop_last(), local).push(ids.last())
    } else {
        elements_named(t, ids.drop_last(), local)
    }
}

/// Whether node `i` is an element with local name `local`.
pub fn is_element_named(t: &XmlTree, i: usize, local: &str) -> (r: bool)
    requires
        i < t.len(),
    ensures
        r == t.is_element_named(i as int, local@),
{
    match t.nodes[i].kind {
        NodeKind::Element => {
            let a = crate::text::chars_of(t.nodes[i].name.as_str());
            let b = crate::text::chars_of(local);
            crate::text::eq_chars(a.as_slice(), b.as_slice())
        },
        _ => false,
    }
}

/// The elements with local name `local` among node `i` and its descendants, in
/// document order.
#[verifier::rlimit(40)]
pub fn descendants_named(t: &XmlTree, i: usize, local: &str) -> (r: Vec<usize>)
    requires
        t.wf(),
        i < t.len(),
    ensures
        r@.map_values(|x: usize| x as int) == elements_named(*t, descendants(*t, i as int), local@),
        forall|j: int| 0 <= j < r@.len() ==> (#[trigger] r@[j]) < t.len(),
{
    let mut all: Vec<usize> = Vec::new();
    collect_descendants(t, i, &mut all);
    assert(all@.map_values(|x: usize| x as int) =~= descendants(*t, i as int));
    let ghost ds = descendants(*t, i as int);
    let mut r: Vec<usize> = Vec::new();
    let mut k: usize = 0;
    while k < all.len()
        invariant
            k <= all@.len(),
            all@.map_values(|x: usize| x as int) == ds,
            r@.map_values(|x: usize| x as int) == elements_named(*t, ds.take(k as int), local@),
            forall|j: int| 0 <= j < r@.len() ==> (#[trigger] r@[j]) < t.len(),
        decreases all@.len() - k,
    {
        let ghost pre = ds.take(k + 1);
        assert(pre.drop_last() =~= ds.take(k as int));
        assert(pre.last() == all@[k as int] as int);
        let c = all[k];
        if c < t.nodes.len() && is_element_named(t, c, local) {
            let ghost rv = r@.map_values(|x: usize| x as int);
            r.push(c);
            assert(r@.map_values(|x: usize| x as int) =~= rv.push(c as int));
        } else {
            assert(!t.is_element_named(c as int, local@));
        }
        k += 1;
    }
    assert(ds.take(ds.len() as int) =~= ds);
    r
}

/// The elements among the children of `i` with local name `local`, in order.
pub open spec fn kids_named(t: XmlTree, i: int, local: Seq<char>) -> Seq<int> {
    elements_named(t, t.kids(i).map_values(|x: usize| x as int), local)
}

/// The children of node `i` that are elements with local name `local`, in order.
pub fn children_named(t: &XmlTree, i: usize, local: &str) -> (r: Vec<usize>)
    requires
        t.wf(),
        i < t.len(),
    ensures
        r@.map_values(|x: usize| x as int) == kids_named(*t, i as int, local@),
        forall|j: int| 0 <= j < r@.len() ==> i < (#[trigger] r@[j]) < t.len(),
{
    let kids = &t.nodes[i].children;
    let ghost ks = kids@.map_values(|x: usize| x as int);
    let mut r: Vec<usize> = Vec::new();
    let mut k: usize = 0;
    while k < kids.len()
        invariant
            t.wf(),
            i < t.len(),
            kids@ == t.kids(i as int),
            ks == kids@.map_values(|x: usize| x as int),
            k <= kids@.len(),
            r@.map_values(|x: usize| x as int) == elements_named(*t, ks.take(k as int), local@),
            forall|j: int| 0 <= j < r@.len() ==> i < (#[trigger] r@[j]) < t.len(),
        decreases kids@.len() - k,
    {
        let ghost pre = ks.take(k + 1);
        assert(pre.drop_last() =~= ks.take(k as int));
        assert(pre.last() == kids@[k as int] as int);
        let c = kids[k];
        assert(i < c < t.len());
        if is_element_named(t, c, local) {
            let ghost rv = r@.map_values(|x: usize| x as int);
            r.push(c);
            assert(r@.map_values(|x: usize| x as int) =~= rv.push(c as int));
        }
        k += 1;
    }
    assert(ks.take(ks.len() as int) =~= ks);
    r
}

/// The texts of the children of run `r` that are `t` elements with text, in order.
pub open spec fn run_texts(t: XmlTree, r: int) -> Seq<Seq<char>>
    decreases 0int,
{
    texts_of(t, kids_named(t, r, "t"@))
}

/// The texts of the given nodes that have one, in order.
pub open spec fn texts_of(t: XmlTree, ids: Seq<int>) -> Seq<Seq<char>>
    decreases ids.len(),
{
    if ids.len() == 0 {
        Seq::empty()
    } else {
        let prev = texts_of(t, ids.drop_last());
        match t.nodes@[ids.last()].text {
            Some(x) => prev.push(x@),
            None => prev,
        }
    }
}


/// The text pieces of the first `k` of the given runs, each with its run's index.
pub open spec fn runs_text_nodes(t: XmlTree, runs: Seq<int>, k: int) -> Seq<(int, Seq<char>)>
    decreases k,
{
    if k <= 0 {
        Seq::empty()
    } else {
        runs_text_nodes(t, runs, k - 1) + run_texts(t, runs[k - 1]).map_values(
            |x: Seq<char>| (k - 1, x),
        )
    }
}

/// The text pieces of paragraph `p`: for each run (`r` child) in order, numbered from
/// 0, the texts of its `t` children.
pub open spec fn paragraph_text_nodes(t: XmlTree, p: int) -> Seq<(int, Seq<char>)> {
    let runs = kids_named(t, p, "r"@);
    runs_text_nodes(t, runs, runs.len() as int)
}

/// The views of text pieces.
pub open spec fn text_nodes_view(v: Seq<TextNode>) -> Seq<(int, Seq<char>)> {
    v.map_values(|n: TextNode| (n.run_idx as int, n.text@))
}

/// The text pieces of paragraph `p` (see `paragraph_text_nodes`).
pub fn collect_text_nodes(t: &XmlTree, p: usize) -> (r: Vec<TextNode>)
    requires
        t.wf(),
        p < t.len(),
    ensures
        text_nodes_view(r@) == paragraph_text_nodes(*t, p as int),
{
    let runs = children_named(t, p, "r");
    let ghost rs = runs@.map_values(|x: usize| x as int);
    let mut nodes: Vec<TextNode> = Vec::new();
    let mut k: usize = 0;
    while k < runs.len()
        invariant
            t.wf(),
            rs == runs@.map_values(|x: usize| x as int),
            rs == kids_named(*t, p as int, "r"@),
            forall|j: int| 0 <= j < runs@.len() ==> (#[trigger] runs@[j]) < t.len(),
            k <= runs@.len(),
            text_nodes_view(nodes@) == runs_text_nodes(*t, rs, k as int),
        decreases runs@.len() - k,
    {
        let r = runs[k];
        let ts = children_named(t, r, "t");
        let ghost tv = ts@.map_values(|x: usize| x as int);
        let ghost base = text_nodes_view(nodes@);
        let mut j: usize = 0;
        while j < ts.len()
            invariant
                t.wf(),
                r < t.len(),
                tv == ts@.map_values(|x: usize| x as int),
                forall|b: int| 0 <= b < ts@.len() ==> (#[trigger] ts@[b]) < t.len(),
                j <= ts@.len(),
                text_nodes_view(nodes@) == base + texts_of(*t, tv.take(j as int)).map_values(
                    |x: Seq<char>| (k as int, x),
                ),
            decreases ts@.len() - j,
        {
            let ghost pre = tv.take(j + 1);
            assert(pre.drop_last() =~= tv.take(j as int));
            assert(pre.last() == ts@[j as int] as int);
            let c = ts[j];
            let ghost before = text_nodes_view(nodes@);
            match &t.nodes[c].text {
                Some(x) => {
                    nodes.push(TextNode { run_idx: k, text: x.clone() });
                    assert(text_nodes_view(nodes@) =~= before.push((k as int, x@)));
                    assert(texts_of(*t, pre) == texts_of(*t, tv.take(j as int)).push(x@));
                    assert(texts_of(*t, pre).map_values(|x: Seq<char>| (k as int, x)) =~= texts_of(
                        *t,
                        tv.take(j as int),
                    ).map_values(|x: Seq<char>| (k as int, x)).push((k as int, x@)));
                },
                None => {
                    assert(texts_of(*t, pre) == texts_of(*t, tv.take(j as int)));
                },
            }
            j += 1;
        }
        proof {
            assert(tv.take(tv.len() as int) =~= tv);
            assert(tv == kids_named(*t, r as int, "t"@));
            assert(rs[k as int] == r as int);
            assert(run_texts(*t, r as int) == texts_of(*t, tv));
        }
        k += 1;
    }
    nodes
}


/// Lemma: the nodes below node `i` depend only on the tree's nodes.
pub proof fn lemma_descendants_same_nodes(t1: XmlTree, t2: XmlTree, i: int)
    requires
        t1.nodes@ == t2.nodes@,
    ensures
        descendants(t1, i) == descendants(t2, i),
    decreases 2 * (t1.len() - i) + 1, 0int,
{
    if 0 <= i < t1.len() {
        lemma_kids_descendants_same_nodes(t1, t2, i, t1.kids(i).len() as int);
    }
}

/// Lemma: the nodes below the first `k` children of node `i` depend only on the
/// tree's nodes.
pub proof fn lemma_kids_descendants_same_nodes(t1: XmlTree, t2: XmlTree, i: int, k: int)
    requires
        t1.nodes@ == t2.nodes@,
    ensures
        kids_descendants(t1, i, k) == kids_descendants(t2, i, k),
    decreases 2 * (t1.len() - i), k,
{
    if 0 <= i < t1.len() && 0 < k <= t1.kids(i).len() {
        lemma_kids_descendants_same_nodes(t1, t2, i, k - 1);
        let c = t1.kids(i)[k - 1] as int;
        if i < c < t1.len() {
            lemma_descendants_same_nodes(t1, t2, c);
        }
    }
}

/// Lemma: picking the elements named `local` depends only on the tree's nodes.
pub proof fn lemma_elements_named_same_nodes(t1: XmlTree, t2: XmlTree, ids: Seq<int>, local: Seq<char>)
    requires
        t1.nodes@ == t2.nodes@,
    ensures
        elements_named(t1, ids, local) == elements_named(t2, ids, local),
    decreases ids.len(),
{
    if ids.len() > 0 {
        lemma_elements_named_same_nodes(t1, t2, ids.drop_last(), local);
    }
}

/// Lemma: the texts of nodes depend only on the tree's nodes.
pub proof fn lemma_texts_of_same_nodes(t1: XmlTree, t2: XmlTree, ids: Seq<int>)
    requires
        t1.nodes@ == t2.nodes@,
    ensures
        texts_of(t1, ids) == texts_of(t2, ids),
    decreases ids.len(),
{
    if ids.len() > 0 {
        lemma_texts_of_same_nodes(t1, t2, ids.drop_last());
    }
}

/// Lemma: the text pieces of the first `k` runs depend only on the tree's nodes.
pub proof fn lemma_runs_text_nodes_same_nodes(t1: XmlTree, t2: XmlTree, runs: Seq<int>, k: int)
    requires
        t1.nodes@ == t2.nodes@,
    ensures
        runs_text_nodes(t1, runs, k) == runs_text_nodes(t2, runs, k),
    decreases k,
{
    if k > 0 {
        lemma_runs_text_nodes_same_nodes(t1, t2, runs, k - 1);
        let r = runs[k - 1];
        lemma_elements_named_same_nodes(t1, t2, t1.kids(r).map_values(|x: usize| x as int), "t"@);
        lemma_texts_of_same_nodes(t1, t2, kids_named(t1, r, "t"@));
        assert(run_texts(t1, r) == run_texts(t2, r));
    }
}

/// Lemma: the text pieces of a paragraph depend only on the tree's nodes.
pub proof fn lemma_paragraph_text_nodes_same_nodes(t1: XmlTree, t2: XmlTree, p: int)
    requires
        t1.nodes@ == t2.nodes@,
    ensures
        paragraph_text_nodes(t1, p) == paragraph_text_nodes(t2, p),
{
    lemma_elements_named_same_nodes(t1, t2, t1.kids(p).map_values(|x: usize| x as int), "r"@);
    let runs = kids_named(t1, p, "r"@);
    lemma_runs_text_nodes_same_nodes(t1, t2, runs, runs.len() as int);
}

} // verus!
