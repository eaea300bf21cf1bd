//! An XML document held as plain values: an arena of nodes in document
//! order, filled from the `roxmltree` parser.

use vstd::prelude::*;
use crate::text::{chars_of, chars_eq, copy_chars, trimmed, trim};
use roxmltree::{Document, ParsingOptions};

verus! {

/// One node of a parsed document, as the parser reports it: whether it is
/// an element, its tag name, its attributes in document order, its text,
/// and the index of its parent.
pub struct XmlNode {
    pub element: bool,
    pub name: Vec<char>,
    pub attributes: Vec<(Vec<char>, Vec<char>)>,
    pub text: Option<Vec<char>>,
    pub parent: Option<usize>,
}

/// A node as plain values.
pub struct XmlNodeV {
    pub element: bool,
    pub name: Seq<char>,
    pub attributes: Seq<(Seq<char>, Seq<char>)>,
    pub text: Option<Seq<char>>,
    pub parent: Option<usize>,
}

pub open spec fn pairs_view(v: Seq<(Vec<char>, Vec<char>)>) -> Seq<(Seq<char>, Seq<char>)> {
    Seq::new(v.len(), |i: int| (v[i].0@, v[i].1@))
}

pub open spec fn opt_chars(o: Option<Vec<char>>) -> Option<Seq<char>> {
    match o {
        Some(t) => Some(t@),
        None => None,
    }
}

impl View for XmlNode {
    type V = XmlNodeV;

    open spec fn view(&self) -> XmlNodeV {
        XmlNodeV {
            element: self.element,
            name: self.name@,
            attributes: pairs_view(self.attributes@),
            text: opt_chars(self.text),
            parent: self.parent,
        }
    }
}

pub open spec fn nodes_view(v: Seq<XmlNode>) -> Seq<XmlNodeV> {
    Seq::new(v.len(), |i: int| v[i]@)
}

/// What `roxmltree` makes of `text` (DTDs allowed or not): every node of
/// the document in document order, the document node first; or the
/// parser's error message.
pub uninterp spec fn xml_parsed(text: Seq<char>, allow_dtd: bool) -> Result<Seq<XmlNodeV>, Seq<char>>;

/// `roxmltree::Document::parse_with_options`, then `Document::descendants`
/// read node by node (`is_element`, `tag_name` local name, `attributes`,
/// `text`, the `parent`'s id): the result is [`xml_parsed`] of the text; the
/// error is rendered with its `Display`.
#[verifier::external_body]
fn xml_parse(text: &str, allow_dtd: bool) -> (r: Result<Vec<XmlNode>, String>)
    ensures
        xml_parsed(text@, allow_dtd) == match r {
            Ok(v) => Ok::<Seq<XmlNodeV>, Seq<char>>(nodes_view(v@)),
            Err(e) => Err::<Seq<XmlNodeV>, Seq<char>>(e@),
        },
{
    let options = ParsingOptions { allow_dtd, ..ParsingOptions::default() };
    match Document::parse_with_options(text, options) {
        Ok(doc) => Ok(doc.descendants().map(|n| XmlNode {
            element: n.is_element(),
            name: n.tag_name().name().chars().collect(),
            attributes: n.attributes().map(|a| (a.name().chars().collect(), a.value().chars().collect())).collect(),
            text: n.text().map(|t| t.chars().collect()),
            parent: n.parent().map(|p| p.id().get_usize()),
        }).collect()),
        Err(err) => Err(err.to_string()),
    }
}

/// A parsed document: per node (in document order) whether it is an
/// element, its tag name, its attributes, its text, and its child nodes.
pub struct XmlDoc {
    pub is_element: Vec<bool>,
    pub names: Vec<Vec<char>>,
    pub attributes: Vec<Vec<(Vec<char>, Vec<char>)>>,
    pub texts: Vec<Option<Vec<char>>>,
    pub children: Vec<Vec<usize>>,
    pub root: usize,
}

impl XmlDoc {
    pub open spec fn len(&self) -> nat {
        self.is_element@.len()
    }

    /// Tables agree in length, the root is a node, and every child comes
    /// after its parent.
    pub open spec fn wf(&self) -> bool {
        &&& self.names@.len() == self.len()
        &&& self.attributes@.len() == self.len()
        &&& self.texts@.len() == self.len()
        &&& self.children@.len() == self.len()
        &&& self.root < self.len()
        &&& self.len() < usize::MAX
        &&& forall|i: int, j: int|
            0 <= i < self.len() && 0 <= j < self.children@[i]@.len() ==> i < (
            #[trigger] self.children@[i]@[j]) < self.len()
    }

    /// `i` is an element named `name`.
    pub open spec fn is_tag(&self, i: int, name: Seq<char>) -> bool {
        self.is_element@[i] && self.names@[i]@ == name
    }

    /// The element children of `i` from child position `k` on, in order.
    pub open spec fn elements_from(&self, i: int, k: int) -> Seq<usize>
        decreases self.children@[i]@.len() - k,
    {
        if k < 0 || k >= self.children@[i]@.len() {
            Seq::empty()
        } else {
            let c = self.children@[i]@[k];
            let rest = self.elements_from(i, k + 1);
            if self.is_element@[c as int] { seq![c] + rest } else { rest }
        }
    }

    /// The element children of `i`, in document order.
    pub open spec fn elements(&self, i: int) -> Seq<usize> {
        self.elements_from(i, 0)
    }

    /// The children of `i` named `name` from child position `k` on.
    pub open spec fn named_from(&self, i: int, name: Seq<char>, k: int) -> Seq<usize>
        decreases self.children@[i]@.len() - k,
    {
        if k < 0 || k >= self.children@[i]@.len() {
            Seq::empty()
        } else {
            let c = self.children@[i]@[k];
            let rest = self.named_from(i, name, k + 1);
            if self.is_tag(c as int, name) { seq![c] + rest } else { rest }
        }
    }

    /// The element children of `i` named `name`, in document order.
    pub open spec fn named(&self, i: int, name: Seq<char>) -> Seq<usize> {
        self.named_from(i, name, 0)
    }

    /// First element child of `i` named `name`.
    pub open spec fn child_named(&self, i: int, name: Seq<char>) -> Option<usize> {
        let m = self.named(i, name);
        if m.len() > 0 { Some(m[0]) } else { None }
    }

    /// The text of `i` (its first child, when that is text).
    pub open spec fn text(&self, i: int) -> Option<Seq<char>> {
        match self.texts@[i] {
            Some(t) => Some(t@),
            None => None,
        }
    }

    /// Trimmed text of the first element child of `i` named `name`.
    pub open spec fn child_text(&self, i: int, name: Seq<char>) -> Option<Seq<char>> {
        match self.child_named(i, name) {
            Some(c) => match self.text(c as int) {
                Some(t) => Some(trim(t)),
                None => None,
            },
            None => None,
        }
    }

    /// Value of the first attribute of `i` named `name`.
    pub open spec fn attribute(&self, i: int, name: Seq<char>) -> Option<Seq<char>> {
        first_attribute(self.attributes@[i]@, name, 0)
    }

    /// Whether some element child of `i` is named `name`.
    pub open spec fn has_child(&self, i: int, name: Seq<char>) -> bool {
        self.named(i, name).len() > 0
    }
}

pub open spec fn first_attribute(attrs: Seq<(Vec<char>, Vec<char>)>, name: Seq<char>, k: int) -> Option<Seq<char>>
    decreases attrs.len() - k,
{
    if k < 0 || k >= attrs.len() {
        None
    } else if attrs[k].0@ == name {
        Some(attrs[k].1@)
    } else {
        first_attribute(attrs, name, k + 1)
    }
}

/// The element children of `i`.
pub fn element_children(doc: &XmlDoc, i: usize) -> (r: Vec<usize>)
    requires
        doc.wf(),
        i < doc.len(),
    ensures
        r@ == doc.elements(i as int),
        forall|j: int| 0 <= j < r@.len() ==> i < #[trigger] r@[j] < doc.len(),
{
    let row = &doc.children[i];
    let n = row.len();
    let mut r: Vec<usize> = Vec::new();
    let mut k: usize = n;
    while k > 0
        invariant
            k <= n,
            n == doc.children@[i as int]@.len(),
            doc.wf(),
            i < doc.len(),
            *row == doc.children@[i as int],
            r@ == doc.elements_from(i as int, k as int),
            forall|j: int| 0 <= j < r@.len() ==> i < #[trigger] r@[j] < doc.len(),
        decreases k,
    {
        k = k - 1;
        let c = row[k];
        proof {
            assert(i < doc.children@[i as int]@[k as int] < doc.len());
        }
        if doc.is_element[c] {
            let mut next: Vec<usize> = Vec::new();
            next.push(c);
            let mut j: usize = 0;
            while j < r.len()
                invariant
                    j <= r@.len(),
                    next@ == seq![c] + r@.subrange(0, j as int),
                decreases r.len() - j,
            {
                next.push(r[j]);
                j = j + 1;
                proof {
                    assert(next@ =~= seq![c] + r@.subrange(0, j as int));
                }
            }
            proof {
                assert(r@.subrange(0, r@.len() as int) =~= r@);
                assert forall|j: int| 0 <= j < next@.len() implies i < #[trigger] next@[j] < doc.len() by {
                    if j > 0 {
                        assert(next@[j] == r@[j - 1]);
                    }
                }
            }
            r = next;
        }
    }
    r
}

/// The element children of `i` named `name`.
pub fn named_children(doc: &XmlDoc, i: usize, name: &str) -> (r: Vec<usize>)
    requires
        doc.wf(),
        i < doc.len(),
    ensures
        r@ == doc.named(i as int, name@),
        forall|j: int| 0 <= j < r@.len() ==> i < #[trigger] r@[j] < doc.len(),
{
    let row = &doc.children[i];
    let n = row.len();
    let mut r: Vec<usize> = Vec::new();
    let mut k: usize = n;
    while k > 0
        invariant
            k <= n,
            n == doc.children@[i as int]@.len(),
            doc.wf(),
            i < doc.len(),
            *row == doc.children@[i as int],
            r@ == doc.named_from(i as int, name@, k as int),
            forall|j: int| 0 <= j < r@.len() ==> i < #[trigger] r@[j] < doc.len(),
        decreases k,
    {
        k = k - 1;
        let c = row[k];
        proof {
            assert(i < doc.children@[i as int]@[k as int] < doc.len());
        }
        if doc.is_element[c] && chars_eq(&doc.names[c], name) {
            let mut next: Vec<usize> = Vec::new();
            next.push(c);
            let mut j: usize = 0;
            while j < r.len()
                invariant
                    j <= r@.len(),
                    next@ == seq![c] + r@.subrange(0, j as int),
                decreases r.len() - j,
            {
                next.push(r[j]);
                j = j + 1;
                proof {
                    assert(next@ =~= seq![c] + r@.subrange(0, j as int));
                }
            }
            proof {
                assert(r@.subrange(0, r@.len() as int) =~= r@);
                assert forall|j: int| 0 <= j < next@.len() implies i < #[trigger] next@[j] < doc.len() by {
                    if j > 0 {
                        assert(next@[j] == r@[j - 1]);
                    }
                }
            }
            r = next;
        }
    }
    r
}

/// First element child of `i` named `name`.
pub fn child_named(doc: &XmlDoc, i: usize, name: &str) -> (r: Option<usize>)
    requires
        doc.wf(),
        i < doc.len(),
    ensures
        r == doc.child_named(i as int, name@),
        r matches Some(c) ==> i < c < doc.len(),
{
    let all = named_children(doc, i, name);
    if all.len() > 0 {
        Some(all[0])
    } else {
        None
    }
}

/// The text of node `i`.
pub fn text_of(doc: &XmlDoc, i: usize) -> (r: Option<Vec<char>>)
    requires
        doc.wf(),
        i < doc.len(),
    ensures
        match doc.text(i as int) {
            Some(t) => r matches Some(v) && v@ == t,
            None => r is None,
        },
{
    match &doc.texts[i] {
        Some(t) => Some(copy_chars(t)),
        None => None,
    }
}

/// Trimmed text of the first element child of `i` named `name`.
pub fn child_text(doc: &XmlDoc, i: usize, name: &str) -> (r: Option<Vec<char>>)
    requires
        doc.wf(),
        i < doc.len(),
    ensures
        match doc.child_text(i as int, name@) {
            Some(t) => r matches Some(v) && v@ == t,
            None => r is None,
        },
{
    match child_named(doc, i, name) {
        Some(c) => match text_of(doc, c) {
            Some(t) => Some(trimmed(&t)),
            None => None,
        },
        None => None,
    }
}

/// Whether some element child of `i` is named `name`.
pub fn has_child(doc: &XmlDoc, i: usize, name: &str) -> (r: bool)
    requires
        doc.wf(),
        i < doc.len(),
    ensures
        r == doc.has_child(i as int, name@),
{
    named_children(doc, i, name).len() > 0
}

/// Value of the first attribute of `i` named `name`.
pub fn attribute(doc: &XmlDoc, i: usize, name: &str) -> (r: Option<Vec<char>>)
    requires
        doc.wf(),
        i < doc.len(),
    ensures
        match doc.attribute(i as int, name@) {
            Some(t) => r matches Some(v) && v@ == t,
            None => r is None,
        },
{
    let attrs = &doc.attributes[i];
    let mut k: usize = 0;
    while k < attrs.len()
        invariant
            k <= attrs@.len(),
            *attrs == doc.attributes@[i as int],
            doc.attribute(i as int, name@) == first_attribute(attrs@, name@, k as int),
        decreases attrs.len() - k,
    {
        if chars_eq(&attrs[k].0, name) {
            return Some(copy_chars(&attrs[k].1));
        }
        k = k + 1;
    }
    None
}

/// Whether the first attribute of `i` named `name` has the value `value`.
pub fn attribute_is(doc: &XmlDoc, i: usize, name: &str, value: &str) -> (r: bool)
    requires
        doc.wf(),
        i < doc.len(),
    ensures
        r == (doc.attribute(i as int, name@) == Some(value@)),
{
    match attribute(doc, i, name) {
        Some(v) => chars_eq(&v, value),
        None => false,
    }
}

impl XmlDoc {
    /// `i` followed by its descendants, in document order.
    pub open spec fn preorder(&self, i: int) -> Seq<usize>
        decreases self.len() - i, self.children@[i]@.len() + 1,
    {
        if 0 <= i < self.len() {
            seq![i as usize] + self.preorder_children(i, self.children@[i]@.len() as int)
        } else {
            Seq::empty()
        }
    }

    /// The subtrees of the first `k` children of `i`, concatenated.
    pub open spec fn preorder_children(&self, i: int, k: int) -> Seq<usize>
        decreases self.len() - i, k,
    {
        if 0 <= i < self.len() && 0 < k <= self.children@[i]@.len() {
            let c = self.children@[i]@[k - 1] as int;
            self.preorder_children(i, k - 1) + (if i < c < self.len() { self.preorder(c) } else { Seq::empty() })
        } else {
            Seq::empty()
        }
    }
}

/// Appends `i` and its descendants, in document order.
pub fn collect_preorder(doc: &XmlDoc, i: usize, out: &mut Vec<usize>)
    requires
        doc.wf(),
        i < doc.len(),
    ensures
        final(out)@ == old(out)@ + doc.preorder(i as int),
        forall|j: int| 0 <= j < final(out)@.len() - old(out)@.len() ==> i <= #[trigger] final(out)@[old(out)@.len() + j] < doc.len(),
    decreases doc.len() - i,
{
    let ghost start = out@;
    out.push(i);
    let row = &doc.children[i];
    let mut k: usize = 0;
    while k < row.len()
        invariant
            doc.wf(),
            i < doc.len(),
            *row == doc.children@[i as int],
            k <= row@.len(),
            out@ == start + seq![i] + doc.preorder_children(i as int, k as int),
            forall|j: int| 0 <= j < out@.len() - start.len() ==> i <= #[trigger] out@[start.len() + j] < doc.len(),
        decreases row.len() - k,
    {
        let c = row[k];
        proof {
            assert(i < doc.children@[i as int]@[k as int] < doc.len());
        }
        let ghost before = out@;
        collect_preorder(doc, c, out);
        proof {
            assert(out@ =~= start + seq![i] + doc.preorder_children(i as int, (k + 1) as int));
            assert forall|j: int| 0 <= j < out@.len() - start.len() implies i <= #[trigger] out@[start.len() + j] < doc.len() by {
                if start.len() + j < before.len() {
                    assert(out@[start.len() + j] == before[start.len() + j]);
                } else {
                    let jj = start.len() + j - before.len();
                    assert(out@[before.len() + jj] == out@[start.len() + j]);
                }
            }
        }
        k = k + 1;
    }
    proof {
        assert(out@ =~= start + doc.preorder(i as int));
    }
}

/// The nodes among the first `k` whose parent is `p`, in order.
pub open spec fn children_upto(ns: Seq<XmlNodeV>, p: int, k: int) -> Seq<usize>
    decreases k,
{
    if k <= 0 || k > ns.len() {
        Seq::empty()
    } else {
        let rest = children_upto(ns, p, k - 1);
        if ns[k - 1].parent == Some(p as usize) {
            rest.push((k - 1) as usize)
        } else {
            rest
        }
    }
}

/// The first element among the first `k` nodes whose parent is the
/// document node: the root element.
pub open spec fn root_upto(ns: Seq<XmlNodeV>, k: int) -> Option<usize>
    decreases k,
{
    if k <= 0 || k > ns.len() {
        None
    } else {
        match root_upto(ns, k - 1) {
            Some(r) => Some(r),
            None => if ns[k - 1].element && ns[k - 1].parent == Some(0usize) {
                Some((k - 1) as usize)
            } else {
                None
            },
        }
    }
}

/// Every node's parent comes before it.
pub open spec fn parents_before(ns: Seq<XmlNodeV>) -> bool {
    forall|i: int| 0 <= i < ns.len() ==> (#[trigger] ns[i].parent matches Some(p) ==> p < i)
}

/// Why a node list makes no document arena, if it does not.
pub open spec fn arena_error(ns: Seq<XmlNodeV>) -> Option<Seq<char>> {
    if ns.len() >= usize::MAX {
        Some("document is too large"@)
    } else if !parents_before(ns) {
        Some("malformed document order"@)
    } else if root_upto(ns, ns.len() as int) is None {
        Some("document has no root element"@)
    } else {
        None
    }
}

/// Node `i` of the arena is node `i` of the list, with its children.
pub open spec fn node_matches(doc: XmlDoc, ns: Seq<XmlNodeV>, i: int) -> bool {
    &&& doc.is_element@[i] == ns[i].element
    &&& doc.names@[i]@ == ns[i].name
    &&& pairs_view(doc.attributes@[i]@) == ns[i].attributes
    &&& doc.text(i) == ns[i].text
    &&& doc.children@[i]@ == children_upto(ns, i, ns.len() as int)
}

/// The arena holds the node list, node for node, with its root element.
pub open spec fn arena_of(ns: Seq<XmlNodeV>, doc: XmlDoc) -> bool {
    &&& doc.wf()
    &&& doc.len() == ns.len()
    &&& forall|i: int| 0 <= i < ns.len() ==> #[trigger] node_matches(doc, ns, i)
    &&& root_upto(ns, ns.len() as int) == Some(doc.root)
}

/// What parsing `text` gives: the parser's error, the reason its nodes make
/// no arena, or the arena of its nodes.
pub open spec fn parsed_ok(text: Seq<char>, allow_dtd: bool, r: Result<XmlDoc, String>) -> bool {
    match xml_parsed(text, allow_dtd) {
        Err(e) => r matches Err(m) && m@ == e,
        Ok(ns) => match arena_error(ns) {
            Some(e) => r matches Err(m) && m@ == e,
            None => r matches Ok(doc) && arena_of(ns, doc),
        },
    }
}

proof fn lemma_children_none(ns: Seq<XmlNodeV>, p: int, k: int)
    requires
        0 <= k <= ns.len(),
        forall|q: int| 0 <= q < k ==> ns[q].parent != Some(p as usize),
    ensures
        children_upto(ns, p, k) == Seq::<usize>::empty(),
    decreases k,
{
    if k > 0 {
        lemma_children_none(ns, p, k - 1);
    }
}

/// Copies an attribute list.
fn copy_pairs(v: &Vec<(Vec<char>, Vec<char>)>) -> (r: Vec<(Vec<char>, Vec<char>)>)
    ensures
        pairs_view(r@) == pairs_view(v@),
{
    let mut r: Vec<(Vec<char>, Vec<char>)> = Vec::new();
    let mut k: usize = 0;
    while k < v.len()
        invariant
            k <= v@.len(),
            r@.len() == k,
            forall|j: int| 0 <= j < k ==> (#[trigger] r@[j]).0@ == v@[j].0@ && r@[j].1@ == v@[j].1@,
        decreases v.len() - k,
    {
        r.push((copy_chars(&v[k].0), copy_chars(&v[k].1)));
        k = k + 1;
    }
    proof {
        assert(pairs_view(r@) =~= pairs_view(v@));
    }
    r
}

/// Parses XML text, DTDs allowed, into a document arena (see
/// [`parse_xml_with`]).
pub fn parse_xml(text: &str) -> (r: Result<XmlDoc, String>)
    ensures
        parsed_ok(text@, true, r),
{
    parse_xml_with(text, true)
}

/// Parses XML text into a document arena; a document with a DTD is
/// refused unless `allow_dtd`. The arena holds the nodes `roxmltree`
/// reports, in document order, and the root element.
#[verifier::spinoff_prover]
pub fn parse_xml_with(text: &str, allow_dtd: bool) -> (r: Result<XmlDoc, String>)
    ensures
        parsed_ok(text@, allow_dtd, r),
{
    let nodes = match xml_parse(text, allow_dtd) {
        Ok(v) => v,
        Err(e) => { return Err(e); },
    };
    let ghost ns = nodes_view(nodes@);
    let n = nodes.len();
    if n == usize::MAX {
        return Err(crate::text::string_of(&chars_of("document is too large")));
    }
    let mut is_element: Vec<bool> = Vec::new();
    let mut names: Vec<Vec<char>> = Vec::new();
    let mut attributes: Vec<Vec<(Vec<char>, Vec<char>)>> = Vec::new();
    let mut texts: Vec<Option<Vec<char>>> = Vec::new();
    let mut children: Vec<Vec<usize>> = Vec::new();
    let mut root: Option<usize> = None;
    let mut i: usize = 0;
    while i < n
        invariant
            n == nodes@.len(),
            n < usize::MAX,
            ns == nodes_view(nodes@),
            xml_parsed(text@, allow_dtd) == Ok::<Seq<XmlNodeV>, Seq<char>>(ns),
            i <= n,
            is_element@.len() == i,
            names@.len() == i,
            attributes@.len() == i,
            texts@.len() == i,
            children@.len() == i,
            root == root_upto(ns, i as int),
            forall|q: int| 0 <= q < i ==> (#[trigger] ns[q].parent matches Some(p) ==> p < q),
            forall|q: int| #![trigger is_element@[q]] 0 <= q < i ==> is_element@[q] == ns[q].element
                && names@[q]@ == ns[q].name && pairs_view(attributes@[q]@) == ns[q].attributes
                && opt_chars(texts@[q]) == ns[q].text,
            forall|q: int| 0 <= q < i ==> (#[trigger] children@[q])@ == children_upto(ns, q, i as int),
            forall|p: int, j: int|
                0 <= p < i && 0 <= j < children@[p]@.len() ==> p < (#[trigger] children@[p]@[j]) < i,
        decreases n - i,
    {
        let node = &nodes[i];
        proof {
            assert(ns[i as int] == nodes@[i as int]@);
        }
        let parent = node.parent;
        match parent {
            Some(pid) => {
                if pid >= i {
                    proof {
                        assert(!parents_before(ns)) by {
                            assert(ns[i as int].parent == Some(pid));
                        }
                    }
                    return Err(crate::text::string_of(&chars_of("malformed document order")));
                }
            },
            None => {},
        }
        let ghost e0 = is_element@;
        let ghost n0 = names@;
        let ghost a0 = attributes@;
        let ghost t0 = texts@;
        is_element.push(node.element);
        names.push(copy_chars(&node.name));
        attributes.push(copy_pairs(&node.attributes));
        match &node.text {
            Some(t) => texts.push(Some(copy_chars(t))),
            None => texts.push(None),
        }
        proof {
            assert forall|q: int| #![trigger is_element@[q]] 0 <= q < i + 1 implies is_element@[q] == ns[q].element
                && names@[q]@ == ns[q].name && pairs_view(attributes@[q]@) == ns[q].attributes
                && opt_chars(texts@[q]) == ns[q].text by {
                if q < i {
                    assert(is_element@[q] == e0[q] && names@[q] == n0[q] && attributes@[q] == a0[q] && texts@[q] == t0[q]);
                    assert(e0[q] == ns[q].element);
                } else {
                    assert(ns[q] == nodes@[q]@);
                }
            }
        }
        let ghost before = children@;
        children.push(Vec::new());
        proof {
            assert forall|q: int| 0 <= q < i implies ns[q].parent != Some(i) by {
                if ns[q].parent == Some(i) {
                    assert(ns[q].parent matches Some(p) ==> p < q);
                }
            }
            lemma_children_none(ns, i as int, i as int);
            assert(children@[i as int]@ =~= Seq::<usize>::empty());
        }
        match parent {
            Some(pid) => {
                let ghost mid = children@;
                crate::topology::push_index(&mut children, pid, i);
                proof {
                    assert forall|q: int| 0 <= q < i + 1 implies (#[trigger] children@[q])@ == children_upto(ns, q, i + 1) by {
                        assert(crate::schedule::vec_views(children@)[q] == children@[q]@);
                        assert(crate::schedule::vec_views(mid)[q] == mid[q]@);
                        if q < i {
                            assert(mid[q] == before[q]);
                        }
                    }
                    assert forall|p: int, j: int|
                        0 <= p < i + 1 && 0 <= j < children@[p]@.len() implies p < (#[trigger] children@[p]@[j]) < i + 1 by {
                        assert(crate::schedule::vec_views(children@)[p] == children@[p]@);
                        assert(crate::schedule::vec_views(mid)[p] == mid[p]@);
                        if p < i {
                            assert(mid[p] == before[p]);
                        }
                        if p == pid && j < mid[p]@.len() {
                            assert(children@[p]@[j] == mid[p]@[j]);
                        }
                    }
                }
            },
            None => {
                proof {
                    assert forall|q: int| 0 <= q < i + 1 implies (#[trigger] children@[q])@ == children_upto(ns, q, i + 1) by {
                        if q < i {
                            assert(children@[q] == before[q]);
                        }
                    }
                    assert forall|p: int, j: int|
                        0 <= p < i + 1 && 0 <= j < children@[p]@.len() implies p < (#[trigger] children@[p]@[j]) < i + 1 by {
                        if p < i {
                            assert(children@[p] == before[p]);
                        }
                    }
                }
            },
        }
        let first_root = match parent {
            Some(p) => p == 0 && node.element && root.is_none(),
            None => false,
        };
        if first_root {
            root = Some(i);
        }
        proof {
            assert(ns[i as int].parent matches Some(p) ==> p < i);
        }
        i = i + 1;
    }
    let root = match root {
        Some(r) => r,
        None => { return Err(crate::text::string_of(&chars_of("document has no root element"))); },
    };
    let doc = XmlDoc { is_element, names, attributes, texts, children, root };
    proof {
        assert(parents_before(ns));
        assert(root < n) by {
            lemma_root_upto(ns, n as int);
        }
        assert forall|q: int| 0 <= q < n implies #[trigger] node_matches(doc, ns, q) by {
            assert(is_element@[q] == ns[q].element);
        }
    }
    Ok(doc)
}

proof fn lemma_root_upto(ns: Seq<XmlNodeV>, k: int)
    requires
        0 <= k <= ns.len(),
    ensures
        root_upto(ns, k) matches Some(r) ==> r < k,
    decreases k,
{
    if k > 0 {
        lemma_root_upto(ns, k - 1);
    }
}

} // verus!
