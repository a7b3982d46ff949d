//! The AST the parser produces: elements, text runs and interpolations.

use vstd::prelude::*;
use crate::span_range::SpanRange;
use crate::span_range::SpanV;

verus! {

/// Mathematical value of an attribute.
#[verifier::ext_equal]
pub ghost struct AttrV {
    pub name: Seq<char>,
    pub value: Seq<char>,
    pub span: SpanV,
}

/// Mathematical value of an AST node.
#[verifier::ext_equal]
pub ghost enum NodeV {
    Element { name: Seq<char>, attrs: Seq<AttrV>, children: Seq<NodeV>, span: SpanV },
    Text { value: Seq<char>, span: SpanV },
    Interp { expr: Seq<char>, span: SpanV },
}

/// AST node of the markup.
#[derive(Debug)]
pub enum Node {
    /// Element: `<name attr="...">children...</name>` or `<name .../>`
    Element(Element),
    /// Text node (after normalizing escapes `{{` to `{` and `}}` to `}`)
    Text(Text),
    /// Interpolation of an expression between curly braces: `{ expr }`
    I11n(Interpolation),
}

#[derive(Debug)]
pub struct Element {
    pub name: String,
    pub attrs: Vec<Attr>,
    pub children: Vec<Node>,
    pub span: SpanRange,
}

/// One `name="value"` pair from a tag head. The span covers the whole
/// attribute buffer of the owning tag, not the single attribute.
#[derive(Debug, Clone)]
pub struct Attr {
    pub name: String,
    pub value: String,
    pub span: SpanRange,
}

#[derive(Debug, Clone)]
pub struct Text {
    pub value: String,
    pub span: SpanRange,
}

#[derive(Debug, Clone)]
pub struct Interpolation {
    /// Raw expression fragment, unparsed and unvalidated.
    pub expr_src: String,
    pub span: SpanRange,
}

impl View for Attr {
    type V = AttrV;

    open spec fn view(&self) -> AttrV {
        AttrV { name: self.name@, value: self.value@, span: self.span@ }
    }
}

pub open spec fn attrs_view(s: Seq<Attr>) -> Seq<AttrV> {
    s.map(|i: int, a: Attr| a@)
}

pub open spec fn node_view(n: Node) -> NodeV
    decreases n,
{
    match n {
        Node::Element(e) => NodeV::Element {
            name: e.name@,
            attrs: attrs_view(e.attrs@),
            children: nodes_view(e.children@),
            span: e.span@,
        },
        Node::Text(t) => NodeV::Text { value: t.value@, span: t.span@ },
        Node::I11n(i) => NodeV::Interp { expr: i.expr_src@, span: i.span@ },
    }
}

pub open spec fn nodes_view(s: Seq<Node>) -> Seq<NodeV>
    decreases s,
{
    if s.len() == 0 {
        Seq::empty()
    } else {
        seq![node_view(s[0])] + nodes_view(s.drop_first())
    }
}

pub proof fn lemma_nodes_view_push(s: Seq<Node>, n: Node)
    ensures
        nodes_view(s.push(n)) == nodes_view(s) + seq![node_view(n)],
    decreases s.len(),
{
    if s.len() == 0 {
        assert(s.push(n).drop_first() =~= Seq::<Node>::empty());
        assert(s.push(n)[0] == n);
        assert(nodes_view(s.push(n)) == seq![node_view(n)] + nodes_view(Seq::<Node>::empty()));
        assert(nodes_view(s.push(n)) =~= nodes_view(s) + seq![node_view(n)]);
    } else {
        lemma_nodes_view_push(s.drop_first(), n);
        assert(s.push(n).drop_first() =~= s.drop_first().push(n));
        assert(s.push(n)[0] == s[0]);
        assert(nodes_view(s.push(n)) == seq![node_view(s[0])] + nodes_view(s.drop_first().push(n)));
        assert(nodes_view(s) == seq![node_view(s[0])] + nodes_view(s.drop_first()));
        assert(seq![node_view(s[0])] + (nodes_view(s.drop_first()) + seq![node_view(n)]) =~= (seq![
            node_view(s[0]),
        ] + nodes_view(s.drop_first())) + seq![node_view(n)]);
        assert(nodes_view(s.push(n)) =~= nodes_view(s) + seq![node_view(n)]);
    }
}

impl View for Node {
    type V = NodeV;

    open spec fn view(&self) -> NodeV {
        node_view(*self)
    }
}

} // verus!
