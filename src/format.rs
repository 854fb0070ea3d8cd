use vstd::prelude::*;
use crate::ast::{AttributeModel, AttributeSet, Node, NodeModel, RsxCall, literal_text, nodes_model};
use crate::ast::lemma_element_node_model;

verus! {

broadcast use vstd::seq::group_seq_axioms;

pub open spec fn tabs(d: nat) -> Seq<char>
    decreases d,
{
    if d == 0 { Seq::empty() } else { tabs((d - 1) as nat) + seq!['\t'] }
}

/// One attribute line of the normalized form: `name: "value",`.
pub open spec fn format_attribute(a: AttributeModel, d: nat) -> Seq<char> {
    tabs(d) + a.name + seq![':', ' '] + literal_text(a.value) + seq![',', '\n']
}

/// The attribute lines of the first `k` attributes.
pub open spec fn format_attributes(attrs: Seq<AttributeModel>, d: nat, k: int) -> Seq<char>
    decreases k,
{
    if k <= 0 { Seq::empty() } else { format_attributes(attrs, d, k - 1) + format_attribute(attrs[k - 1], d) }
}

/// The normalized form of a node at depth `d`: one line per attribute and per text
/// child, each indented by one tab per level, a trailing comma after each attribute.
pub open spec fn format_node(n: NodeModel, d: nat) -> Seq<char>
    decreases n, 0int,
{
    match n {
        NodeModel::Text(v) => tabs(d) + literal_text(v) + seq!['\n'],
        NodeModel::Element(e) => tabs(d) + e.tag + seq![' ', '{', '\n']
            + format_attributes(e.attributes, d + 1, e.attributes.len() as int)
            + format_nodes(e.children, d + 1, e.children.len() as int)
            + tabs(d) + seq!['}', '\n'],
    }
}

/// The normalized forms of the first `k` nodes, one after another.
pub open spec fn format_nodes(ns: Seq<NodeModel>, d: nat, k: int) -> Seq<char>
    decreases ns, k,
{
    if k <= 0 || k > ns.len() {
        Seq::empty()
    } else {
        format_nodes(ns, d, k - 1) + format_node(ns[k - 1], d)
    }
}

/// The normalized form of a call.
pub open spec fn format_call(nodes: Seq<NodeModel>) -> Seq<char> {
    seq!['r', 's', 'x', '!', ' ', '{', '\n'] + format_nodes(nodes, 1, nodes.len() as int) + seq!['}']
}

fn push_attribute(out: &mut String, a: &AttributeSet, indent: &String, d: Ghost<nat>)
    requires
        indent@ == tabs(d@),
    ensures
        final(out)@ == old(out)@ + format_attribute(a@, d@),
{
    out.append(indent.as_str());
    out.append(a.name.as_str());
    out.append(": ");
    let lit = a.value.to_literal();
    out.append(lit.as_str());
    out.append(",\n");
    proof {
        reveal_strlit(": ");
        reveal_strlit(",\n");
        assert(": "@ =~= seq![':', ' ']);
        assert(",\n"@ =~= seq![',', '\n']);
    }
}

/// `indent` with one more tab.
fn deeper(indent: &String, d: Ghost<nat>) -> (r: String)
    requires
        indent@ == tabs(d@),
    ensures
        r@ == tabs(d@ + 1),
{
    let mut r = indent.clone();
    r.append("\t");
    proof {
        reveal_strlit("\t");
        assert(tabs(d@ + 1) == tabs(d@) + seq!['\t']);
    }
    r
}

fn push_node(out: &mut String, n: &Node, indent: &String, d: Ghost<nat>)
    requires
        indent@ == tabs(d@),
    ensures
        final(out)@ == old(out)@ + format_node(n@, d@),
    decreases n,
{
    match n {
        Node::Text(v) => {
            out.append(indent.as_str());
            let lit = v.to_literal();
            out.append(lit.as_str());
            out.append("\n");
            proof {
                reveal_strlit("\n");
                assert("\n"@ =~= seq!['\n']);
            }
        },
        Node::Element(e) => {
            proof {
                lemma_element_node_model(*e);
            }
            out.append(indent.as_str());
            out.append(e.tag.as_str());
            out.append(" {\n");
            proof {
                reveal_strlit(" {\n");
                assert(" {\n"@ =~= seq![' ', '{', '\n']);
            }
            let inner = deeper(indent, d);
            let ghost head = out@;
            let ghost am = e@.attributes;
            let mut i: usize = 0;
            while i < e.attributes.len()
                invariant
                    inner@ == tabs(d@ + 1),
                    i <= e.attributes@.len(),
                    am == e@.attributes,
                    out@ == head + format_attributes(am, d@ + 1, i as int),
                decreases e.attributes@.len() - i,
            {
                push_attribute(out, &e.attributes[i], &inner, Ghost(d@ + 1));
                i = i + 1;
            }
            let ghost mid = out@;
            let ghost cm = e@.children;
            let mut j: usize = 0;
            while j < e.children.len()
                invariant
                    *n == Node::Element(*e),
                    inner@ == tabs(d@ + 1),
                    j <= e.children@.len(),
                    cm == nodes_model(e.children@),
                    out@ == mid + format_nodes(cm, d@ + 1, j as int),
                decreases e.children@.len() - j,
            {
                proof {
                    assert(decreases_to!(*n => (*n)->Element_0));
                    assert(decreases_to!(*e => e.children));
                    assert(decreases_to!(e.children => e.children[j as int]));
                }
                push_node(out, &e.children[j], &inner, Ghost(d@ + 1));
                j = j + 1;
            }
            out.append(indent.as_str());
            out.append("}\n");
            proof {
                reveal_strlit("}\n");
                assert("}\n"@ =~= seq!['}', '\n']);
                assert(am.len() == e.attributes@.len());
                assert(cm.len() == e.children@.len());
            }
        },
    }
}

impl RsxCall {
    /// The normalized form of the call (see `format_call`).
    pub fn to_normalized(&self) -> (r: String)
        ensures
            r@ == format_call(self@),
    {
        proof {
            reveal_strlit("rsx! {\n");
        }
        let mut out = String::from_str("rsx! {\n");
        assert(out@ =~= seq!['r', 's', 'x', '!', ' ', '{', '\n']);
        let ghost head = out@;
        let indent = String::from_str("\t");
        proof {
            reveal_strlit("\t");
            assert(tabs(1) == tabs(0) + seq!['\t']);
        }
        let mut j: usize = 0;
        while j < self.0.len()
            invariant
                indent@ == tabs(1),
                j <= self.0@.len(),
                out@ == head + format_nodes(self@, 1, j as int),
            decreases self.0@.len() - j,
        {
            push_node(&mut out, &self.0[j], &indent, Ghost(1));
            j = j + 1;
        }
        out.append("}");
        proof {
            reveal_strlit("}");
            assert("}"@ =~= seq!['}']);
        }
        out
    }
}

} // verus!
