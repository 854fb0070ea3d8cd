use vstd::prelude::*;
use crate::ast::{AttributeModel, AttributeSet, Node, NodeModel, RsxCall, nodes_model, render_fragments};
use crate::ast::lemma_element_node_model;
use crate::lexer::{LexicalError, kinds, lex};
use crate::parser::{RsxError, is_parse_error_at, parse_call, parse_rsx};
use crate::schema::{AttributeEntry, Schema};
use crate::text::chars_of;

verus! {

/// A character as it stands in markup text: `&`, `<`, `>`, `"` and `'` become entities.
pub open spec fn escape_html_char(c: char) -> Seq<char> {
    if c == '&' {
        seq!['&', 'a', 'm', 'p', ';']
    } else if c == '<' {
        seq!['&', 'l', 't', ';']
    } else if c == '>' {
        seq!['&', 'g', 't', ';']
    } else if c == '"' {
        seq!['&', 'q', 'u', 'o', 't', ';']
    } else if c == '\'' {
        seq!['&', '#', '3', '9', ';']
    } else {
        seq![c]
    }
}

pub open spec fn escape_html(t: Seq<char>) -> Seq<char>
    decreases t.len(),
{
    if t.len() == 0 {
        Seq::empty()
    } else {
        escape_html(t.drop_last()) + escape_html_char(t.last())
    }
}

/// The name an attribute entry emits: its rename if it has one, else its output name,
/// after `namespace:` if it has a namespace.
pub open spec fn entry_name(e: AttributeEntry) -> Seq<char> {
    let base = match e.rename_to {
        Some(r) => r@,
        None => e.output_name@,
    };
    match e.namespace {
        Some(ns) => ns@ + seq![':'] + base,
        None => base,
    }
}

/// An attribute in markup: ` name="value"` under the entry it resolves to on `tag`, or
/// nothing where it resolves to none.
pub open spec fn markup_attribute(schema: Schema, tag: Seq<char>, a: AttributeModel) -> Seq<char> {
    match schema.resolution(a.name, tag) {
        Some(i) => seq![' '] + entry_name(schema.attributes@[i]) + seq!['=', '"']
            + escape_html(render_fragments(a.value.fragments)) + seq!['"'],
        None => Seq::empty(),
    }
}

pub open spec fn markup_attributes(schema: Schema, tag: Seq<char>, attrs: Seq<AttributeModel>, k: int) -> Seq<char>
    decreases k,
{
    if k <= 0 {
        Seq::empty()
    } else {
        markup_attributes(schema, tag, attrs, k - 1) + markup_attribute(schema, tag, attrs[k - 1])
    }
}

/// A node in markup: a text node is its escaped rendered text; an element is its
/// opening tag with its resolved attributes, its children, and its closing tag.
pub open spec fn markup_node(schema: Schema, n: NodeModel) -> Seq<char>
    decreases n, 0int,
{
    match n {
        NodeModel::Text(v) => escape_html(render_fragments(v.fragments)),
        NodeModel::Element(e) => seq!['<'] + e.tag + markup_attributes(schema, e.tag, e.attributes, e.attributes.len() as int)
            + seq!['>'] + markup_nodes(schema, e.children, e.children.len() as int)
            + seq!['<', '/'] + e.tag + seq!['>'],
    }
}

pub open spec fn markup_nodes(schema: Schema, ns: Seq<NodeModel>, k: int) -> Seq<char>
    decreases ns, k,
{
    if k <= 0 || k > ns.len() {
        Seq::empty()
    } else {
        markup_nodes(schema, ns, k - 1) + markup_node(schema, ns[k - 1])
    }
}

pub open spec fn markup(schema: Schema, nodes: Seq<NodeModel>) -> Seq<char> {
    markup_nodes(schema, nodes, nodes.len() as int)
}

pub open spec fn is_markup_special(c: char) -> bool {
    c == '&' || c == '<' || c == '>' || c == '"' || c == '\''
}

fn entity(c: char) -> (r: &'static str)
    requires
        is_markup_special(c),
    ensures
        r@ == escape_html_char(c),
{
    proof {
        reveal_strlit("&amp;");
        reveal_strlit("&lt;");
        reveal_strlit("&gt;");
        reveal_strlit("&quot;");
        reveal_strlit("&#39;");
    }
    if c == '&' {
        "&amp;"
    } else if c == '<' {
        "&lt;"
    } else if c == '>' {
        "&gt;"
    } else if c == '"' {
        "&quot;"
    } else {
        "&#39;"
    }
}

/// Appends `t` with the markup characters replaced by entities.
fn push_escaped(out: &mut String, t: &String)
    ensures
        final(out)@ == old(out)@ + escape_html(t@),
{
    let s = t.as_str();
    let cs = chars_of(s);
    let n = cs.len();
    let mut start: usize = 0;
    let mut i: usize = 0;
    while i < n
        invariant
            cs@ == t@,
            s@ == t@,
            n == t@.len(),
            start <= i <= n,
            out@ + s@.subrange(start as int, i as int) == old(out)@ + escape_html(t@.take(i as int)),
        decreases n - i,
    {
        let c = cs[i];
        assert(t@.take(i + 1).drop_last() == t@.take(i as int));
        assert(t@.take(i + 1).last() == c);
        assert(escape_html(t@.take(i + 1)) == escape_html(t@.take(i as int)) + escape_html_char(c));
        if c == '&' || c == '<' || c == '>' || c == '"' || c == '\'' {
            let ghost before = out@ + s@.subrange(start as int, i as int);
            out.append(s.substring_char(start, i));
            out.append(entity(c));
            assert(out@ == before + escape_html_char(c));
            i = i + 1;
            start = i;
            assert(out@ + s@.subrange(start as int, i as int) == out@);
        } else {
            assert(s@.subrange(start as int, i + 1) == s@.subrange(start as int, i as int) + seq![c]);
            assert(out@ + s@.subrange(start as int, i + 1) == (out@ + s@.subrange(start as int, i as int)) + seq![c]);
            i = i + 1;
        }
    }
    out.append(s.substring_char(start, n));
    assert(t@.take(n as int) == t@);
}

fn push_str(out: &mut String, s: &str)
    ensures
        final(out)@ == old(out)@ + s@,
{
    out.append(s);
}

fn push_entry_name(out: &mut String, e: &AttributeEntry)
    ensures
        final(out)@ == old(out)@ + entry_name(*e),
{
    match &e.namespace {
        Some(ns) => {
            out.append(ns.as_str());
            out.append(":");
            proof {
                reveal_strlit(":");
                assert(":"@ =~= seq![':']);
            }
        },
        None => {},
    }
    let ghost mid = out@;
    match &e.rename_to {
        Some(r) => out.append(r.as_str()),
        None => out.append(e.output_name.as_str()),
    }
}

fn push_attribute(out: &mut String, schema: &Schema, tag: &String, a: &AttributeSet)
    ensures
        final(out)@ == old(out)@ + markup_attribute(*schema, tag@, a@),
{
    match schema.resolve(&a.name, tag) {
        None => {
            assert(old(out)@ + Seq::<char>::empty() == old(out)@);
        },
        Some(i) => {
            proof {
                reveal_strlit(" ");
                reveal_strlit("=\"");
                reveal_strlit("\"");
                assert(" "@ =~= seq![' ']);
                assert("=\""@ =~= seq!['=', '"']);
                assert("\""@ =~= seq!['"']);
            }
            out.append(" ");
            push_entry_name(out, &schema.attributes[i]);
            out.append("=\"");
            let text = a.value.to_string();
            push_escaped(out, &text);
            out.append("\"");
            assert(out@ =~= old(out)@ + (seq![' '] + entry_name(schema.attributes@[i as int]) + seq!['=', '"']
                + escape_html(render_fragments(a@.value.fragments)) + seq!['"']));
        },
    }
}

#[verifier::rlimit(50)]
fn push_markup(out: &mut String, schema: &Schema, n: &Node)
    ensures
        final(out)@ == old(out)@ + markup_node(*schema, n@),
    decreases n,
{
    match n {
        Node::Text(v) => {
            let text = v.to_string();
            push_escaped(out, &text);
        },
        Node::Element(e) => {
            proof {
                lemma_element_node_model(*e);
                reveal_strlit("<");
                reveal_strlit(">");
                reveal_strlit("</");
                assert("<"@ =~= seq!['<']);
                assert(">"@ =~= seq!['>']);
                assert("</"@ =~= seq!['<', '/']);
            }
            out.append("<");
            out.append(e.tag.as_str());
            let ghost head = out@;
            let ghost am = e@.attributes;
            let mut i: usize = 0;
            while i < e.attributes.len()
                invariant
                    i <= e.attributes@.len(),
                    am == e@.attributes,
                    out@ == head + markup_attributes(*schema, e.tag@, am, i as int),
                decreases e.attributes@.len() - i,
            {
                push_attribute(out, schema, &e.tag, &e.attributes[i]);
                i = i + 1;
            }
            out.append(">");
            let ghost mid = out@;
            let ghost cm = e@.children;
            let mut j: usize = 0;
            while j < e.children.len()
                invariant
                    *n == Node::Element(*e),
                    j <= e.children@.len(),
                    cm == nodes_model(e.children@),
                    out@ == mid + markup_nodes(*schema, cm, j as int),
                decreases e.children@.len() - j,
            {
                proof {
                    assert(decreases_to!(*n => (*n)->Element_0));
                    assert(decreases_to!(*e => e.children));
                    assert(decreases_to!(e.children => e.children[j as int]));
                }
                push_markup(out, schema, &e.children[j]);
                j = j + 1;
            }
            out.append("</");
            out.append(e.tag.as_str());
            out.append(">");
            proof {
                assert(am.len() == e.attributes@.len());
                assert(cm.len() == e.children@.len());
            }
        },
    }
}

impl RsxCall {
    /// The call rendered as markup (see `markup`).
    pub fn to_markup(&self, schema: &Schema) -> (r: String)
        ensures
            r@ == markup(*schema, self@),
    {
        let mut out = String::new();
        let mut j: usize = 0;
        while j < self.0.len()
            invariant
                j <= self.0@.len(),
                out@ == markup_nodes(*schema, self@, j as int),
            decreases self.0@.len() - j,
        {
            push_markup(&mut out, schema, &self.0[j]);
            j = j + 1;
        }
        out
    }
}

/// Reads markup source and renders it as markup; fails with the error `parse_rsx`
/// gives for the same source.
pub fn rsx_to_html(text: &str, schema: &Schema) -> (r: Result<String, RsxError>)
    ensures
        match lex(*schema, text@) {
            Err(p) => r == Err::<String, RsxError>(
                RsxError::Lexical(LexicalError::InvalidToken(crate::text::byte_offset(text@, p) as usize)),
            ),
            Ok(ts) => match parse_call(kinds(ts)) {
                Ok(nodes) => r matches Ok(html) && html@ == markup(*schema, nodes),
                Err(p) => r matches Err(RsxError::Parse(e)) && is_parse_error_at(text@, ts, p, e),
            },
        },
{
    match parse_rsx(text, schema) {
        Ok(call) => Ok(call.to_markup(schema)),
        Err(e) => Err(e),
    }
}

} // verus!
