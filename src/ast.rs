use vstd::prelude::*;

verus! {

/// One fragment of a literal: constant text, a placeholder, or a stray brace.
#[derive(Debug, Clone, PartialEq)]
pub enum Value {
    /// Text with doubled braces already collapsed to single ones.
    Constant(String),
    /// The identifier of a `{name}` or `{name:spec}` placeholder.
    Variable(String),
    /// A brace that neither forms a placeholder nor is doubled.
    Error,
}

pub ghost enum ValueModel {
    Constant(Seq<char>),
    Variable(Seq<char>),
    Error,
}

impl View for Value {
    type V = ValueModel;

    open spec fn view(&self) -> ValueModel {
        match self {
            Value::Constant(s) => ValueModel::Constant(s@),
            Value::Variable(s) => ValueModel::Variable(s@),
            Value::Error => ValueModel::Error,
        }
    }
}

/// A literal: its opening delimiter, its fragments, its closing delimiter.
#[derive(Debug, Clone, PartialEq)]
pub struct Values(pub String, pub Vec<Value>, pub String);

pub ghost struct ValuesModel {
    pub prefix: Seq<char>,
    pub fragments: Seq<ValueModel>,
    pub suffix: Seq<char>,
}

impl View for Values {
    type V = ValuesModel;

    open spec fn view(&self) -> ValuesModel {
        ValuesModel { prefix: self.0@, fragments: self.1@.map_values(|v: Value| v@), suffix: self.2@ }
    }
}

/// The text shown for a stray brace.
pub open spec fn error_sentinel() -> Seq<char> {
    seq!['!', 'e', 'r', 'r', 'o', 'r', '!']
}

pub open spec fn placeholder(name: Seq<char>) -> Seq<char> {
    seq!['{'] + name + seq!['}']
}

/// What a fragment shows in rendered output.
pub open spec fn render_value(v: ValueModel) -> Seq<char> {
    match v {
        ValueModel::Constant(t) => t,
        ValueModel::Variable(n) => placeholder(n),
        ValueModel::Error => error_sentinel(),
    }
}

/// What a sequence of fragments shows in rendered output.
pub open spec fn render_fragments(fs: Seq<ValueModel>) -> Seq<char>
    decreases fs.len(),
{
    if fs.len() == 0 {
        Seq::empty()
    } else {
        render_fragments(fs.drop_last()) + render_value(fs.last())
    }
}

/// One character as it is written inside a literal: braces doubled.
pub open spec fn escape_char(c: char) -> Seq<char> {
    if c == '{' || c == '}' {
        seq![c, c]
    } else {
        seq![c]
    }
}

/// Text as it is written inside a literal.
pub open spec fn escape_braces(t: Seq<char>) -> Seq<char>
    decreases t.len(),
{
    if t.len() == 0 {
        Seq::empty()
    } else {
        escape_braces(t.drop_last()) + escape_char(t.last())
    }
}

/// A fragment as it is written inside a literal.
pub open spec fn source_value(v: ValueModel) -> Seq<char> {
    match v {
        ValueModel::Constant(t) => escape_braces(t),
        ValueModel::Variable(n) => placeholder(n),
        ValueModel::Error => error_sentinel(),
    }
}

/// A sequence of fragments as it is written inside a literal.
pub open spec fn source_fragments(fs: Seq<ValueModel>) -> Seq<char>
    decreases fs.len(),
{
    if fs.len() == 0 {
        Seq::empty()
    } else {
        source_fragments(fs.drop_last()) + source_value(fs.last())
    }
}

/// A literal as it is written in source: delimiters around the escaped fragments.
pub open spec fn literal_text(v: ValuesModel) -> Seq<char> {
    v.prefix + source_fragments(v.fragments) + v.suffix
}

fn error_text() -> (r: String)
    ensures
        r@ == error_sentinel(),
{
    proof {
        reveal_strlit("!error!");
    }
    String::from_str("!error!")
}

fn placeholder_text(name: &String) -> (r: String)
    ensures
        r@ == placeholder(name@),
{
    proof {
        reveal_strlit("{");
        reveal_strlit("}");
    }
    let mut r = String::from_str("{");
    r.append(name.as_str());
    r.append("}");
    r
}

impl Value {
    /// The fragment as rendered output shows it.
    pub fn to_string(&self) -> (r: String)
        ensures
            r@ == render_value(self@),
    {
        match self {
            Value::Constant(s) => s.clone(),
            Value::Variable(s) => placeholder_text(s),
            Value::Error => error_text(),
        }
    }

    /// The fragment as it is written inside a literal.
    pub fn to_source(&self) -> (r: String)
        ensures
            r@ == source_value(self@),
    {
        match self {
            Value::Constant(s) => escape_text(s),
            Value::Variable(s) => placeholder_text(s),
            Value::Error => error_text(),
        }
    }
}

/// `t` with every brace doubled.
pub fn escape_text(t: &String) -> (r: String)
    ensures
        r@ == escape_braces(t@),
{
    let s = t.as_str();
    let cs = crate::text::chars_of(s);
    let n = cs.len();
    let mut out = String::new();
    let mut start: usize = 0;
    let mut i: usize = 0;
    while i < n
        invariant
            s@ == t@,
            cs@ == t@,
            n == t@.len(),
            start <= i <= n,
            out@ + s@.subrange(start as int, i as int) == escape_braces(t@.take(i as int)),
        decreases n - i,
    {
        let c = cs[i];
        assert(t@.take(i + 1).drop_last() == t@.take(i as int));
        assert(t@.take(i + 1).last() == c);
        assert(escape_braces(t@.take(i + 1)) == escape_braces(t@.take(i as int)) + escape_char(c));
        if c == '{' || c == '}' {
            let ghost before = out@ + s@.subrange(start as int, i as int);
            out.append(s.substring_char(start, i));
            if c == '{' {
                out.append("{{");
                proof {
                    reveal_strlit("{{");
                }
                assert("{{"@ =~= escape_char(c));
            } else {
                out.append("}}");
                proof {
                    reveal_strlit("}}");
                }
                assert("}}"@ =~= escape_char(c));
            }
            assert(out@ == before + escape_char(c));
            i = i + 1;
            start = i;
            assert(out@ + s@.subrange(start as int, i as int) == out@);
        } else {
            assert(s@.subrange(start as int, i + 1) == s@.subrange(start as int, i as int) + seq![c]);
            assert(out@ + s@.subrange(start as int, i + 1) == (out@ + s@.subrange(start as int, i as int)) + seq![c]);
            i = i + 1;
        }
    }
    out.append(s.substring_char(start, n));
    assert(t@.take(n as int) == t@);
    out
}

impl Values {
    /// The rendered content: each fragment as rendered output shows it, without delimiters.
    pub fn to_string(&self) -> (r: String)
        ensures
            r@ == render_fragments(self@.fragments),
    {
        let mut result = String::new();
        let mut i: usize = 0;
        while i < self.1.len()
            invariant
                i <= self.1@.len(),
                result@ == render_fragments(self@.fragments.take(i as int)),
            decreases self.1@.len() - i,
        {
            let piece = self.1[i].to_string();
            result.append(piece.as_str());
            assert(self@.fragments.take(i + 1).drop_last() == self@.fragments.take(i as int));
            i = i + 1;
        }
        assert(self@.fragments.take(i as int) == self@.fragments);
        result
    }

    /// The fragments as written inside a literal, without delimiters.
    pub fn to_source(&self) -> (r: String)
        ensures
            r@ == source_fragments(self@.fragments),
    {
        let mut result = String::new();
        let mut i: usize = 0;
        while i < self.1.len()
            invariant
                i <= self.1@.len(),
                result@ == source_fragments(self@.fragments.take(i as int)),
            decreases self.1@.len() - i,
        {
            let piece = self.1[i].to_source();
            result.append(piece.as_str());
            assert(self@.fragments.take(i + 1).drop_last() == self@.fragments.take(i as int));
            i = i + 1;
        }
        assert(self@.fragments.take(i as int) == self@.fragments);
        result
    }

    /// The whole literal as written in source.
    pub fn to_literal(&self) -> (r: String)
        ensures
            r@ == literal_text(self@),
    {
        let mut r = self.0.clone();
        let body = self.to_source();
        r.append(body.as_str());
        r.append(self.2.as_str());
        r
    }
}


/// An attribute line: its name in the attribute table and its literal value.
#[derive(Debug, Clone, PartialEq)]
pub struct AttributeSet {
    pub name: String,
    pub value: Values,
}

pub ghost struct AttributeModel {
    pub name: Seq<char>,
    pub value: ValuesModel,
}

impl View for AttributeSet {
    type V = AttributeModel;

    open spec fn view(&self) -> AttributeModel {
        AttributeModel { name: self.name@, value: self.value@ }
    }
}

#[derive(Debug, PartialEq)]
pub enum Node {
    Element(Element),
    Text(Values),
}

/// A tag with its attributes and children, each list in source order.
#[derive(Debug, PartialEq)]
pub struct Element {
    pub tag: String,
    pub attributes: Vec<AttributeSet>,
    pub children: Vec<Node>,
}

/// The top-level nodes of one `rsx!{ ... }` call.
#[derive(Debug, PartialEq)]
pub struct RsxCall(pub Vec<Node>);

pub ghost enum NodeModel {
    Element(ElementModel),
    Text(ValuesModel),
}

pub ghost struct ElementModel {
    pub tag: Seq<char>,
    pub attributes: Seq<AttributeModel>,
    pub children: Seq<NodeModel>,
}

pub open spec fn node_model(n: Node) -> NodeModel
    decreases n,
{
    match n {
        Node::Text(v) => NodeModel::Text(v@),
        Node::Element(e) => NodeModel::Element(ElementModel {
            tag: e.tag@,
            attributes: e.attributes@.map_values(|a: AttributeSet| a@),
            // the bounds test lets the recursion see that each child is smaller
            children: Seq::new(e.children@.len(), |i: int|
                if 0 <= i < e.children@.len() { node_model(e.children@[i]) } else { NodeModel::Text(arbitrary()) }),
        }),
    }
}

pub open spec fn nodes_model(ns: Seq<Node>) -> Seq<NodeModel> {
    ns.map_values(|n: Node| node_model(n))
}

impl View for Node {
    type V = NodeModel;

    open spec fn view(&self) -> NodeModel {
        node_model(*self)
    }
}

impl View for Element {
    type V = ElementModel;

    open spec fn view(&self) -> ElementModel {
        ElementModel {
            tag: self.tag@,
            attributes: self.attributes@.map_values(|a: AttributeSet| a@),
            children: nodes_model(self.children@),
        }
    }
}

impl View for RsxCall {
    type V = Seq<NodeModel>;

    open spec fn view(&self) -> Seq<NodeModel> {
        nodes_model(self.0@)
    }
}

/// The view of an element node is the element's own view.
pub proof fn lemma_element_node_model(e: Element)
    ensures
        Node::Element(e)@ == NodeModel::Element(e@),
{
    let m = Node::Element(e)@;
    if let NodeModel::Element(em) = m {
        assert(em.children =~= nodes_model(e.children@));
    }
}

} // verus!
