use vstd::prelude::*;
use crate::ast::{
    AttributeModel, AttributeSet, Element, ElementModel, Node, NodeModel, RsxCall, Value, Values,
    nodes_model,
};
use crate::lexer::{LexicalError, SpannedToken, Token, TokenModel, kinds, lex, tokenize, spanned_view};
use crate::schema::Schema;

verus! {

/// A token stream that breaks the grammar.
#[derive(Debug, Clone, PartialEq)]
pub enum ParseError {
    /// A token where the grammar allows no such token, with its byte span.
    UnrecognizedToken { token: Token, start: usize, end: usize },
    /// The tokens ended before the call was closed; the offset is the end of the last token.
    UnexpectedEof { offset: usize },
}

/// Why markup source could not be read.
#[derive(Debug, Clone, PartialEq)]
pub enum RsxError {
    Lexical(LexicalError),
    Parse(ParseError),
}

pub open spec fn is_comma(ts: Seq<TokenModel>, i: int) -> bool {
    0 <= i < ts.len() && ts[i] is Comma
}

/// Position after one optional comma at `i`.
pub open spec fn skip_comma(ts: Seq<TokenModel>, i: int) -> int {
    if is_comma(ts, i) { i + 1 } else { i }
}

/// A node at `i`: an element (its tag token, then its body) or a literal, which is a
/// text node. Gives the node and the position after it, or the position of the
/// offending token (`ts.len()` where the tokens ran out).
pub open spec fn parse_node(ts: Seq<TokenModel>, i: int) -> Result<(NodeModel, int), int>
    decreases ts.len() - i, 0int,
{
    if i < 0 || i >= ts.len() {
        Err(ts.len() as int)
    } else {
        match ts[i] {
            TokenModel::Element(tag) => match parse_element_body(ts, i + 1, tag, Seq::empty(), Seq::empty()) {
                Ok((e, j)) => Ok((NodeModel::Element(e), j)),
                Err(p) => Err(p),
            },
            TokenModel::Values(v) => Ok((NodeModel::Text(v), i + 1)),
            _ => Err(i),
        }
    }
}

/// The rest of an element after its tag token, from `i` to its closing brace:
/// attribute lines (`name: "value"` and an optional comma) and child nodes (each with
/// an optional comma), in any order. `attrs` and `children` hold what was read so far.
pub open spec fn parse_element_body(
    ts: Seq<TokenModel>,
    i: int,
    tag: Seq<char>,
    attrs: Seq<AttributeModel>,
    children: Seq<NodeModel>,
) -> Result<(ElementModel, int), int>
    decreases ts.len() - i, 1int,
{
    if i < 0 || i >= ts.len() {
        Err(ts.len() as int)
    } else {
        match ts[i] {
            TokenModel::ClosingBrace => Ok((ElementModel { tag, attributes: attrs, children }, i + 1)),
            TokenModel::Attribute(name) => if i + 1 >= ts.len() {
                Err(ts.len() as int)
            } else {
                match ts[i + 1] {
                    TokenModel::Values(v) => parse_element_body(
                        ts,
                        skip_comma(ts, i + 2),
                        tag,
                        attrs.push(AttributeModel { name, value: v }),
                        children,
                    ),
                    _ => Err(i + 1),
                }
            },
            TokenModel::Element(_) | TokenModel::Values(_) => match parse_node(ts, i) {
                // a node always ends after its first token, within the tokens
                Ok((n, j)) => if i < j <= ts.len() {
                    parse_element_body(ts, skip_comma(ts, j), tag, attrs, children.push(n))
                } else {
                    Err(i)
                },
                Err(p) => Err(p),
            },
            _ => Err(i),
        }
    }
}

/// The top-level nodes from `i` up to the closing brace of the call, which must be the
/// last token. Any number of commas may follow a node.
pub open spec fn parse_node_list(ts: Seq<TokenModel>, i: int, nodes: Seq<NodeModel>) -> Result<Seq<NodeModel>, int>
    decreases ts.len() - i,
{
    if i < 0 || i >= ts.len() {
        Err(ts.len() as int)
    } else {
        match ts[i] {
            TokenModel::ClosingBrace => if i + 1 == ts.len() { Ok(nodes) } else { Err(i + 1) },
            TokenModel::Comma => parse_node_list(ts, i + 1, nodes),
            _ => match parse_node(ts, i) {
                Ok((n, j)) => if i < j <= ts.len() { parse_node_list(ts, j, nodes.push(n)) } else { Err(i) },
                Err(p) => Err(p),
            },
        }
    }
}

/// A whole call: `rsx!`, `{`, the top-level nodes, `}`.
pub open spec fn parse_call(ts: Seq<TokenModel>) -> Result<Seq<NodeModel>, int> {
    if ts.len() == 0 {
        Err(0)
    } else if !(ts[0] is Rsx) {
        Err(0)
    } else if ts.len() == 1 {
        Err(1)
    } else if !(ts[1] is OpeningBrace) {
        Err(1)
    } else {
        parse_node_list(ts, 2, Seq::empty())
    }
}

/// What reading source text gives: the lexer's error, or the parse of its tokens.
pub open spec fn parse_source(schema: Schema, s: Seq<char>) -> Result<Seq<NodeModel>, ()> {
    match lex(schema, s) {
        Err(_) => Err(()),
        Ok(ts) => match parse_call(kinds(ts)) {
            Ok(nodes) => Ok(nodes),
            Err(_) => Err(()),
        },
    }
}

pub fn copy_value(v: &Value) -> (r: Value)
    ensures
        r@ == v@,
{
    match v {
        Value::Constant(s) => Value::Constant(s.clone()),
        Value::Variable(s) => Value::Variable(s.clone()),
        Value::Error => Value::Error,
    }
}

pub fn copy_values(v: &Values) -> (r: Values)
    ensures
        r@ == v@,
{
    let mut fragments: Vec<Value> = Vec::new();
    let mut i: usize = 0;
    while i < v.1.len()
        invariant
            i <= v.1@.len(),
            fragments@.len() == i,
            forall|k: int| 0 <= k < i ==> (#[trigger] fragments@[k])@ == v.1@[k]@,
        decreases v.1@.len() - i,
    {
        fragments.push(copy_value(&v.1[i]));
        i = i + 1;
    }
    let r = Values(v.0.clone(), fragments, v.2.clone());
    assert(r@.fragments =~= v@.fragments);
    r
}

pub fn copy_token(t: &Token) -> (r: Token)
    ensures
        r@ == t@,
{
    match t {
        Token::Values(v) => Token::Values(copy_values(v)),
        Token::Attribute(n) => Token::Attribute(n.clone()),
        Token::Element(n) => Token::Element(n.clone()),
        Token::Rsx => Token::Rsx,
        Token::OpeningBrace => Token::OpeningBrace,
        Token::ClosingBrace => Token::ClosingBrace,
        Token::QuestionMark => Token::QuestionMark,
        Token::Comma => Token::Comma,
        Token::Pound => Token::Pound,
    }
}

pub open spec fn token_kinds(ts: Seq<SpannedToken>) -> Seq<TokenModel> {
    ts.map_values(|t: SpannedToken| t.1@)
}

/// `e` is the error for the token at `p`, carrying a copy of that token and its span; or,
/// where `p` is past the tokens, the error for their end.
pub open spec fn is_error_at(ts: Seq<SpannedToken>, p: int, e: ParseError) -> bool {
    if 0 <= p < ts.len() {
        e matches ParseError::UnrecognizedToken { token, start, end }
            && token@ == ts[p].1@ && start == ts[p].0 && end == ts[p].2
    } else {
        e == ParseError::UnexpectedEof { offset: if ts.len() == 0 { 0 } else { ts.last().2 } }
    }
}

fn make_error(ts: &Vec<SpannedToken>, p: usize) -> (r: ParseError)
    ensures
        is_error_at(ts@, p as int, r),
{
    if p < ts.len() {
        let t = &ts[p];
        ParseError::UnrecognizedToken { token: copy_token(&t.1), start: t.0, end: t.2 }
    } else if ts.len() == 0 {
        ParseError::UnexpectedEof { offset: 0 }
    } else {
        ParseError::UnexpectedEof { offset: ts[ts.len() - 1].2 }
    }
}

} // verus!

verus! {

fn parse_node_exec(ts: &Vec<SpannedToken>, i: usize) -> (r: Result<(Node, usize), usize>)
    requires
        i <= ts@.len(),
    ensures
        match parse_node(token_kinds(ts@), i as int) {
            Ok((m, j)) => r matches Ok((n, k)) && n@ == m && k as int == j,
            Err(p) => r matches Err(q) && q as int == p,
        },
    decreases ts@.len() - i, 0int,
{
    let ghost k = token_kinds(ts@);
    if i >= ts.len() {
        return Err(ts.len());
    }
    match &ts[i].1 {
        Token::Element(tag) => {
            match parse_element_exec(ts, i + 1, tag) {
                Ok((e, j)) => {
                    proof {
                        crate::ast::lemma_element_node_model(e);
                    }
                    Ok((Node::Element(e), j))
                },
                Err(p) => Err(p),
            }
        },
        Token::Values(v) => Ok((Node::Text(copy_values(v)), i + 1)),
        _ => Err(i),
    }
}

fn parse_element_exec(ts: &Vec<SpannedToken>, start: usize, tag: &String) -> (r: Result<(Element, usize), usize>)
    requires
        start <= ts@.len(),
    ensures
        match parse_element_body(token_kinds(ts@), start as int, tag@, Seq::empty(), Seq::empty()) {
            Ok((m, j)) => r matches Ok((e, k)) && e@ == m && k as int == j,
            Err(p) => r matches Err(q) && q as int == p,
        },
    decreases ts@.len() - start, 1int,
{
    let ghost k = token_kinds(ts@);
    let n = ts.len();
    let mut attributes: Vec<AttributeSet> = Vec::new();
    let mut children: Vec<Node> = Vec::new();
    let mut i = start;
    assert(attributes@.map_values(|a: AttributeSet| a@) =~= Seq::empty());
    assert(nodes_model(children@) =~= Seq::empty());
    loop
        invariant
            n == ts@.len(),
            k == token_kinds(ts@),
            start <= i <= n,
            parse_element_body(k, i as int, tag@, attributes@.map_values(|a: AttributeSet| a@), nodes_model(children@))
                == parse_element_body(k, start as int, tag@, Seq::empty(), Seq::empty()),
        decreases n - i,
    {
        let ghost am = attributes@.map_values(|a: AttributeSet| a@);
        let ghost cm = nodes_model(children@);
        if i >= n {
            return Err(n);
        }
        match &ts[i].1 {
            Token::ClosingBrace => {
                let e = Element { tag: tag.clone(), attributes, children };
                return Ok((e, i + 1));
            },
            Token::Attribute(name) => {
                if i + 1 >= n {
                    return Err(n);
                }
                match &ts[i + 1].1 {
                    Token::Values(v) => {
                        let a = AttributeSet { name: name.clone(), value: copy_values(v) };
                        attributes.push(a);
                        assert(attributes@.map_values(|a: AttributeSet| a@) =~= am.push(
                            AttributeModel { name: name@, value: v@ },
                        ));
                        if i + 2 < n && matches!(ts[i + 2].1, Token::Comma) {
                            i = i + 3;
                        } else {
                            i = i + 2;
                        }
                    },
                    _ => {
                        return Err(i + 1);
                    },
                }
            },
            Token::Element(_) | Token::Values(_) => {
                match parse_node_exec(ts, i) {
                    Ok((c, j)) => {
                        if !(i < j && j <= n) {
                            return Err(i);
                        }
                        let ghost cv = c@;
                        children.push(c);
                        assert(nodes_model(children@) =~= cm.push(cv));
                        if j < n && matches!(ts[j].1, Token::Comma) {
                            i = j + 1;
                        } else {
                            i = j;
                        }
                    },
                    Err(p) => {
                        return Err(p);
                    },
                }
            },
            _ => {
                return Err(i);
            },
        }
    }
}

/// Parses a token stream into a call (see `parse_call`).
pub fn parse_tokens(ts: &Vec<SpannedToken>) -> (r: Result<RsxCall, ParseError>)
    ensures
        match parse_call(token_kinds(ts@)) {
            Ok(nodes) => r matches Ok(c) && c@ == nodes,
            Err(p) => r matches Err(e) && is_error_at(ts@, p, e),
        },
{
    let ghost k = token_kinds(ts@);
    let n = ts.len();
    if n == 0 || !matches!(ts[0].1, Token::Rsx) {
        return Err(make_error(ts, 0));
    }
    if n == 1 || !matches!(ts[1].1, Token::OpeningBrace) {
        return Err(make_error(ts, 1));
    }
    let mut nodes: Vec<Node> = Vec::new();
    let mut i: usize = 2;
    assert(nodes_model(nodes@) =~= Seq::empty());
    loop
        invariant
            n == ts@.len(),
            k == token_kinds(ts@),
            2 <= i <= n,
            parse_node_list(k, i as int, nodes_model(nodes@)) == parse_call(k),
        decreases n - i,
    {
        let ghost nm = nodes_model(nodes@);
        if i >= n {
            return Err(make_error(ts, n));
        }
        match &ts[i].1 {
            Token::ClosingBrace => {
                if i + 1 == n {
                    return Ok(RsxCall(nodes));
                } else {
                    return Err(make_error(ts, i + 1));
                }
            },
            Token::Comma => {
                i = i + 1;
            },
            _ => {
                match parse_node_exec(ts, i) {
                    Ok((c, j)) => {
                        if !(i < j && j <= n) {
                            return Err(make_error(ts, i));
                        }
                        let ghost cv = c@;
                        nodes.push(c);
                        assert(nodes_model(nodes@) =~= nm.push(cv));
                        i = j;
                    },
                    Err(p) => {
                        return Err(make_error(ts, p));
                    },
                }
            },
        }
    }
}

} // verus!

verus! {

/// `e` is the parse error for lexed token `p` of `s`, or for the end of the tokens.
pub open spec fn is_parse_error_at(s: Seq<char>, ts: Seq<(int, TokenModel, int)>, p: int, e: ParseError) -> bool {
    if 0 <= p < ts.len() {
        e matches ParseError::UnrecognizedToken { token, start, end } && token@ == ts[p].1
            && start == crate::text::byte_offset(s, ts[p].0) as usize
            && end == crate::text::byte_offset(s, ts[p].2) as usize
    } else {
        e == ParseError::UnexpectedEof {
            offset: if ts.len() == 0 { 0 } else { crate::text::byte_offset(s, ts.last().2) as usize },
        }
    }
}

/// Reads markup source: lexes all of it, then parses the tokens.
pub fn parse_rsx(input: &str, schema: &Schema) -> (r: Result<RsxCall, RsxError>)
    ensures
        match lex(*schema, input@) {
            Err(p) => r == Err::<RsxCall, RsxError>(
                RsxError::Lexical(LexicalError::InvalidToken(crate::text::byte_offset(input@, p) as usize)),
            ),
            Ok(ts) => match parse_call(kinds(ts)) {
                Ok(nodes) => r matches Ok(c) && c@ == nodes,
                Err(p) => r matches Err(RsxError::Parse(e)) && is_parse_error_at(input@, ts, p, e),
            },
        },
{
    match tokenize(input, schema) {
        Err(e) => Err(RsxError::Lexical(e)),
        Ok(v) => {
            proof {
                if let Ok(ts) = lex(*schema, input@) {
                    assert(spanned_view(v@).len() == v@.len());
                    assert(crate::lexer::byte_spans(input@, ts).len() == ts.len());
                    assert(token_kinds(v@) =~= kinds(ts)) by {
                        assert forall|i: int| 0 <= i < v@.len() implies token_kinds(v@)[i] == kinds(ts)[i] by {
                            assert(spanned_view(v@)[i] == crate::lexer::byte_spans(input@, ts)[i]);
                        };
                    };
                    assert forall|i: int| 0 <= i < v@.len() implies v@[i].0 == crate::text::byte_offset(input@, ts[i].0) as usize
                        && v@[i].2 == crate::text::byte_offset(input@, ts[i].2) as usize by {
                        assert(spanned_view(v@)[i] == crate::lexer::byte_spans(input@, ts)[i]);
                    };
                }
            }
            match parse_tokens(&v) {
                Ok(c) => Ok(c),
                Err(e) => {
                    proof {
                        if let Ok(ts) = lex(*schema, input@) {
                            if let Err(p) = parse_call(kinds(ts)) {
                                assert(is_error_at(v@, p, e));
                                if 0 <= p < ts.len() {
                                    assert(spanned_view(v@)[p] == crate::lexer::byte_spans(input@, ts)[p]);
                                } else if ts.len() > 0 {
                                    assert(v@.last() == v@[v@.len() - 1]);
                                    assert(spanned_view(v@)[ts.len() - 1] == crate::lexer::byte_spans(input@, ts)[ts.len() - 1]);
                                }
                                assert(is_parse_error_at(input@, ts, p, e));
                            }
                        }
                    }
                    Err(RsxError::Parse(e))
                },
            }
        },
    }
}

} // verus!
