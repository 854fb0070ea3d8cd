//! Reading back the normalized form: the lexer gives the canonical tokens of a
//! well-formed tree, the parser turns them back into that tree, and every call read
//! from source text without stray braces in its literals is well-formed.

use vstd::prelude::*;
use crate::ast::{AttributeModel, ElementModel, NodeModel, ValuesModel, literal_text, source_fragments};
use crate::format::{format_attribute, format_attributes, format_call, format_node, format_nodes, tabs};
use crate::fragment::fragments_of;
use crate::lexer::{
    TokenModel, blank_end, is_name_char, is_space, kinds, lex_from, lemma_name_end,
    literal_close, name_end, quote, space_end, starts_rsx, token_at,
};
use crate::schema::Schema;

verus! {

/// A tag or attribute name that the lexer reads back: non-empty, of name characters.
pub open spec fn name_ok(n: Seq<char>) -> bool {
    n.len() > 0 && forall|i: int| 0 <= i < n.len() ==> is_name_char(#[trigger] n[i])
}

/// A literal whose written form the lexer reads back as itself: double-quoted, its
/// written interior a valid literal body whose fragments are its own.
pub open spec fn literal_ok(v: ValuesModel) -> bool {
    let b = source_fragments(v.fragments);
    &&& v.prefix == quote()
    &&& v.suffix == quote()
    &&& literal_close(b + quote(), 0) == Some(b.len() + 1int)
    &&& fragments_of(b) == v.fragments
}

pub open spec fn attribute_ok(schema: Schema, a: AttributeModel) -> bool {
    name_ok(a.name) && schema.has_attribute(a.name) && literal_ok(a.value)
}

/// A tree the parser can give back: names known to the schema, literals readable.
pub open spec fn node_ok(schema: Schema, n: NodeModel) -> bool
    decreases n, 0int,
{
    match n {
        NodeModel::Text(v) => literal_ok(v),
        NodeModel::Element(e) => name_ok(e.tag) && schema.has_element(e.tag)
            && (forall|i: int| 0 <= i < e.attributes.len() ==> attribute_ok(schema, #[trigger] e.attributes[i]))
            && nodes_ok(schema, e.children, e.children.len() as int),
    }
}

pub open spec fn nodes_ok(schema: Schema, ns: Seq<NodeModel>, k: int) -> bool
    decreases ns, k,
{
    if k <= 0 || k > ns.len() {
        true
    } else {
        nodes_ok(schema, ns, k - 1) && node_ok(schema, ns[k - 1])
    }
}

pub open spec fn attribute_tokens(a: AttributeModel) -> Seq<TokenModel> {
    seq![TokenModel::Attribute(a.name), TokenModel::Values(a.value), TokenModel::Comma]
}

pub open spec fn attributes_tokens(attrs: Seq<AttributeModel>, k: int) -> Seq<TokenModel>
    decreases k,
{
    if k <= 0 {
        Seq::empty()
    } else {
        attributes_tokens(attrs, k - 1) + attribute_tokens(attrs[k - 1])
    }
}

/// The tokens of a node's normalized form.
pub open spec fn node_tokens(n: NodeModel) -> Seq<TokenModel>
    decreases n, 0int,
{
    match n {
        NodeModel::Text(v) => seq![TokenModel::Values(v)],
        NodeModel::Element(e) => seq![TokenModel::Element(e.tag)]
            + attributes_tokens(e.attributes, e.attributes.len() as int)
            + nodes_tokens(e.children, e.children.len() as int) + seq![TokenModel::ClosingBrace],
    }
}

pub open spec fn nodes_tokens(ns: Seq<NodeModel>, k: int) -> Seq<TokenModel>
    decreases ns, k,
{
    if k <= 0 || k > ns.len() {
        Seq::empty()
    } else {
        nodes_tokens(ns, k - 1) + node_tokens(ns[k - 1])
    }
}

/// Token kinds of a lexing result with `ks` in front.
pub open spec fn prepend(ks: Seq<TokenModel>, r: Result<Seq<(int, TokenModel, int)>, int>) -> Result<Seq<TokenModel>, int> {
    match r {
        Ok(ts) => Ok(ks + kinds(ts)),
        Err(q) => Err(q),
    }
}

proof fn lemma_chain(a: Seq<TokenModel>, r1: Result<Seq<(int, TokenModel, int)>, int>, b: Seq<TokenModel>, r2: Result<Seq<(int, TokenModel, int)>, int>)
    requires
        prepend(Seq::empty(), r1) == prepend(b, r2),
    ensures
        prepend(a, r1) == prepend(a + b, r2),
{
    match r1 {
        Ok(t1) => {
            match r2 {
                Ok(t2) => {
                    assert(Seq::<TokenModel>::empty() + kinds(t1) == b + kinds(t2));
                    assert(kinds(t1) =~= Seq::<TokenModel>::empty() + kinds(t1));
                    assert(a + kinds(t1) =~= (a + b) + kinds(t2));
                },
                Err(_) => {},
            }
        },
        Err(_) => {},
    }
}

proof fn lemma_lex_skip(schema: Schema, t: Seq<char>, p: int, q: int)
    requires
        0 <= p <= q <= t.len(),
        forall|i: int| p <= i < q ==> is_space(#[trigger] t[i]),
    ensures
        lex_from(schema, t, p) == lex_from(schema, t, q),
    decreases q - p,
{
    if p < q {
        assert(is_space(t[p]));
        assert(space_end(t, p) == space_end(t, p + 1));
        assert(lex_from(schema, t, p) == lex_from(schema, t, p + 1));
        lemma_lex_skip(schema, t, p + 1, q);
    }
}

proof fn lemma_lex_one(schema: Schema, t: Seq<char>, p: int, tok: TokenModel, e: int)
    requires
        0 <= p < t.len(),
        !is_space(t[p]),
        token_at(schema, t, p) == Some((tok, e)),
    ensures
        prepend(Seq::empty(), lex_from(schema, t, p)) == prepend(seq![tok], lex_from(schema, t, e)),
{
    assert(space_end(t, p) == p);
    match lex_from(schema, t, e) {
        Ok(rest) => {
            assert(kinds(seq![(p, tok, e)] + rest) =~= seq![tok] + kinds(rest));
            assert(Seq::<TokenModel>::empty() + kinds(seq![(p, tok, e)] + rest) =~= seq![tok] + kinds(rest));
        },
        Err(_) => {},
    }
}

proof fn lemma_lex_end(schema: Schema, t: Seq<char>)
    ensures
        lex_from(schema, t, t.len() as int) == Ok::<Seq<(int, TokenModel, int)>, int>(Seq::empty()),
{
    assert(space_end(t, t.len() as int) == t.len());
}

proof fn lemma_at(t: Seq<char>, p: int, x: Seq<char>, i: int)
    requires
        0 <= p,
        p + x.len() <= t.len(),
        t.subrange(p, p + x.len()) == x,
        0 <= i < x.len(),
    ensures
        t[p + i] == x[i],
{
    assert(t.subrange(p, p + x.len())[i] == t[p + i]);
}

proof fn lemma_part(t: Seq<char>, p: int, x: Seq<char>, a: int, b: int)
    requires
        0 <= p,
        p + x.len() <= t.len(),
        t.subrange(p, p + x.len()) == x,
        0 <= a <= b <= x.len(),
    ensures
        t.subrange(p + a, p + b) == x.subrange(a, b),
{
    assert(t.subrange(p + a, p + b) =~= x.subrange(a, b)) by {
        assert forall|i: int| 0 <= i < b - a implies #[trigger] t.subrange(p + a, p + b)[i] == x.subrange(a, b)[i] by {
            lemma_at(t, p, x, a + i);
        };
    };
}

proof fn lemma_tabs(d: nat)
    ensures
        tabs(d).len() == d,
        forall|i: int| 0 <= i < d ==> #[trigger] tabs(d)[i] == '\t',
    decreases d,
{
    if d > 0 {
        lemma_tabs((d - 1) as nat);
        assert forall|i: int| 0 <= i < d implies #[trigger] tabs(d)[i] == '\t' by {
            if i < d - 1 {
                assert(tabs(d)[i] == tabs((d - 1) as nat)[i]);
            }
        };
    }
}

proof fn lemma_name_end_of_run(s: Seq<char>, i: int, j: int)
    requires
        0 <= i <= j <= s.len(),
        forall|k: int| i <= k < j ==> is_name_char(#[trigger] s[k]),
        j < s.len() ==> !is_name_char(s[j]),
    ensures
        name_end(s, i) == j,
    decreases j - i,
{
    if i < j {
        lemma_name_end_of_run(s, i + 1, j);
    }
}

proof fn lemma_token_element(schema: Schema, t: Seq<char>, q: int, tag: Seq<char>)
    requires
        name_ok(tag),
        schema.has_element(tag),
        0 <= q,
        q + tag.len() + 2 <= t.len(),
        t.subrange(q, q + tag.len() + 2) == tag + seq![' ', '{'],
    ensures
        token_at(schema, t, q) == Some((TokenModel::Element(tag), q + tag.len() + 2)),
        !is_space(t[q]),
{
    let x = tag + seq![' ', '{'];
    let j = q + tag.len();
    assert forall|k: int| q <= k < j implies is_name_char(#[trigger] t[k]) by {
        lemma_at(t, q, x, k - q);
    };
    lemma_at(t, q, x, tag.len() as int);
    lemma_at(t, q, x, tag.len() as int + 1);
    lemma_at(t, q, x, 0);
    lemma_name_end_of_run(t, q, j);
    assert(blank_end(t, j + 1) == j + 1);
    assert(blank_end(t, j) == j + 1);
    lemma_part(t, q, x, 0, tag.len() as int);
    assert(x.subrange(0, tag.len() as int) =~= tag);
}

proof fn lemma_token_attribute(schema: Schema, t: Seq<char>, q: int, name: Seq<char>)
    requires
        name_ok(name),
        schema.has_attribute(name),
        0 <= q,
        q + name.len() + 1 <= t.len(),
        t.subrange(q, q + name.len() + 1) == name + seq![':'],
    ensures
        token_at(schema, t, q) == Some((TokenModel::Attribute(name), q + name.len() + 1)),
        !is_space(t[q]),
{
    let x = name + seq![':'];
    let j = q + name.len();
    assert forall|k: int| q <= k < j implies is_name_char(#[trigger] t[k]) by {
        lemma_at(t, q, x, k - q);
    };
    lemma_at(t, q, x, name.len() as int);
    lemma_at(t, q, x, 0);
    lemma_name_end_of_run(t, q, j);
    assert(blank_end(t, j) == j);
    lemma_part(t, q, x, 0, name.len() as int);
    assert(x.subrange(0, name.len() as int) =~= name);
}

proof fn lemma_token_char(schema: Schema, t: Seq<char>, q: int, c: char, tok: TokenModel)
    requires
        0 <= q < t.len(),
        t[q] == c,
        (c == ',' && tok == TokenModel::Comma) || (c == '}' && tok == TokenModel::ClosingBrace)
            || (c == '{' && tok == TokenModel::OpeningBrace),
    ensures
        token_at(schema, t, q) == Some((tok, q + 1)),
        !is_space(t[q]),
{
    if starts_rsx(t, q) {
        assert(t.subrange(q, q + 4)[0] == t[q]);
    }
}

/// `literal_close` reads only the characters up to the closing quote.
proof fn lemma_literal_close_local(t1: Seq<char>, a: int, t2: Seq<char>, b: int, len: int)
    requires
        0 <= a,
        0 <= b,
        a + len <= t1.len(),
        b + len <= t2.len(),
        t1.subrange(a, a + len) == t2.subrange(b, b + len),
        literal_close(t1, a) == Some(a + len),
    ensures
        literal_close(t2, b) == Some(b + len),
    decreases len,
{
    crate::lexer::lemma_literal_close(t1, a);
    assert(t1[a] == t2[b]) by {
        assert(t1.subrange(a, a + len)[0] == t1[a]);
        assert(t2.subrange(b, b + len)[0] == t2[b]);
    };
    if t1[a] == '"' {
    } else if t1[a] == '\\' {
        crate::lexer::lemma_literal_close(t1, a + 2);
        assert(t1[a + 1] == t2[b + 1]) by {
            assert(t1.subrange(a, a + len)[1] == t2.subrange(b, b + len)[1]);
            assert(t1.subrange(a, a + len)[1] == t1[a + 1]);
            assert(t2.subrange(b, b + len)[1] == t2[b + 1]);
        };
        assert(t1.subrange(a + 2, a + len) =~= t2.subrange(b + 2, b + len)) by {
            assert forall|i: int| 0 <= i < len - 2 implies #[trigger] t1.subrange(a + 2, a + len)[i] == t2.subrange(b + 2, b + len)[i] by {
                assert(t1.subrange(a, a + len)[i + 2] == t2.subrange(b, b + len)[i + 2]);
                assert(t1.subrange(a, a + len)[i + 2] == t1[a + 2 + i]);
                assert(t2.subrange(b, b + len)[i + 2] == t2[b + 2 + i]);
            };
        };
        lemma_literal_close_local(t1, a + 2, t2, b + 2, len - 2);
    } else {
        crate::lexer::lemma_literal_close(t1, a + 1);
        assert(t1.subrange(a + 1, a + len) =~= t2.subrange(b + 1, b + len)) by {
            assert forall|i: int| 0 <= i < len - 1 implies #[trigger] t1.subrange(a + 1, a + len)[i] == t2.subrange(b + 1, b + len)[i] by {
                assert(t1.subrange(a, a + len)[i + 1] == t2.subrange(b, b + len)[i + 1]);
                assert(t1.subrange(a, a + len)[i + 1] == t1[a + 1 + i]);
                assert(t2.subrange(b, b + len)[i + 1] == t2[b + 1 + i]);
            };
        };
        lemma_literal_close_local(t1, a + 1, t2, b + 1, len - 1);
    }
}

proof fn lemma_token_literal(schema: Schema, t: Seq<char>, q: int, v: ValuesModel)
    requires
        literal_ok(v),
        0 <= q,
        q + literal_text(v).len() <= t.len(),
        t.subrange(q, q + literal_text(v).len()) == literal_text(v),
    ensures
        token_at(schema, t, q) == Some((TokenModel::Values(v), q + literal_text(v).len())),
        !is_space(t[q]),
{
    let b = source_fragments(v.fragments);
    let x = literal_text(v);
    assert(x == quote() + b + quote());
    lemma_at(t, q, x, 0);
    let body = b + quote();
    assert(body.subrange(0, body.len() as int) == body);
    lemma_part(t, q, x, 1, x.len() as int);
    assert(x.subrange(1, x.len() as int) =~= body);
    lemma_literal_close_local(body, 0, t, q + 1, body.len() as int);
    lemma_part(t, q, x, 1, x.len() - 1);
    assert(x.subrange(1, x.len() - 1) =~= b);
}

} // verus!

verus! {

proof fn lemma_skip_tabs(schema: Schema, t: Seq<char>, p: int, x: Seq<char>, d: nat)
    requires
        0 <= p,
        p + x.len() <= t.len(),
        t.subrange(p, p + x.len()) == x,
        d <= x.len(),
        x.subrange(0, d as int) == tabs(d),
    ensures
        lex_from(schema, t, p) == lex_from(schema, t, p + d),
{
    lemma_tabs(d);
    assert forall|i: int| p <= i < p + d implies is_space(#[trigger] t[i]) by {
        lemma_at(t, p, x, i - p);
        assert(x[i - p] == x.subrange(0, d as int)[i - p]);
    };
    lemma_lex_skip(schema, t, p, p + d);
}

proof fn lemma_skip_one(schema: Schema, t: Seq<char>, p: int, x: Seq<char>, i: int)
    requires
        0 <= p,
        p + x.len() <= t.len(),
        t.subrange(p, p + x.len()) == x,
        0 <= i < x.len(),
        x[i] == ' ' || x[i] == '\n',
    ensures
        lex_from(schema, t, p + i) == lex_from(schema, t, p + i + 1),
{
    lemma_at(t, p, x, i);
    lemma_lex_skip(schema, t, p + i, p + i + 1);
}

proof fn lemma_lex_attribute(schema: Schema, t: Seq<char>, p: int, a: AttributeModel, d: nat)
    requires
        attribute_ok(schema, a),
        0 <= p,
        p + format_attribute(a, d).len() <= t.len(),
        t.subrange(p, p + format_attribute(a, d).len()) == format_attribute(a, d),
    ensures
        prepend(Seq::empty(), lex_from(schema, t, p))
            == prepend(attribute_tokens(a), lex_from(schema, t, p + format_attribute(a, d).len())),
{
    let x = format_attribute(a, d);
    let lit = literal_text(a.value);
    let n = a.name.len() as int;
    lemma_tabs(d);
    let pos1 = p + d;
    let pos2 = pos1 + n + 1;
    let pos3 = pos2 + 1;
    let pos4 = pos3 + lit.len();
    assert(x.len() == d + n + 2 + lit.len() + 2);
    assert(x.subrange(0, d as int) =~= tabs(d));
    lemma_skip_tabs(schema, t, p, x, d);
    lemma_part(t, p, x, d as int, d + n + 1);
    assert(x.subrange(d as int, d + n + 1) =~= a.name + seq![':']);
    lemma_token_attribute(schema, t, pos1, a.name);
    lemma_lex_one(schema, t, pos1, TokenModel::Attribute(a.name), pos2);
    lemma_skip_one(schema, t, p, x, d + n + 1);
    lemma_part(t, p, x, d + n + 2, d + n + 2 + lit.len());
    assert(x.subrange(d + n + 2, d + n + 2 + lit.len()) =~= lit);
    lemma_token_literal(schema, t, pos3, a.value);
    lemma_lex_one(schema, t, pos3, TokenModel::Values(a.value), pos4);
    lemma_at(t, p, x, d + n + 2 + lit.len());
    lemma_token_char(schema, t, pos4, ',', TokenModel::Comma);
    lemma_lex_one(schema, t, pos4, TokenModel::Comma, pos4 + 1);
    lemma_skip_one(schema, t, p, x, d + n + 3 + lit.len());
    lemma_chain(seq![TokenModel::Attribute(a.name)], lex_from(schema, t, pos3), seq![TokenModel::Values(a.value)], lex_from(schema, t, pos4));
    lemma_chain(seq![TokenModel::Attribute(a.name), TokenModel::Values(a.value)], lex_from(schema, t, pos4),
        seq![TokenModel::Comma], lex_from(schema, t, pos4 + 1));
    assert(seq![TokenModel::Attribute(a.name)] + seq![TokenModel::Values(a.value)]
        =~= seq![TokenModel::Attribute(a.name), TokenModel::Values(a.value)]);
    assert(seq![TokenModel::Attribute(a.name), TokenModel::Values(a.value)] + seq![TokenModel::Comma] =~= attribute_tokens(a));
}

proof fn lemma_lex_attributes(schema: Schema, t: Seq<char>, p: int, attrs: Seq<AttributeModel>, d: nat, k: int)
    requires
        0 <= k <= attrs.len(),
        forall|i: int| 0 <= i < attrs.len() ==> attribute_ok(schema, #[trigger] attrs[i]),
        0 <= p,
        p + format_attributes(attrs, d, k).len() <= t.len(),
        t.subrange(p, p + format_attributes(attrs, d, k).len()) == format_attributes(attrs, d, k),
    ensures
        prepend(Seq::empty(), lex_from(schema, t, p))
            == prepend(attributes_tokens(attrs, k), lex_from(schema, t, p + format_attributes(attrs, d, k).len())),
    decreases k,
{
    if k == 0 {
        assert(attributes_tokens(attrs, k) =~= Seq::<TokenModel>::empty());
    } else {
        let x = format_attributes(attrs, d, k);
        let a = format_attributes(attrs, d, k - 1);
        let b = format_attribute(attrs[k - 1], d);
        assert(x == a + b);
        lemma_part(t, p, x, 0, a.len() as int);
        assert(x.subrange(0, a.len() as int) =~= a);
        lemma_lex_attributes(schema, t, p, attrs, d, k - 1);
        lemma_part(t, p, x, a.len() as int, x.len() as int);
        assert(x.subrange(a.len() as int, x.len() as int) =~= b);
        lemma_lex_attribute(schema, t, p + a.len(), attrs[k - 1], d);
        lemma_chain(attributes_tokens(attrs, k - 1), lex_from(schema, t, p + a.len()),
            attribute_tokens(attrs[k - 1]), lex_from(schema, t, p + x.len()));
    }
}

proof fn lemma_split_at(t: Seq<char>, p: int, a: Seq<char>, b: Seq<char>)
    requires
        0 <= p,
        p + (a + b).len() <= t.len(),
        t.subrange(p, p + (a + b).len()) == a + b,
    ensures
        t.subrange(p, p + a.len()) == a,
        t.subrange(p + a.len(), p + a.len() + b.len()) == b,
{
    lemma_part(t, p, a + b, 0, a.len() as int);
    assert((a + b).subrange(0, a.len() as int) =~= a);
    lemma_part(t, p, a + b, a.len() as int, (a + b).len() as int);
    assert((a + b).subrange(a.len() as int, (a + b).len() as int) =~= b);
}

proof fn lemma_lex_node(schema: Schema, t: Seq<char>, p: int, n: NodeModel, d: nat)
    requires
        node_ok(schema, n),
        0 <= p,
        p + format_node(n, d).len() <= t.len(),
        t.subrange(p, p + format_node(n, d).len()) == format_node(n, d),
    ensures
        prepend(Seq::empty(), lex_from(schema, t, p))
            == prepend(node_tokens(n), lex_from(schema, t, p + format_node(n, d).len())),
    decreases n, 0int,
{
    match n {
        NodeModel::Text(v) => {
            let x = format_node(n, d);
            let lit = literal_text(v);
            lemma_tabs(d);
            lemma_split_at(t, p, tabs(d) + lit, seq!['\n']);
            lemma_split_at(t, p, tabs(d), lit);
            assert(t.subrange(p, p + tabs(d).len()) == tabs(d));
            assert(tabs(d).subrange(0, d as int) =~= tabs(d));
            lemma_skip_tabs(schema, t, p, tabs(d), d);
            let pos1 = p + d;
            lemma_token_literal(schema, t, pos1, v);
            lemma_lex_one(schema, t, pos1, TokenModel::Values(v), pos1 + lit.len());
            lemma_skip_one(schema, t, pos1 + lit.len(), seq!['\n'], 0);
        },
        NodeModel::Element(e) => {
            lemma_lex_element(schema, t, p, e, d);
        },
    }
}

#[verifier::rlimit(40)]
proof fn lemma_lex_element(schema: Schema, t: Seq<char>, p: int, e: ElementModel, d: nat)
    requires
        node_ok(schema, NodeModel::Element(e)),
        0 <= p,
        p + format_node(NodeModel::Element(e), d).len() <= t.len(),
        t.subrange(p, p + format_node(NodeModel::Element(e), d).len()) == format_node(NodeModel::Element(e), d),
    ensures
        prepend(Seq::empty(), lex_from(schema, t, p))
            == prepend(node_tokens(NodeModel::Element(e)), lex_from(schema, t, p + format_node(NodeModel::Element(e), d).len())),
    decreases e, 1int,
{
    let x = format_node(NodeModel::Element(e), d);
    let fa = format_attributes(e.attributes, d + 1, e.attributes.len() as int);
    let fc = format_nodes(e.children, d + 1, e.children.len() as int);
    let open = seq![' ', '{', '\n'];
    let close = seq!['}', '\n'];
    let x1 = tabs(d) + e.tag;
    let x2 = x1 + open;
    let x3 = x2 + fa;
    let x4 = x3 + fc;
    let x5 = x4 + tabs(d);
    assert(x == x5 + close);
    lemma_tabs(d);
    lemma_split_at(t, p, x5, close);
    lemma_split_at(t, p, x4, tabs(d));
    lemma_split_at(t, p, x3, fc);
    lemma_split_at(t, p, x2, fa);
    lemma_split_at(t, p, x1, open);
    lemma_split_at(t, p, tabs(d), e.tag);
    let g = e.tag.len() as int;
    let pos1 = p + d;
    let pos2 = pos1 + g + 2;
    let pos3 = pos2 + 1;
    let pos4 = pos3 + fa.len();
    let pos5 = pos4 + fc.len();
    let pos6 = pos5 + d;
    // leading tabs, then `tag {`
    assert(tabs(d).subrange(0, d as int) =~= tabs(d));
    lemma_skip_tabs(schema, t, p, tabs(d), d);
    assert(e.tag + open =~= (e.tag + seq![' ', '{']) + seq!['\n']);
    assert(t.subrange(pos1, pos1 + (e.tag + open).len()) == e.tag + open) by {
        lemma_part(t, p, x2, d as int, x2.len() as int);
        assert(x2.subrange(d as int, x2.len() as int) =~= e.tag + open);
    };
    lemma_split_at(t, pos1, e.tag + seq![' ', '{'], seq!['\n']);
    lemma_token_element(schema, t, pos1, e.tag);
    lemma_lex_one(schema, t, pos1, TokenModel::Element(e.tag), pos2);
    lemma_skip_one(schema, t, pos2, seq!['\n'], 0);
    // attribute lines, then children
    lemma_lex_attributes(schema, t, pos3, e.attributes, d + 1, e.attributes.len() as int);
    lemma_lex_nodes(schema, t, pos4, e.children, d + 1, e.children.len() as int);
    // closing line
    lemma_skip_tabs(schema, t, pos5, tabs(d), d);
    lemma_at(t, pos6, close, 0);
    lemma_token_char(schema, t, pos6, '}', TokenModel::ClosingBrace);
    lemma_lex_one(schema, t, pos6, TokenModel::ClosingBrace, pos6 + 1);
    lemma_skip_one(schema, t, pos6, close, 1);
    let ta = attributes_tokens(e.attributes, e.attributes.len() as int);
    let tc = nodes_tokens(e.children, e.children.len() as int);
    let te = seq![TokenModel::Element(e.tag)];
    lemma_chain(te, lex_from(schema, t, pos3), ta, lex_from(schema, t, pos4));
    lemma_chain(te + ta, lex_from(schema, t, pos4), tc, lex_from(schema, t, pos5));
    lemma_chain(te + ta + tc, lex_from(schema, t, pos6), seq![TokenModel::ClosingBrace], lex_from(schema, t, pos6 + 1));
}

proof fn lemma_lex_nodes(schema: Schema, t: Seq<char>, p: int, ns: Seq<NodeModel>, d: nat, k: int)
    requires
        0 <= k <= ns.len(),
        nodes_ok(schema, ns, k),
        0 <= p,
        p + format_nodes(ns, d, k).len() <= t.len(),
        t.subrange(p, p + format_nodes(ns, d, k).len()) == format_nodes(ns, d, k),
    ensures
        prepend(Seq::empty(), lex_from(schema, t, p))
            == prepend(nodes_tokens(ns, k), lex_from(schema, t, p + format_nodes(ns, d, k).len())),
    decreases ns, k,
{
    if k == 0 {
        assert(nodes_tokens(ns, k) =~= Seq::<TokenModel>::empty());
    } else {
        let x = format_nodes(ns, d, k);
        let a = format_nodes(ns, d, k - 1);
        let b = format_node(ns[k - 1], d);
        assert(x == a + b);
        lemma_part(t, p, x, 0, a.len() as int);
        assert(x.subrange(0, a.len() as int) =~= a);
        lemma_lex_nodes(schema, t, p, ns, d, k - 1);
        lemma_part(t, p, x, a.len() as int, x.len() as int);
        assert(x.subrange(a.len() as int, x.len() as int) =~= b);
        lemma_lex_node(schema, t, p + a.len(), ns[k - 1], d);
        lemma_chain(nodes_tokens(ns, k - 1), lex_from(schema, t, p + a.len()),
            node_tokens(ns[k - 1]), lex_from(schema, t, p + x.len()));
    }
}

proof fn lemma_token_rsx(schema: Schema, t: Seq<char>)
    requires
        t.len() >= 5,
        t[0] == 'r' && t[1] == 's' && t[2] == 'x' && t[3] == '!',
    ensures
        token_at(schema, t, 0) == Some((TokenModel::Rsx, 4int)),
        !is_space(t[0]),
{
    assert(name_end(t, 3) == 3);
    assert(name_end(t, 2) == 3);
    assert(name_end(t, 1) == 3);
    assert(name_end(t, 0) == 3);
    assert(blank_end(t, 3) == 3);
    assert(t.subrange(0, 4) =~= seq!['r', 's', 'x', '!']);
}

proof fn lemma_lex_head(schema: Schema, t: Seq<char>)
    requires
        t.len() >= 7,
        t.subrange(0, 7) == seq!['r', 's', 'x', '!', ' ', '{', '\n'],
    ensures
        prepend(Seq::empty(), lex_from(schema, t, 0))
            == prepend(seq![TokenModel::Rsx, TokenModel::OpeningBrace], lex_from(schema, t, 7)),
{
    let head = seq!['r', 's', 'x', '!', ' ', '{', '\n'];
    assert forall|i: int| 0 <= i < 7 implies t[i] == #[trigger] head[i] by {
        lemma_at(t, 0, head, i);
    };
    lemma_token_rsx(schema, t);
    lemma_lex_one(schema, t, 0, TokenModel::Rsx, 4);
    lemma_lex_skip(schema, t, 4, 5);
    lemma_token_char(schema, t, 5, '{', TokenModel::OpeningBrace);
    lemma_lex_one(schema, t, 5, TokenModel::OpeningBrace, 6);
    lemma_lex_skip(schema, t, 6, 7);
    lemma_chain(seq![TokenModel::Rsx], lex_from(schema, t, 5), seq![TokenModel::OpeningBrace], lex_from(schema, t, 6));
    assert(seq![TokenModel::Rsx] + seq![TokenModel::OpeningBrace] =~= seq![TokenModel::Rsx, TokenModel::OpeningBrace]);
}

/// The normalized form of a well-formed call lexes to `rsx!`, `{`, the tokens of its
/// nodes, `}`.
#[verifier::rlimit(60)]
#[verifier::spinoff_prover]
pub proof fn lemma_lex_formatted(schema: Schema, nodes: Seq<NodeModel>)
    requires
        nodes_ok(schema, nodes, nodes.len() as int),
    ensures
        prepend(Seq::empty(), lex_from(schema, format_call(nodes), 0)) == Ok::<Seq<TokenModel>, int>(
            seq![TokenModel::Rsx, TokenModel::OpeningBrace] + nodes_tokens(nodes, nodes.len() as int)
                + seq![TokenModel::ClosingBrace],
        ),
{
    let t = format_call(nodes);
    let f = format_nodes(nodes, 1, nodes.len() as int);
    let head = seq!['r', 's', 'x', '!', ' ', '{', '\n'];
    assert(t == head + f + seq!['}']);
    assert(t.subrange(0, t.len() as int) == t);
    lemma_split_at(t, 0, head + f, seq!['}']);
    lemma_split_at(t, 0, head, f);
    lemma_lex_head(schema, t);
    lemma_lex_nodes(schema, t, 7, nodes, 1, nodes.len() as int);
    let c = 7 + f.len() as int;
    lemma_at(t, c, seq!['}'], 0);
    lemma_token_char(schema, t, c, '}', TokenModel::ClosingBrace);
    lemma_lex_one(schema, t, c, TokenModel::ClosingBrace, c + 1);
    lemma_lex_end(schema, t);
    let tn = nodes_tokens(nodes, nodes.len() as int);
    lemma_chain(seq![TokenModel::Rsx, TokenModel::OpeningBrace], lex_from(schema, t, 7), tn, lex_from(schema, t, c));
    lemma_chain(seq![TokenModel::Rsx, TokenModel::OpeningBrace] + tn, lex_from(schema, t, c), seq![TokenModel::ClosingBrace],
        lex_from(schema, t, c + 1));
    assert(kinds(Seq::<(int, TokenModel, int)>::empty()) =~= Seq::<TokenModel>::empty());
    assert(seq![TokenModel::Rsx, TokenModel::OpeningBrace] + tn + seq![TokenModel::ClosingBrace] + Seq::<TokenModel>::empty()
        =~= seq![TokenModel::Rsx, TokenModel::OpeningBrace] + tn + seq![TokenModel::ClosingBrace]);
}

} // verus!

verus! {

proof fn lemma_tsplit(ts: Seq<TokenModel>, i: int, a: Seq<TokenModel>, b: Seq<TokenModel>)
    requires
        0 <= i,
        i + (a + b).len() <= ts.len(),
        ts.subrange(i, i + (a + b).len()) == a + b,
    ensures
        ts.subrange(i, i + a.len()) == a,
        ts.subrange(i + a.len(), i + a.len() + b.len()) == b,
{
    assert(ts.subrange(i, i + a.len()) =~= a) by {
        assert forall|k: int| 0 <= k < a.len() implies #[trigger] ts.subrange(i, i + a.len())[k] == a[k] by {
            assert(ts.subrange(i, i + (a + b).len())[k] == (a + b)[k]);
        };
    };
    assert(ts.subrange(i + a.len(), i + a.len() + b.len()) =~= b) by {
        assert forall|k: int| 0 <= k < b.len() implies #[trigger] ts.subrange(i + a.len(), i + a.len() + b.len())[k] == b[k] by {
            assert(ts.subrange(i, i + (a + b).len())[a.len() + k] == (a + b)[a.len() + k]);
            assert(ts.subrange(i, i + (a + b).len())[a.len() + k] == ts[i + a.len() + k]);
            assert(ts.subrange(i + a.len(), i + a.len() + b.len())[k] == ts[i + a.len() + k]);
        };
    };
}

proof fn lemma_tat(ts: Seq<TokenModel>, i: int, x: Seq<TokenModel>, k: int)
    requires
        0 <= i,
        i + x.len() <= ts.len(),
        ts.subrange(i, i + x.len()) == x,
        0 <= k < x.len(),
    ensures
        ts[i + k] == x[k],
{
    assert(ts.subrange(i, i + x.len())[k] == ts[i + k]);
}

proof fn lemma_node_tokens_start(n: NodeModel)
    ensures
        node_tokens(n).len() > 0,
        node_tokens(n)[0] is Element || node_tokens(n)[0] is Values,
{
}

proof fn lemma_parse_attributes(
    ts: Seq<TokenModel>,
    j: int,
    tag: Seq<char>,
    a0: Seq<AttributeModel>,
    c0: Seq<NodeModel>,
    attrs: Seq<AttributeModel>,
    k: int,
)
    requires
        0 <= k <= attrs.len(),
        0 <= j,
        j + attributes_tokens(attrs, k).len() <= ts.len(),
        ts.subrange(j, j + attributes_tokens(attrs, k).len()) == attributes_tokens(attrs, k),
    ensures
        attributes_tokens(attrs, k).len() == 3 * k,
        crate::parser::parse_element_body(ts, j, tag, a0, c0)
            == crate::parser::parse_element_body(ts, j + 3 * k, tag, a0 + attrs.take(k), c0),
    decreases k,
{
    if k == 0 {
        assert(a0 + attrs.take(0) =~= a0);
    } else {
        let prev = attributes_tokens(attrs, k - 1);
        let last = attribute_tokens(attrs[k - 1]);
        lemma_tsplit(ts, j, prev, last);
        lemma_parse_attributes(ts, j, tag, a0, c0, attrs, k - 1);
        let q = j + 3 * (k - 1);
        lemma_tat(ts, q, last, 0);
        lemma_tat(ts, q, last, 1);
        lemma_tat(ts, q, last, 2);
        assert((a0 + attrs.take(k - 1)).push(attrs[k - 1]) =~= a0 + attrs.take(k));
    }
}

proof fn lemma_parse_node(ts: Seq<TokenModel>, i: int, n: NodeModel)
    requires
        0 <= i,
        i + node_tokens(n).len() <= ts.len(),
        ts.subrange(i, i + node_tokens(n).len()) == node_tokens(n),
    ensures
        crate::parser::parse_node(ts, i) == Ok::<(NodeModel, int), int>((n, i + node_tokens(n).len())),
    decreases n, 0int,
{
    lemma_tat(ts, i, node_tokens(n), 0);
    match n {
        NodeModel::Text(v) => {},
        NodeModel::Element(e) => {
            let ta = attributes_tokens(e.attributes, e.attributes.len() as int);
            let tc = nodes_tokens(e.children, e.children.len() as int);
            let te = seq![TokenModel::Element(e.tag)];
            let x = node_tokens(n);
            assert(x == te + ta + tc + seq![TokenModel::ClosingBrace]);
            lemma_tsplit(ts, i, te + ta + tc, seq![TokenModel::ClosingBrace]);
            lemma_tsplit(ts, i, te + ta, tc);
            lemma_tsplit(ts, i, te, ta);
            let j1 = i + 1;
            let j2 = j1 + ta.len();
            let j3 = j2 + tc.len();
            lemma_parse_attributes(ts, j1, e.tag, Seq::empty(), Seq::empty(), e.attributes, e.attributes.len() as int);
            lemma_tat(ts, j3, seq![TokenModel::ClosingBrace], 0);
            lemma_parse_children(ts, j2, e.tag, Seq::empty() + e.attributes.take(e.attributes.len() as int), Seq::empty(),
                e.children, e.children.len() as int);
            assert(Seq::<AttributeModel>::empty() + e.attributes.take(e.attributes.len() as int) =~= e.attributes);
            assert(Seq::<NodeModel>::empty() + e.children.take(e.children.len() as int) =~= e.children);
        },
    }
}

proof fn lemma_parse_children(
    ts: Seq<TokenModel>,
    j: int,
    tag: Seq<char>,
    a0: Seq<AttributeModel>,
    c0: Seq<NodeModel>,
    cs: Seq<NodeModel>,
    k: int,
)
    requires
        0 <= k <= cs.len(),
        0 <= j,
        j + nodes_tokens(cs, k).len() < ts.len(),
        ts.subrange(j, j + nodes_tokens(cs, k).len()) == nodes_tokens(cs, k),
        !(ts[j + nodes_tokens(cs, k).len()] is Comma),
    ensures
        crate::parser::parse_element_body(ts, j, tag, a0, c0)
            == crate::parser::parse_element_body(ts, j + nodes_tokens(cs, k).len(), tag, a0, c0 + cs.take(k)),
    decreases cs, k,
{
    if k == 0 {
        assert(c0 + cs.take(0) =~= c0);
    } else {
        let prev = nodes_tokens(cs, k - 1);
        let last = node_tokens(cs[k - 1]);
        lemma_tsplit(ts, j, prev, last);
        lemma_node_tokens_start(cs[k - 1]);
        let q = j + prev.len();
        lemma_tat(ts, q, last, 0);
        lemma_parse_children(ts, j, tag, a0, c0, cs, k - 1);
        lemma_parse_node(ts, q, cs[k - 1]);
        assert((c0 + cs.take(k - 1)).push(cs[k - 1]) =~= c0 + cs.take(k));
    }
}

proof fn lemma_parse_list(ts: Seq<TokenModel>, j: int, n0: Seq<NodeModel>, ns: Seq<NodeModel>, k: int)
    requires
        0 <= k <= ns.len(),
        0 <= j,
        j + nodes_tokens(ns, k).len() <= ts.len(),
        ts.subrange(j, j + nodes_tokens(ns, k).len()) == nodes_tokens(ns, k),
    ensures
        crate::parser::parse_node_list(ts, j, n0)
            == crate::parser::parse_node_list(ts, j + nodes_tokens(ns, k).len(), n0 + ns.take(k)),
    decreases k,
{
    if k == 0 {
        assert(n0 + ns.take(0) =~= n0);
    } else {
        let prev = nodes_tokens(ns, k - 1);
        let last = node_tokens(ns[k - 1]);
        lemma_tsplit(ts, j, prev, last);
        lemma_node_tokens_start(ns[k - 1]);
        let q = j + prev.len();
        lemma_tat(ts, q, last, 0);
        lemma_parse_list(ts, j, n0, ns, k - 1);
        lemma_parse_node(ts, q, ns[k - 1]);
        assert((n0 + ns.take(k - 1)).push(ns[k - 1]) =~= n0 + ns.take(k));
    }
}

/// The tokens of a call's normalized form parse back to its nodes.
pub proof fn lemma_parse_tokens_of(nodes: Seq<NodeModel>)
    ensures
        crate::parser::parse_call(seq![TokenModel::Rsx, TokenModel::OpeningBrace] + nodes_tokens(nodes, nodes.len() as int)
            + seq![TokenModel::ClosingBrace]) == Ok::<Seq<NodeModel>, int>(nodes),
{
    let tn = nodes_tokens(nodes, nodes.len() as int);
    let ts = seq![TokenModel::Rsx, TokenModel::OpeningBrace] + tn + seq![TokenModel::ClosingBrace];
    assert(ts.subrange(2, 2 + tn.len() as int) =~= tn);
    lemma_parse_list(ts, 2, Seq::empty(), nodes, nodes.len() as int);
    assert(Seq::<NodeModel>::empty() + nodes.take(nodes.len() as int) =~= nodes);
    assert(ts[2 + tn.len() as int] == TokenModel::ClosingBrace);
}

} // verus!

verus! {

/// Formatting preserves structure: the normalized form of a well-formed call (one
/// whose names the schema knows and whose literals read back as themselves) is read
/// back as the same call.
pub proof fn lemma_format_round_trip_of_wf(schema: Schema, nodes: Seq<NodeModel>)
    requires
        nodes_ok(schema, nodes, nodes.len() as int),
    ensures
        crate::parser::parse_source(schema, format_call(nodes)) == Ok::<Seq<NodeModel>, ()>(nodes),
{
    lemma_lex_formatted(schema, nodes);
    lemma_parse_tokens_of(nodes);
    let t = format_call(nodes);
    let expected = seq![TokenModel::Rsx, TokenModel::OpeningBrace] + nodes_tokens(nodes, nodes.len() as int)
        + seq![TokenModel::ClosingBrace];
    match lex_from(schema, t, 0) {
        Ok(ts) => {
            assert(Seq::<TokenModel>::empty() + kinds(ts) == expected);
            assert(kinds(ts) =~= expected);
        },
        Err(_) => {},
    }
}

} // verus!

verus! {

/// Where the scan of a literal body stands: between characters, just after a backslash,
/// or past a character that ends or breaks the literal.
pub ghost enum ScanState {
    Fresh,
    Escaped,
    Dead,
}

pub open spec fn scan_step(s: ScanState, c: char) -> ScanState {
    match s {
        ScanState::Fresh => if c == '"' {
            ScanState::Dead
        } else if c == '\\' {
            ScanState::Escaped
        } else {
            ScanState::Fresh
        },
        ScanState::Escaped => if c == '\n' { ScanState::Dead } else { ScanState::Fresh },
        ScanState::Dead => ScanState::Dead,
    }
}

pub open spec fn scan(x: Seq<char>, s: ScanState) -> ScanState
    decreases x.len(),
{
    if x.len() == 0 {
        s
    } else {
        scan_step(scan(x.drop_last(), s), x.last())
    }
}

proof fn lemma_scan_concat(x: Seq<char>, y: Seq<char>, s: ScanState)
    ensures
        scan(x + y, s) == scan(y, scan(x, s)),
    decreases y.len(),
{
    if y.len() == 0 {
        assert(x + y == x);
    } else {
        lemma_scan_concat(x, y.drop_last(), s);
        assert((x + y).drop_last() == x + y.drop_last());
        assert((x + y).last() == y.last());
    }
}

proof fn lemma_scan_dead(y: Seq<char>)
    ensures
        scan(y, ScanState::Dead) == ScanState::Dead,
    decreases y.len(),
{
    if y.len() > 0 {
        lemma_scan_dead(y.drop_last());
    }
}

proof fn lemma_scan_one(c: char, s: ScanState)
    ensures
        scan(seq![c], s) == scan_step(s, c),
{
    assert(seq![c].drop_last() == Seq::<char>::empty());
    assert(seq![c].last() == c);
    assert(scan(Seq::<char>::empty(), s) == s);
    assert(scan(seq![c], s) == scan_step(scan(seq![c].drop_last(), s), c));
}

proof fn lemma_scan_first(x: Seq<char>, s: ScanState)
    requires
        x.len() > 0,
    ensures
        scan(x, s) == scan(x.drop_first(), scan_step(s, x[0])),
{
    lemma_scan_concat(seq![x[0]], x.drop_first(), s);
    assert(seq![x[0]] + x.drop_first() == x);
    lemma_scan_one(x[0], s);
}

proof fn lemma_scan_plain(x: Seq<char>)
    requires
        forall|i: int| 0 <= i < x.len() ==> #[trigger] x[i] != '"' && x[i] != '\\',
    ensures
        scan(x, ScanState::Fresh) == ScanState::Fresh,
    decreases x.len(),
{
    if x.len() > 0 {
        lemma_scan_plain(x.drop_last());
        assert(x.last() == x[x.len() - 1]);
    }
}

/// A literal body the scan passes whole is closed by the quote after it.
proof fn lemma_close_of_scan(t: Seq<char>, k: int, j: int)
    requires
        0 <= k <= j < t.len(),
        scan(t.subrange(k, j), ScanState::Fresh) == ScanState::Fresh,
        t[j] == '"',
    ensures
        literal_close(t, k) == Some(j + 1),
    decreases j - k,
{
    if k < j {
        let x = t.subrange(k, j);
        lemma_scan_first(x, ScanState::Fresh);
        assert(x[0] == t[k]);
        assert(x.drop_first() =~= t.subrange(k + 1, j));
        if t[k] == '"' {
            lemma_scan_dead(x.drop_first());
        } else if t[k] == '\\' {
            let y = t.subrange(k + 1, j);
            if k + 1 == j {
                assert(y.len() == 0);
            } else {
                lemma_scan_first(y, ScanState::Escaped);
                assert(y[0] == t[k + 1]);
                assert(y.drop_first() =~= t.subrange(k + 2, j));
                if t[k + 1] == '\n' {
                    lemma_scan_dead(y.drop_first());
                } else {
                    lemma_close_of_scan(t, k + 2, j);
                }
            }
        } else {
            lemma_close_of_scan(t, k + 1, j);
        }
    }
}

/// What a literal closes over is a body the scan passes whole.
proof fn lemma_scan_of_close(t: Seq<char>, k: int, e: int)
    requires
        0 <= k,
        literal_close(t, k) == Some(e),
    ensures
        k < e,
        scan(t.subrange(k, e - 1), ScanState::Fresh) == ScanState::Fresh,
    decreases t.len() - k,
{
    crate::lexer::lemma_literal_close(t, k);
    if t[k] == '"' {
        assert(t.subrange(k, e - 1).len() == 0);
    } else if t[k] == '\\' {
        lemma_scan_of_close(t, k + 2, e);
        crate::lexer::lemma_literal_close(t, k + 2);
        let x = t.subrange(k, e - 1);
        lemma_scan_first(x, ScanState::Fresh);
        assert(x[0] == t[k]);
        let y = x.drop_first();
        assert(y =~= t.subrange(k + 1, e - 1));
        lemma_scan_first(y, ScanState::Escaped);
        assert(y[0] == t[k + 1]);
        assert(y.drop_first() =~= t.subrange(k + 2, e - 1));
    } else {
        lemma_scan_of_close(t, k + 1, e);
        let x = t.subrange(k, e - 1);
        lemma_scan_first(x, ScanState::Fresh);
        assert(x[0] == t[k]);
        assert(x.drop_first() =~= t.subrange(k + 1, e - 1));
    }
}

} // verus!

verus! {

proof fn lemma_raw_constant(b: Seq<char>, i: int)
    requires
        0 <= i <= b.len(),
    ensures
        crate::fragment::constant_end(b, i) <= b.len(),
        b.subrange(i, crate::fragment::constant_end(b, i)) == crate::ast::escape_braces(crate::fragment::constant_text(b, i)),
    decreases b.len() - i,
{
    let k = crate::fragment::constant_step(b, i);
    crate::fragment::lemma_constant_end_bounds(b, i);
    if k > 0 {
        lemma_raw_constant(b, i + k);
        crate::fragment::lemma_constant_end_bounds(b, i + k);
        let ce = crate::fragment::constant_end(b, i);
        let r = crate::fragment::constant_text(b, i + k);
        crate::fragment::lemma_escape_concat(seq![b[i]], r);
        assert(seq![b[i]].drop_last() == Seq::<char>::empty());
        assert(seq![b[i]].last() == b[i]);
        assert(crate::ast::escape_braces(Seq::<char>::empty()) == Seq::<char>::empty());
        assert(crate::ast::escape_braces(seq![b[i]]) == crate::ast::escape_braces(Seq::<char>::empty()) + crate::ast::escape_char(b[i]));
        assert(crate::ast::escape_braces(seq![b[i]]) =~= crate::ast::escape_char(b[i]));
        assert(b.subrange(i, i + k) =~= crate::ast::escape_char(b[i]));
        assert(b.subrange(i, ce) =~= b.subrange(i, i + k) + b.subrange(i + k, ce));
    } else {
        assert(b.subrange(i, i).len() == 0);
    }
}

proof fn lemma_scan_placeholder(b: Seq<char>, i: int, s: ScanState)
    requires
        0 <= i < b.len(),
        crate::fragment::placeholder_at(b, i) is Some,
        s != ScanState::Dead,
    ensures
        ({
            let (name, e) = crate::fragment::placeholder_at(b, i)->Some_0;
            &&& i < e <= b.len()
            &&& scan(b.subrange(i, e), s) == ScanState::Fresh || scan(b.subrange(i, e), s) == ScanState::Dead
            &&& scan(crate::ast::placeholder(name), s) == ScanState::Fresh
        }),
{
    let (name, e) = crate::fragment::placeholder_at(b, i)->Some_0;
    crate::fragment::lemma_placeholder_end(b, i);
    crate::text::lemma_word_end_bounds(b, i + 1);
    let j = crate::text::word_end(b, i + 1);
    assert(name == b.subrange(i + 1, j));
    lemma_scan_one('{', s);
    assert(scan(seq!['{'], s) == ScanState::Fresh);
    assert forall|c: int| 0 <= c < name.len() implies #[trigger] name[c] != '"' && name[c] != '\\' by {
        assert(name[c] == b[i + 1 + c]);
    };
    lemma_scan_plain(name);
    lemma_scan_one('}', ScanState::Fresh);
    lemma_scan_concat(seq!['{'], name, s);
    lemma_scan_concat(seq!['{'] + name, seq!['}'], s);
    let front = b.subrange(i, j);
    assert(front =~= seq!['{'] + name);
    if b[j] == '}' {
        assert(b.subrange(i, e) =~= front + seq!['}']);
    } else {
        let k = crate::fragment::format_spec_end(b, j + 1);
        crate::fragment::lemma_format_spec_end_bounds(b, j + 1);
        let spec = b.subrange(j + 1, k);
        assert(b.subrange(i, e) =~= front + seq![':'] + spec + seq!['}']);
        lemma_scan_one(':', ScanState::Fresh);
        lemma_scan_concat(front, seq![':'], s);
        lemma_scan_concat(front + seq![':'], spec, s);
        lemma_scan_concat(front + seq![':'] + spec, seq!['}'], s);
        let st = scan(spec, ScanState::Fresh);
        lemma_scan_one('}', st);
    }
}

proof fn lemma_no_error_rest(f: crate::ast::ValueModel, rest: Seq<crate::ast::ValueModel>)
    requires
        !crate::fragment::has_error(seq![f] + rest),
    ensures
        !crate::fragment::has_error(rest),
        !(f is Error),
{
    let all = seq![f] + rest;
    if crate::fragment::has_error(rest) {
        let k = choose|k: int| 0 <= k < rest.len() && #[trigger] rest[k] is Error;
        assert(all[k + 1] == rest[k]);
    }
    assert(all[0] == f);
}

/// Writing the fragments back changes no scan state that the body itself keeps alive:
/// constant runs come back as they were, and a placeholder ends fresh either way.
proof fn lemma_render_scan(b: Seq<char>, i: int, s: ScanState)
    requires
        0 <= i <= b.len(),
        s != ScanState::Dead,
        !crate::fragment::has_error(crate::fragment::fragments_from(b, i)),
        scan(b.subrange(i, b.len() as int), s) != ScanState::Dead,
    ensures
        scan(crate::ast::source_fragments(crate::fragment::fragments_from(b, i)), s) == scan(b.subrange(i, b.len() as int), s),
    decreases b.len() - i,
{
    let fs = crate::fragment::fragments_from(b, i);
    let whole = b.subrange(i, b.len() as int);
    if i == b.len() {
        assert(fs.len() == 0);
        assert(whole.len() == 0);
        assert(crate::ast::source_fragments(fs) == Seq::<char>::empty());
    } else {
        crate::fragment::lemma_placeholder_end(b, i);
        crate::fragment::lemma_constant_end_bounds(b, i);
        crate::fragment::lemma_source_first(fs);
        match crate::fragment::placeholder_at(b, i) {
            Some((name, e)) => {
                let rest = crate::fragment::fragments_from(b, e);
                assert(fs == seq![crate::ast::ValueModel::Variable(name)] + rest);
                assert(fs.drop_first() =~= rest);
                lemma_no_error_rest(crate::ast::ValueModel::Variable(name), rest);
                lemma_scan_placeholder(b, i, s);
                assert(whole =~= b.subrange(i, e) + b.subrange(e, b.len() as int));
                lemma_scan_concat(b.subrange(i, e), b.subrange(e, b.len() as int), s);
                let mid = scan(b.subrange(i, e), s);
                if mid == ScanState::Dead {
                    lemma_scan_dead(b.subrange(e, b.len() as int));
                }
                lemma_render_scan(b, e, ScanState::Fresh);
                lemma_scan_concat(crate::ast::placeholder(name), crate::ast::source_fragments(rest), s);
            },
            None => {
                if crate::fragment::constant_step(b, i) > 0 {
                    let ce = crate::fragment::constant_end(b, i);
                    let text = crate::fragment::constant_text(b, i);
                    let rest = crate::fragment::fragments_from(b, ce);
                    assert(fs == seq![crate::ast::ValueModel::Constant(text)] + rest);
                    assert(fs.drop_first() =~= rest);
                    lemma_no_error_rest(crate::ast::ValueModel::Constant(text), rest);
                    lemma_raw_constant(b, i);
                    let raw = b.subrange(i, ce);
                    assert(whole =~= raw + b.subrange(ce, b.len() as int));
                    lemma_scan_concat(raw, b.subrange(ce, b.len() as int), s);
                    let mid = scan(raw, s);
                    if mid == ScanState::Dead {
                        lemma_scan_dead(b.subrange(ce, b.len() as int));
                    }
                    lemma_render_scan(b, ce, mid);
                    lemma_scan_concat(raw, crate::ast::source_fragments(rest), s);
                } else {
                    let rest = crate::fragment::fragments_from(b, i + 1);
                    assert(fs == seq![crate::ast::ValueModel::Error] + rest);
                    lemma_no_error_rest(crate::ast::ValueModel::Error, rest);
                }
            },
        }
    }
}

} // verus!

verus! {

proof fn lemma_literal_token_ok(body: Seq<char>)
    requires
        scan(body, ScanState::Fresh) == ScanState::Fresh,
        !crate::fragment::has_error(fragments_of(body)),
    ensures
        literal_ok(ValuesModel { prefix: quote(), fragments: fragments_of(body), suffix: quote() }),
{
    let fs = fragments_of(body);
    let r = source_fragments(fs);
    crate::fragment::lemma_fragments_round_trip(body);
    assert(body.subrange(0, body.len() as int) == body);
    lemma_render_scan(body, 0, ScanState::Fresh);
    let t = r + quote();
    assert(t.subrange(0, r.len() as int) =~= r);
    assert(t[r.len() as int] == '"');
    lemma_close_of_scan(t, 0, r.len() as int);
}

pub open spec fn token_ok(schema: Schema, t: TokenModel) -> bool {
    match t {
        TokenModel::Element(n) => name_ok(n) && schema.has_element(n),
        TokenModel::Attribute(n) => name_ok(n) && schema.has_attribute(n),
        TokenModel::Values(v) => literal_ok(v),
        _ => true,
    }
}

/// No literal among the tokens holds a stray brace.
pub open spec fn literals_clean(ts: Seq<(int, TokenModel, int)>) -> bool {
    forall|k: int| 0 <= k < ts.len() ==> ((#[trigger] ts[k]).1 matches TokenModel::Values(v) ==> !crate::fragment::has_error(v.fragments))
}

/// Source text none of whose literals holds a stray brace (a single `{` or `}` that
/// neither opens a placeholder nor is doubled).
pub open spec fn literals_without_stray_braces(schema: Schema, s: Seq<char>) -> bool {
    match crate::lexer::lex(schema, s) {
        Ok(ts) => literals_clean(ts),
        Err(_) => true,
    }
}

proof fn lemma_token_ok_at(schema: Schema, s: Seq<char>, p: int)
    requires
        0 <= p < s.len(),
        token_at(schema, s, p) is Some,
        token_at(schema, s, p)->Some_0.0 matches TokenModel::Values(v) ==> !crate::fragment::has_error(v.fragments),
    ensures
        token_ok(schema, token_at(schema, s, p)->Some_0.0),
{
    let (t, e) = token_at(schema, s, p)->Some_0;
    lemma_name_end(s, p);
    if s[p] == '"' {
        let e2 = literal_close(s, p + 1)->Some_0;
        lemma_scan_of_close(s, p + 1, e2);
        lemma_literal_token_ok(s.subrange(p + 1, e2 - 1));
    } else if is_name_char(s[p]) {
        let j = name_end(s, p);
        let n = s.subrange(p, j);
        assert forall|i: int| 0 <= i < n.len() implies is_name_char(#[trigger] n[i]) by {
            assert(n[i] == s[p + i]);
        };
    }
}

proof fn lemma_lex_tokens_ok(schema: Schema, s: Seq<char>, i: int)
    requires
        0 <= i,
        lex_from(schema, s, i) is Ok,
        literals_clean(lex_from(schema, s, i)->Ok_0),
    ensures
        forall|k: int| 0 <= k < lex_from(schema, s, i)->Ok_0.len() ==> token_ok(schema, (#[trigger] lex_from(schema, s, i)->Ok_0[k]).1),
    decreases s.len() - i,
{
    let ts = lex_from(schema, s, i)->Ok_0;
    crate::lexer::lemma_space_end(s, i);
    let p = space_end(s, i);
    if p < s.len() {
        crate::lexer::lemma_token_end(schema, s, p);
        let (t, e) = token_at(schema, s, p)->Some_0;
        let rest = lex_from(schema, s, e)->Ok_0;
        assert(ts == seq![(p, t, e)] + rest);
        assert(literals_clean(rest)) by {
            assert forall|k: int| 0 <= k < rest.len() implies ((#[trigger] rest[k]).1 matches TokenModel::Values(v) ==> !crate::fragment::has_error(v.fragments)) by {
                assert(ts[k + 1] == rest[k]);
            };
        };
        assert(ts[0] == (p, t, e));
        lemma_token_ok_at(schema, s, p);
        lemma_lex_tokens_ok(schema, s, e);
        assert forall|k: int| 0 <= k < ts.len() implies token_ok(schema, (#[trigger] ts[k]).1) by {
            if k > 0 {
                assert(ts[k] == rest[k - 1]);
            }
        };
    }
}

pub open spec fn tokens_ok(schema: Schema, ks: Seq<TokenModel>) -> bool {
    forall|k: int| 0 <= k < ks.len() ==> token_ok(schema, #[trigger] ks[k])
}

proof fn lemma_nodes_ok_prefix(schema: Schema, a: Seq<NodeModel>, b: Seq<NodeModel>, k: int)
    requires
        0 <= k <= a.len(),
        k <= b.len(),
        forall|i: int| 0 <= i < k ==> a[i] == b[i],
    ensures
        nodes_ok(schema, a, k) == nodes_ok(schema, b, k),
    decreases k,
{
    if k > 0 {
        lemma_nodes_ok_prefix(schema, a, b, k - 1);
    }
}

proof fn lemma_nodes_ok_push(schema: Schema, c: Seq<NodeModel>, n: NodeModel)
    requires
        nodes_ok(schema, c, c.len() as int),
        node_ok(schema, n),
    ensures
        nodes_ok(schema, c.push(n), c.push(n).len() as int),
{
    lemma_nodes_ok_prefix(schema, c, c.push(n), c.len() as int);
}

proof fn lemma_parsed_node_ok(schema: Schema, ts: Seq<TokenModel>, i: int)
    requires
        tokens_ok(schema, ts),
        crate::parser::parse_node(ts, i) is Ok,
    ensures
        node_ok(schema, crate::parser::parse_node(ts, i)->Ok_0.0),
    decreases ts.len() - i, 0int,
{
    if 0 <= i < ts.len() {
        assert(token_ok(schema, ts[i]));
        if let TokenModel::Element(tag) = ts[i] {
            lemma_parsed_body_ok(schema, ts, i + 1, tag, Seq::empty(), Seq::empty());
        }
    }
}

proof fn lemma_parsed_body_ok(
    schema: Schema,
    ts: Seq<TokenModel>,
    i: int,
    tag: Seq<char>,
    attrs: Seq<AttributeModel>,
    children: Seq<NodeModel>,
)
    requires
        tokens_ok(schema, ts),
        name_ok(tag),
        schema.has_element(tag),
        forall|k: int| 0 <= k < attrs.len() ==> attribute_ok(schema, #[trigger] attrs[k]),
        nodes_ok(schema, children, children.len() as int),
        crate::parser::parse_element_body(ts, i, tag, attrs, children) is Ok,
    ensures
        node_ok(schema, NodeModel::Element(crate::parser::parse_element_body(ts, i, tag, attrs, children)->Ok_0.0)),
    decreases ts.len() - i, 1int,
{
    if 0 <= i < ts.len() {
        assert(token_ok(schema, ts[i]));
        match ts[i] {
            TokenModel::ClosingBrace => {},
            TokenModel::Attribute(name) => {
                assert(token_ok(schema, ts[i + 1]));
                if let TokenModel::Values(v) = ts[i + 1] {
                    let a = AttributeModel { name, value: v };
                    let attrs2 = attrs.push(a);
                    assert forall|k: int| 0 <= k < attrs2.len() implies attribute_ok(schema, #[trigger] attrs2[k]) by {
                        if k < attrs.len() {
                            assert(attrs2[k] == attrs[k]);
                        }
                    };
                    lemma_parsed_body_ok(schema, ts, crate::parser::skip_comma(ts, i + 2), tag, attrs2, children);
                }
            },
            TokenModel::Element(_) | TokenModel::Values(_) => {
                lemma_parsed_node_ok(schema, ts, i);
                let (n, j) = crate::parser::parse_node(ts, i)->Ok_0;
                if i < j <= ts.len() {
                    lemma_nodes_ok_push(schema, children, n);
                    lemma_parsed_body_ok(schema, ts, crate::parser::skip_comma(ts, j), tag, attrs, children.push(n));
                }
            },
            _ => {},
        }
    }
}

proof fn lemma_parsed_list_ok(schema: Schema, ts: Seq<TokenModel>, i: int, nodes: Seq<NodeModel>)
    requires
        tokens_ok(schema, ts),
        nodes_ok(schema, nodes, nodes.len() as int),
        crate::parser::parse_node_list(ts, i, nodes) is Ok,
    ensures
        ({
            let r = crate::parser::parse_node_list(ts, i, nodes)->Ok_0;
            nodes_ok(schema, r, r.len() as int)
        }),
    decreases ts.len() - i,
{
    if 0 <= i < ts.len() {
        match ts[i] {
            TokenModel::ClosingBrace => {},
            TokenModel::Comma => {
                lemma_parsed_list_ok(schema, ts, i + 1, nodes);
            },
            _ => {
                lemma_parsed_node_ok(schema, ts, i);
                let (n, j) = crate::parser::parse_node(ts, i)->Ok_0;
                if i < j <= ts.len() {
                    lemma_nodes_ok_push(schema, nodes, n);
                    lemma_parsed_list_ok(schema, ts, j, nodes.push(n));
                }
            },
        }
    }
}

/// Formatting is idempotent and structure preserving: for source text that reads as a
/// call, and whose literals hold no stray brace, the call's normalized form reads back
/// as the same call.
pub proof fn lemma_format_round_trip(schema: Schema, s: Seq<char>)
    requires
        crate::parser::parse_source(schema, s) is Ok,
        literals_without_stray_braces(schema, s),
    ensures
        crate::parser::parse_source(schema, format_call(crate::parser::parse_source(schema, s)->Ok_0))
            == crate::parser::parse_source(schema, s),
{
    let ts = crate::lexer::lex(schema, s)->Ok_0;
    let ks = kinds(ts);
    let nodes = crate::parser::parse_source(schema, s)->Ok_0;
    lemma_lex_tokens_ok(schema, s, 0);
    assert(tokens_ok(schema, ks)) by {
        assert forall|k: int| 0 <= k < ks.len() implies token_ok(schema, #[trigger] ks[k]) by {
            assert(ks[k] == ts[k].1);
        };
    };
    assert(crate::parser::parse_call(ks) == Ok::<Seq<NodeModel>, int>(nodes));
    assert(nodes_ok(schema, Seq::<NodeModel>::empty(), 0));
    lemma_parsed_list_ok(schema, ks, 2, Seq::empty());
    lemma_format_round_trip_of_wf(schema, nodes);
}

} // verus!
