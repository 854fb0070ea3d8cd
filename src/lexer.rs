use vstd::prelude::*;
use crate::ast::{Values, ValuesModel};
use crate::fragment::{fragments_of, lex_fragments};
use crate::schema::Schema;
use crate::text::{is_word_char, word_char, chars_of, slice_string, byte_offset, byte_offset_of};

verus! {

/// A token of markup source.
#[derive(Debug, Clone, PartialEq)]
pub enum Token {
    /// A double-quoted literal, split into delimiters and fragments.
    Values(Values),
    /// `name:`, where `name` is in the attribute table.
    Attribute(String),
    /// `tag {`, where `tag` is in the element table.
    Element(String),
    Rsx,
    OpeningBrace,
    ClosingBrace,
    QuestionMark,
    Comma,
    Pound,
}

pub ghost enum TokenModel {
    Values(ValuesModel),
    Attribute(Seq<char>),
    Element(Seq<char>),
    Rsx,
    OpeningBrace,
    ClosingBrace,
    QuestionMark,
    Comma,
    Pound,
}

impl View for Token {
    type V = TokenModel;

    open spec fn view(&self) -> TokenModel {
        match self {
            Token::Values(v) => TokenModel::Values(v@),
            Token::Attribute(n) => TokenModel::Attribute(n@),
            Token::Element(n) => TokenModel::Element(n@),
            Token::Rsx => TokenModel::Rsx,
            Token::OpeningBrace => TokenModel::OpeningBrace,
            Token::ClosingBrace => TokenModel::ClosingBrace,
            Token::QuestionMark => TokenModel::QuestionMark,
            Token::Comma => TokenModel::Comma,
            Token::Pound => TokenModel::Pound,
        }
    }
}

/// Source text that no token pattern matches, at the given byte offset. A tag or an
/// attribute name missing from its table falls under it.
#[derive(Debug, Clone, PartialEq)]
pub enum LexicalError {
    InvalidToken(usize),
}

pub open spec fn is_space(c: char) -> bool {
    c == ' ' || c == '\t' || c == '\n' || c == '\x0C' || c == '\r'
}

/// A character of a tag or attribute name (which admits raw forms such as `r#type`).
pub open spec fn is_name_char(c: char) -> bool {
    is_word_char(c) || c == '#'
}

pub open spec fn space_end(s: Seq<char>, i: int) -> int
    decreases s.len() - i,
{
    if 0 <= i < s.len() && is_space(s[i]) {
        space_end(s, i + 1)
    } else {
        i
    }
}

pub open spec fn name_end(s: Seq<char>, i: int) -> int
    decreases s.len() - i,
{
    if 0 <= i < s.len() && is_name_char(s[i]) {
        name_end(s, i + 1)
    } else {
        i
    }
}

pub open spec fn blank_end(s: Seq<char>, i: int) -> int
    decreases s.len() - i,
{
    if 0 <= i < s.len() && s[i] == ' ' {
        blank_end(s, i + 1)
    } else {
        i
    }
}

/// Position just after the closing quote of a literal whose body starts at `i`: the
/// body holds characters other than `"` and `\`, and escapes `\c` where `c` is no
/// line feed.
pub open spec fn literal_close(s: Seq<char>, i: int) -> Option<int>
    decreases s.len() - i,
{
    if i < 0 || i >= s.len() {
        None
    } else if s[i] == '"' {
        Some(i + 1)
    } else if s[i] == '\\' {
        if i + 1 < s.len() && s[i + 1] != '\n' {
            literal_close(s, i + 2)
        } else {
            None
        }
    } else {
        literal_close(s, i + 1)
    }
}

pub open spec fn quote() -> Seq<char> {
    seq!['"']
}

pub open spec fn starts_rsx(s: Seq<char>, i: int) -> bool {
    0 <= i && i + 4 <= s.len() && s.subrange(i, i + 4) == seq!['r', 's', 'x', '!']
}

/// The token that starts at `i` (which holds no whitespace) and its end, or none where
/// no pattern matches. A name followed by blanks and `:` or `{` is an attribute or an
/// element, and fails where the name is missing from its table.
pub open spec fn token_at(schema: Schema, s: Seq<char>, i: int) -> Option<(TokenModel, int)> {
    if i < 0 || i >= s.len() {
        None
    } else if s[i] == '"' {
        match literal_close(s, i + 1) {
            Some(e) => Some((
                TokenModel::Values(
                    ValuesModel { prefix: quote(), fragments: fragments_of(s.subrange(i + 1, e - 1)), suffix: quote() },
                ),
                e,
            )),
            None => None,
        }
    } else if is_name_char(s[i]) && blank_end(s, name_end(s, i)) < s.len()
        && (s[blank_end(s, name_end(s, i))] == ':' || s[blank_end(s, name_end(s, i))] == '{') {
        let j = name_end(s, i);
        let k = blank_end(s, j);
        let name = s.subrange(i, j);
        if s[k] == ':' {
            if schema.has_attribute(name) { Some((TokenModel::Attribute(name), k + 1)) } else { None }
        } else {
            if schema.has_element(name) { Some((TokenModel::Element(name), k + 1)) } else { None }
        }
    } else if starts_rsx(s, i) {
        Some((TokenModel::Rsx, i + 4))
    } else if s[i] == '#' {
        Some((TokenModel::Pound, i + 1))
    } else if s[i] == '{' {
        Some((TokenModel::OpeningBrace, i + 1))
    } else if s[i] == '}' {
        Some((TokenModel::ClosingBrace, i + 1))
    } else if s[i] == '?' {
        Some((TokenModel::QuestionMark, i + 1))
    } else if s[i] == ',' {
        Some((TokenModel::Comma, i + 1))
    } else {
        None
    }
}

/// The tokens of `s` from `i` on, with the character positions where each starts and
/// ends; or the position of the first text that is no token. Whitespace between
/// tokens is skipped.
pub open spec fn lex_from(schema: Schema, s: Seq<char>, i: int) -> Result<Seq<(int, TokenModel, int)>, int>
    decreases s.len() - i
    via lex_from_decreases
{
    let p = space_end(s, i);
    if i < 0 || p >= s.len() {
        Ok(Seq::empty())
    } else {
        match token_at(schema, s, p) {
            None => Err(p),
            Some((t, e)) => match lex_from(schema, s, e) {
                Ok(rest) => Ok(seq![(p, t, e)] + rest),
                Err(q) => Err(q),
            },
        }
    }
}

/// The tokens of the whole of `s`.
pub open spec fn lex(schema: Schema, s: Seq<char>) -> Result<Seq<(int, TokenModel, int)>, int> {
    lex_from(schema, s, 0)
}

/// The token kinds of a lexed sequence, without positions.
pub open spec fn kinds(ts: Seq<(int, TokenModel, int)>) -> Seq<TokenModel> {
    ts.map_values(|t: (int, TokenModel, int)| t.1)
}

#[via_fn]
proof fn lex_from_decreases(schema: Schema, s: Seq<char>, i: int) {
    if i >= 0 {
        lemma_space_end(s, i);
        let p = space_end(s, i);
        if p < s.len() {
            lemma_token_end(schema, s, p);
        }
    }
}

pub proof fn lemma_space_end(s: Seq<char>, i: int)
    requires
        0 <= i,
    ensures
        i <= space_end(s, i),
        i <= s.len() ==> space_end(s, i) <= s.len(),
        space_end(s, i) < s.len() ==> !is_space(s[space_end(s, i)]),
    decreases s.len() - i,
{
    if 0 <= i < s.len() && is_space(s[i]) {
        lemma_space_end(s, i + 1);
    }
}

pub proof fn lemma_name_end(s: Seq<char>, i: int)
    requires
        0 <= i <= s.len(),
    ensures
        i <= name_end(s, i) <= s.len(),
        forall|k: int| i <= k < name_end(s, i) ==> is_name_char(#[trigger] s[k]),
        name_end(s, i) < s.len() ==> !is_name_char(s[name_end(s, i)]),
    decreases s.len() - i,
{
    if i < s.len() && is_name_char(s[i]) {
        lemma_name_end(s, i + 1);
    }
}

pub proof fn lemma_blank_end(s: Seq<char>, i: int)
    requires
        0 <= i <= s.len(),
    ensures
        i <= blank_end(s, i) <= s.len(),
        forall|k: int| i <= k < blank_end(s, i) ==> #[trigger] s[k] == ' ',
        blank_end(s, i) < s.len() ==> s[blank_end(s, i)] != ' ',
    decreases s.len() - i,
{
    if i < s.len() && s[i] == ' ' {
        lemma_blank_end(s, i + 1);
    }
}

pub proof fn lemma_literal_close(s: Seq<char>, i: int)
    requires
        0 <= i,
    ensures
        literal_close(s, i) matches Some(e) ==> i < e <= s.len() && s[e - 1] == '"',
    decreases s.len() - i,
{
    if 0 <= i < s.len() && s[i] != '"' {
        if s[i] == '\\' {
            if i + 1 < s.len() && s[i + 1] != '\n' {
                lemma_literal_close(s, i + 2);
            }
        } else {
            lemma_literal_close(s, i + 1);
        }
    }
}

pub proof fn lemma_token_end(schema: Schema, s: Seq<char>, i: int)
    requires
        0 <= i < s.len(),
    ensures
        token_at(schema, s, i) matches Some((t, e)) ==> i < e <= s.len(),
{
    lemma_literal_close(s, i + 1);
    lemma_name_end(s, i);
    lemma_blank_end(s, name_end(s, i));
}

fn space_end_exec(s: &Vec<char>, i: usize) -> (r: usize)
    requires
        i <= s@.len(),
    ensures
        r == space_end(s@, i as int),
{
    let mut j = i;
    while j < s.len() && (s[j] == ' ' || s[j] == '\t' || s[j] == '\n' || s[j] == '\x0C' || s[j] == '\r')
        invariant
            i <= j <= s@.len(),
            space_end(s@, j as int) == space_end(s@, i as int),
        decreases s@.len() - j,
    {
        j = j + 1;
    }
    j
}

fn name_end_exec(s: &Vec<char>, i: usize) -> (r: usize)
    requires
        i <= s@.len(),
    ensures
        r == name_end(s@, i as int),
{
    let mut j = i;
    while j < s.len() && (word_char(s[j]) || s[j] == '#')
        invariant
            i <= j <= s@.len(),
            name_end(s@, j as int) == name_end(s@, i as int),
        decreases s@.len() - j,
    {
        j = j + 1;
    }
    j
}

fn blank_end_exec(s: &Vec<char>, i: usize) -> (r: usize)
    requires
        i <= s@.len(),
    ensures
        r == blank_end(s@, i as int),
{
    let mut j = i;
    while j < s.len() && s[j] == ' '
        invariant
            i <= j <= s@.len(),
            blank_end(s@, j as int) == blank_end(s@, i as int),
        decreases s@.len() - j,
    {
        j = j + 1;
    }
    j
}

fn literal_close_exec(s: &Vec<char>, i: usize) -> (r: Option<usize>)
    requires
        i <= s@.len(),
    ensures
        r == (match literal_close(s@, i as int) {
            Some(e) => Some(e as usize),
            None => None::<usize>,
        }),
{
    let n = s.len();
    let mut j = i;
    while j < n
        invariant
            n == s@.len(),
            i <= j,
            literal_close(s@, j as int) == literal_close(s@, i as int),
        decreases n - j,
    {
        if s[j] == '"' {
            return Some(j + 1);
        } else if s[j] == '\\' {
            if j + 1 < n && s[j + 1] != '\n' {
                j = j + 2;
            } else {
                return None;
            }
        } else {
            j = j + 1;
        }
    }
    None
}

fn starts_rsx_exec(s: &Vec<char>, i: usize) -> (r: bool)
    requires
        i <= s@.len(),
    ensures
        r == starts_rsx(s@, i as int),
{
    if i < s.len() && s.len() - i >= 4 && s[i] == 'r' && s[i + 1] == 's' && s[i + 2] == 'x' && s[i + 3] == '!' {
        assert(s@.subrange(i as int, i + 4) =~= seq!['r', 's', 'x', '!']);
        true
    } else {
        proof {
            if starts_rsx(s@, i as int) {
                assert(s@.subrange(i as int, i + 4)[0] == s@[i as int]);
                assert(s@.subrange(i as int, i + 4)[1] == s@[i + 1]);
                assert(s@.subrange(i as int, i + 4)[2] == s@[i + 2]);
                assert(s@.subrange(i as int, i + 4)[3] == s@[i + 3]);
            }
        }
        false
    }
}

/// A literal's token, from its opening quote at `i` to `e`.
fn literal_token(input: &str, i: usize, e: usize) -> (r: Token)
    requires
        i + 2 <= e <= input@.len(),
    ensures
        r@ == TokenModel::Values(
            ValuesModel { prefix: quote(), fragments: fragments_of(input@.subrange(i + 1, e - 1)), suffix: quote() },
        ),
{
    proof {
        reveal_strlit("\"");
    }
    let body = input.substring_char(i + 1, e - 1);
    let fragments = lex_fragments(body);
    let v = Values(String::from_str("\""), fragments, String::from_str("\""));
    assert("\""@ =~= quote());
    assert(v@.fragments == fragments_of(input@.subrange(i + 1, e - 1)));
    Token::Values(v)
}

/// The token at `i`, which holds no whitespace, and its end.
fn token_at_exec(schema: &Schema, input: &str, s: &Vec<char>, i: usize) -> (r: Option<(Token, usize)>)
    requires
        s@ == input@,
        i < s@.len(),
    ensures
        r matches Some((t, e)) ==> token_at(*schema, s@, i as int) == Some((t@, e as int)),
        r is None ==> token_at(*schema, s@, i as int) is None,
{
    proof {
        lemma_literal_close(s@, i + 1);
        lemma_name_end(s@, i as int);
        lemma_blank_end(s@, name_end(s@, i as int));
    }
    let n = s.len();
    let c = s[i];
    if c == '"' {
        match literal_close_exec(s, i + 1) {
            Some(e) => Some((literal_token(input, i, e), e)),
            None => None,
        }
    } else {
        let j = name_end_exec(s, i);
        let k = blank_end_exec(s, j);
        if (word_char(c) || c == '#') && k < s.len() && (s[k] == ':' || s[k] == '{') {
            let name = slice_string(input, i, j);
            if s[k] == ':' {
                if schema.is_attribute(&name) {
                    Some((Token::Attribute(name), k + 1))
                } else {
                    None
                }
            } else {
                if schema.is_element(&name) {
                    Some((Token::Element(name), k + 1))
                } else {
                    None
                }
            }
        } else if starts_rsx_exec(s, i) {
            Some((Token::Rsx, i + 4))
        } else if c == '#' {
            Some((Token::Pound, i + 1))
        } else if c == '{' {
            Some((Token::OpeningBrace, i + 1))
        } else if c == '}' {
            Some((Token::ClosingBrace, i + 1))
        } else if c == '?' {
            Some((Token::QuestionMark, i + 1))
        } else if c == ',' {
            Some((Token::Comma, i + 1))
        } else {
            None
        }
    }
}

} // verus!

verus! {

/// A token with the byte offsets where it starts and ends.
pub type SpannedToken = (usize, Token, usize);

pub open spec fn spanned_view(v: Seq<SpannedToken>) -> Seq<(usize, TokenModel, usize)> {
    v.map_values(|t: SpannedToken| (t.0, t.1@, t.2))
}

/// Lexed tokens with their character positions turned into byte offsets.
pub open spec fn byte_spans(s: Seq<char>, ts: Seq<(int, TokenModel, int)>) -> Seq<(usize, TokenModel, usize)> {
    ts.map_values(|t: (int, TokenModel, int)| (byte_offset(s, t.0) as usize, t.1, byte_offset(s, t.2) as usize))
}

pub open spec fn then_lexed(done: Seq<(int, TokenModel, int)>, rest: Result<Seq<(int, TokenModel, int)>, int>) -> Result<Seq<(int, TokenModel, int)>, int> {
    match rest {
        Ok(r) => Ok(done + r),
        Err(p) => Err(p),
    }
}

/// Scans source text one token at a time.
pub struct Lexer<'a> {
    pub input: &'a str,
    pub chars: Vec<char>,
    pub schema: &'a Schema,
    /// Character position from which the next token is scanned.
    pub pos: usize,
}

impl<'a> Lexer<'a> {
    pub open spec fn wf(&self) -> bool {
        self.chars@ == self.input@ && self.pos <= self.input@.len()
    }

    pub fn new(input: &'a str, schema: &'a Schema) -> (r: Lexer<'a>)
        ensures
            r.wf(),
            r.input == input,
            r.schema == schema,
            r.pos == 0,
    {
        Lexer { input, chars: chars_of(input), schema, pos: 0 }
    }

    /// The next token, `None` at the end of the input, or the error at the first text
    /// that is no token. After an error the lexer is at the end of the input.
    pub fn next_token(&mut self) -> (r: Option<Result<SpannedToken, LexicalError>>)
        requires
            old(self).wf(),
        ensures
            final(self).wf(),
            final(self).input == old(self).input,
            final(self).schema == old(self).schema,
            ({
                let s = old(self).input@;
                let p = space_end(s, old(self).pos as int);
                if p >= s.len() {
                    r is None && final(self).pos == old(self).pos
                } else {
                    match token_at(*old(self).schema, s, p) {
                        None => r == Some(Err::<SpannedToken, LexicalError>(LexicalError::InvalidToken(byte_offset(s, p) as usize)))
                            && final(self).pos == s.len(),
                        Some((t, e)) => (r matches Some(Ok(st)) && st.0 == byte_offset(s, p) as usize
                            && st.1@ == t && st.2 == byte_offset(s, e) as usize) && final(self).pos == e,
                    }
                }
            }),
    {
        proof {
            lemma_space_end(self.input@, self.pos as int);
        }
        let p = space_end_exec(&self.chars, self.pos);
        if p >= self.chars.len() {
            return None;
        }
        proof {
            lemma_token_end(*self.schema, self.input@, p as int);
        }
        match token_at_exec(self.schema, self.input, &self.chars, p) {
            None => {
                let off = byte_offset_of(self.input, p);
                self.pos = self.chars.len();
                Some(Err(LexicalError::InvalidToken(off)))
            },
            Some((t, e)) => {
                let start = byte_offset_of(self.input, p);
                let end = byte_offset_of(self.input, e);
                self.pos = e;
                Some(Ok((start, t, end)))
            },
        }
    }
}

/// All tokens of `input` with their byte spans, or the error at the first text that
/// is no token.
pub fn tokenize(input: &str, schema: &Schema) -> (r: Result<Vec<SpannedToken>, LexicalError>)
    ensures
        match lex(*schema, input@) {
            Ok(ts) => r matches Ok(v) && spanned_view(v@) == byte_spans(input@, ts),
            Err(p) => r == Err::<Vec<SpannedToken>, LexicalError>(LexicalError::InvalidToken(byte_offset(input@, p) as usize)),
        },
{
    let mut lexer = Lexer::new(input, schema);
    let mut out: Vec<SpannedToken> = Vec::new();
    let ghost mut done: Seq<(int, TokenModel, int)> = Seq::empty();
    loop
        invariant
            lexer.wf(),
            lexer.input == input,
            lexer.schema == schema,
            then_lexed(done, lex_from(*schema, input@, lexer.pos as int)) == lex(*schema, input@),
            spanned_view(out@) == byte_spans(input@, done),
            out@.len() == done.len(),
        decreases input@.len() - lexer.pos,
    {
        let ghost before = lexer.pos as int;
        proof {
            lemma_space_end(input@, before);
            let p = space_end(input@, before);
            if p < input@.len() {
                lemma_token_end(*schema, input@, p);
            }
        }
        match lexer.next_token() {
            None => {
                assert(lex_from(*schema, input@, before) == Ok::<Seq<(int, TokenModel, int)>, int>(Seq::empty()));
                assert(done + Seq::<(int, TokenModel, int)>::empty() == done);
                return Ok(out);
            },
            Some(Err(e)) => {
                return Err(e);
            },
            Some(Ok(st)) => {
                let ghost p = space_end(input@, before);
                let ghost t = token_at(*schema, input@, p).unwrap();
                let ghost old_out = out@;
                let ghost old_done = done;
                proof {
                    let x = (p, t.0, t.1);
                    assert(lexer.pos == t.1);
                    match lex_from(*schema, input@, lexer.pos as int) {
                        Ok(rest) => {
                            assert(done + (seq![x] + rest) == (done + seq![x]) + rest);
                        },
                        Err(_) => {},
                    }
                    assert(then_lexed(done + seq![x], lex_from(*schema, input@, lexer.pos as int))
                        == then_lexed(done, lex_from(*schema, input@, before)));
                    done = done + seq![x];
                }
                out.push(st);
                assert(out@ == old_out.push(st));
                assert(st.0 == byte_offset(input@, p) as usize && st.1@ == t.0 && st.2 == byte_offset(input@, t.1) as usize);
                assert forall|k: int| 0 <= k < out@.len() implies #[trigger] spanned_view(out@)[k] == byte_spans(input@, done)[k] by {
                    if k < old_out.len() {
                        assert(out@[k] == old_out[k]);
                        assert(spanned_view(old_out)[k] == byte_spans(input@, old_done)[k]);
                        assert(done[k] == old_done[k]);
                    } else {
                        assert(done[k] == (p, t.0, t.1));
                    }
                };
                assert(spanned_view(out@) =~= byte_spans(input@, done));
            },
        }
    }
}

} // verus!

verus! {

/// A name followed by blanks and `{` whose name is missing from the element table is no
/// token: lexing fails right there, it is never read as some generic element.
pub proof fn lemma_unknown_tag_rejected(schema: Schema, s: Seq<char>, p: int)
    requires
        0 <= p < s.len(),
        is_name_char(s[p]),
        blank_end(s, name_end(s, p)) < s.len(),
        s[blank_end(s, name_end(s, p))] == '{',
        !schema.has_element(s.subrange(p, name_end(s, p))),
    ensures
        token_at(schema, s, p) is None,
        lex_from(schema, s, p) == Err::<Seq<(int, TokenModel, int)>, int>(p),
{
    assert(space_end(s, p) == p);
}

/// Likewise a name followed by blanks and `:` whose name is missing from the attribute
/// table: lexing fails right there.
pub proof fn lemma_unknown_attribute_rejected(schema: Schema, s: Seq<char>, p: int)
    requires
        0 <= p < s.len(),
        is_name_char(s[p]),
        blank_end(s, name_end(s, p)) < s.len(),
        s[blank_end(s, name_end(s, p))] == ':',
        !schema.has_attribute(s.subrange(p, name_end(s, p))),
    ensures
        token_at(schema, s, p) is None,
        lex_from(schema, s, p) == Err::<Seq<(int, TokenModel, int)>, int>(p),
{
    assert(space_end(s, p) == p);
}

} // verus!
