use vstd::prelude::*;
use crate::ast::{Value, ValueModel, escape_braces, escape_char, source_fragments, source_value};
use crate::text::{is_word_char, word_char, word_end, lemma_word_end_bounds, chars_of, slice_string};

verus! {

pub open spec fn is_brace(c: char) -> bool {
    c == '{' || c == '}'
}

/// End of a placeholder's format spec: the first brace at or after `i`.
pub open spec fn format_spec_end(s: Seq<char>, i: int) -> int
    decreases s.len() - i,
{
    if 0 <= i < s.len() && !is_brace(s[i]) {
        format_spec_end(s, i + 1)
    } else {
        i
    }
}

/// The placeholder that starts at `i`, if one does: `{name}` or `{name:spec}`, where
/// `name` is a non-empty run of word characters and `spec` holds no brace.
/// Gives the name and the position just after the closing brace.
pub open spec fn placeholder_at(s: Seq<char>, i: int) -> Option<(Seq<char>, int)> {
    if 0 <= i < s.len() && s[i] == '{' {
        let j = word_end(s, i + 1);
        if j > i + 1 && j < s.len() && s[j] == '}' {
            Some((s.subrange(i + 1, j), j + 1))
        } else if j > i + 1 && j < s.len() && s[j] == ':' {
            let k = format_spec_end(s, j + 1);
            if k < s.len() && s[k] == '}' {
                Some((s.subrange(i + 1, j), k + 1))
            } else {
                None
            }
        } else {
            None
        }
    } else {
        None
    }
}

/// Length of the unit of constant text at `i`: 1 for a character that is no brace,
/// 2 for a doubled brace, 0 where no constant text starts.
pub open spec fn constant_step(s: Seq<char>, i: int) -> int {
    if 0 <= i < s.len() && !is_brace(s[i]) {
        1
    } else if 0 <= i && i + 1 < s.len() && is_brace(s[i]) && s[i + 1] == s[i] {
        2
    } else {
        0
    }
}

/// End of the longest run of constant text that starts at `i`.
pub open spec fn constant_end(s: Seq<char>, i: int) -> int
    decreases s.len() - i,
{
    if constant_step(s, i) > 0 {
        constant_end(s, i + constant_step(s, i))
    } else {
        i
    }
}

/// The text of that run, each doubled brace read as one.
pub open spec fn constant_text(s: Seq<char>, i: int) -> Seq<char>
    decreases s.len() - i,
{
    if constant_step(s, i) > 0 {
        seq![s[i]] + constant_text(s, i + constant_step(s, i))
    } else {
        Seq::empty()
    }
}

/// The fragments of the literal interior `s` from position `i` on. A placeholder is
/// tried first; else the longest run of constant text; else the character is a stray
/// brace and gives `Error`.
pub open spec fn fragments_from(s: Seq<char>, i: int) -> Seq<ValueModel>
    decreases s.len() - i
    via fragments_from_decreases
{
    if i < 0 || i >= s.len() {
        Seq::empty()
    } else {
        match placeholder_at(s, i) {
            Some((name, e)) => seq![ValueModel::Variable(name)] + fragments_from(s, e),
            None => if constant_step(s, i) > 0 {
                seq![ValueModel::Constant(constant_text(s, i))] + fragments_from(s, constant_end(s, i))
            } else {
                seq![ValueModel::Error] + fragments_from(s, i + 1)
            },
        }
    }
}

/// The fragments of a whole literal interior.
pub open spec fn fragments_of(s: Seq<char>) -> Seq<ValueModel> {
    fragments_from(s, 0)
}

#[via_fn]
proof fn fragments_from_decreases(s: Seq<char>, i: int) {
    if 0 <= i < s.len() {
        lemma_placeholder_end(s, i);
        lemma_constant_end_bounds(s, i);
    }
}

pub proof fn lemma_format_spec_end_bounds(s: Seq<char>, i: int)
    requires
        0 <= i <= s.len(),
    ensures
        i <= format_spec_end(s, i) <= s.len(),
        forall|k: int| i <= k < format_spec_end(s, i) ==> !is_brace(#[trigger] s[k]),
        format_spec_end(s, i) < s.len() ==> is_brace(s[format_spec_end(s, i)]),
    decreases s.len() - i,
{
    if i < s.len() && !is_brace(s[i]) {
        lemma_format_spec_end_bounds(s, i + 1);
    }
}

pub proof fn lemma_placeholder_end(s: Seq<char>, i: int)
    requires
        0 <= i < s.len(),
    ensures
        placeholder_at(s, i) matches Some((n, e)) ==> i + 2 < e <= s.len() && n.len() > 0,
{
    if s[i] == '{' {
        lemma_word_end_bounds(s, i + 1);
        let j = word_end(s, i + 1);
        if j > i + 1 && j < s.len() && s[j] == ':' {
            lemma_format_spec_end_bounds(s, j + 1);
        }
    }
}

pub proof fn lemma_constant_end_bounds(s: Seq<char>, i: int)
    requires
        0 <= i <= s.len(),
    ensures
        i <= constant_end(s, i) <= s.len(),
        constant_step(s, i) > 0 ==> constant_end(s, i) > i,
    decreases s.len() - i,
{
    if constant_step(s, i) > 0 {
        lemma_constant_end_bounds(s, i + constant_step(s, i));
    }
}

fn word_end_exec(s: &Vec<char>, i: usize) -> (r: usize)
    requires
        i <= s@.len(),
    ensures
        r == word_end(s@, i as int),
{
    let mut j = i;
    while j < s.len() && word_char(s[j])
        invariant
            i <= j <= s@.len(),
            word_end(s@, j as int) == word_end(s@, i as int),
        decreases s@.len() - j,
    {
        j = j + 1;
    }
    j
}

fn format_spec_end_exec(s: &Vec<char>, i: usize) -> (r: usize)
    requires
        i <= s@.len(),
    ensures
        r == format_spec_end(s@, i as int),
{
    let mut j = i;
    while j < s.len() && s[j] != '{' && s[j] != '}'
        invariant
            i <= j <= s@.len(),
            format_spec_end(s@, j as int) == format_spec_end(s@, i as int),
        decreases s@.len() - j,
    {
        j = j + 1;
    }
    j
}

/// End of the placeholder at `i`, if one starts there.
fn placeholder_end(s: &Vec<char>, i: usize) -> (r: Option<usize>)
    requires
        i < s@.len(),
    ensures
        r == (match placeholder_at(s@, i as int) {
            Some((_, e)) => Some(e as usize),
            None => None::<usize>,
        }),
        r matches Some(e) ==> placeholder_at(s@, i as int) == Some((s@.subrange(i + 1, word_end(s@, i + 1)), e as int)),
{
    proof {
        lemma_placeholder_end(s@, i as int);
        lemma_word_end_bounds(s@, i + 1);
    }
    let n = s.len();
    if s[i] != '{' {
        return None;
    }
    let j = word_end_exec(s, i + 1);
    if j > i + 1 && j < s.len() && s[j] == '}' {
        Some(j + 1)
    } else if j > i + 1 && j < s.len() && s[j] == ':' {
        proof {
            lemma_format_spec_end_bounds(s@, j + 1);
        }
        let k = format_spec_end_exec(s, j + 1);
        if k < s.len() && s[k] == '}' {
            Some(k + 1)
        } else {
            None
        }
    } else {
        None
    }
}

fn constant_step_exec(s: &Vec<char>, i: usize) -> (r: usize)
    requires
        i <= s@.len(),
    ensures
        r as int == constant_step(s@, i as int),
{
    if i < s.len() && s[i] != '{' && s[i] != '}' {
        1
    } else if i < s.len() && i + 1 < s.len() && s[i + 1] == s[i] {
        2
    } else {
        0
    }
}

/// The run of constant text at `i`, decoded, and its end.
fn scan_constant(src: &str, s: &Vec<char>, i: usize) -> (r: (String, usize))
    requires
        s@ == src@,
        i <= s@.len(),
    ensures
        r.0@ == constant_text(s@, i as int),
        r.1 as int == constant_end(s@, i as int),
{
    let n = s.len();
    let mut out = String::new();
    let mut start = i;
    let mut j = i;
    loop
        invariant
            n == s@.len(),
            s@ == src@,
            i <= start <= j <= s@.len(),
            out@ + s@.subrange(start as int, j as int) + constant_text(s@, j as int)
                == constant_text(s@, i as int),
            constant_end(s@, j as int) == constant_end(s@, i as int),
        ensures
            i <= start <= j <= s@.len(),
            out@ + s@.subrange(start as int, j as int) + constant_text(s@, j as int)
                == constant_text(s@, i as int),
            constant_end(s@, j as int) == constant_end(s@, i as int),
            constant_step(s@, j as int) == 0,
        decreases s@.len() - j,
    {
        let k = constant_step_exec(s, j);
        if k == 0 {
            break;
        }
        if k == 1 {
            assert(s@.subrange(start as int, j + 1) == s@.subrange(start as int, j as int) + seq![s@[j as int]]);
            j = j + 1;
        } else {
            out.append(src.substring_char(start, j + 1));
            assert(s@.subrange(start as int, j + 1) == s@.subrange(start as int, j as int) + seq![s@[j as int]]);
            j = j + 2;
            start = j;
            assert(s@.subrange(start as int, j as int) =~= Seq::<char>::empty());
        }
    }
    out.append(src.substring_char(start, j));
    assert(constant_text(s@, j as int) =~= Seq::<char>::empty());
    (out, j)
}

/// Splits the interior of a literal into fragments (see `fragments_of`).
pub fn lex_fragments(interior: &str) -> (r: Vec<Value>)
    ensures
        r@.map_values(|v: Value| v@) == fragments_of(interior@),
{
    let s = chars_of(interior);
    let n = s.len();
    let mut out: Vec<Value> = Vec::new();
    let mut i: usize = 0;
    while i < n
        invariant
            s@ == interior@,
            n == s@.len(),
            i <= n,
            out@.map_values(|v: Value| v@) + fragments_from(s@, i as int) == fragments_of(interior@),
        decreases n - i,
    {
        let ghost before = out@.map_values(|v: Value| v@);
        proof {
            lemma_placeholder_end(s@, i as int);
            lemma_constant_end_bounds(s@, i as int);
            lemma_word_end_bounds(s@, i + 1);
        }
        match placeholder_end(&s, i) {
            Some(e) => {
                let j = word_end_exec(&s, i + 1);
                let name = slice_string(interior, i + 1, j);
                out.push(Value::Variable(name));
                assert(out@.map_values(|v: Value| v@) == before + seq![ValueModel::Variable(name@)]);
                i = e;
            },
            None => {
                let k = constant_step_exec(&s, i);
                if k > 0 {
                    let (text, e) = scan_constant(interior, &s, i);
                    out.push(Value::Constant(text));
                    assert(out@.map_values(|v: Value| v@) == before + seq![ValueModel::Constant(text@)]);
                    i = e;
                } else {
                    out.push(Value::Error);
                    assert(out@.map_values(|v: Value| v@) == before + seq![ValueModel::Error]);
                    i = i + 1;
                }
            },
        }
    }
    assert(fragments_from(s@, i as int) == Seq::<ValueModel>::empty());
    out
}

} // verus!

verus! {

/// The fragment sequences the lexer can give: every placeholder name is a non-empty
/// run of word characters, every constant is non-empty, and no constant follows
/// another.
#[verifier::opaque]
pub open spec fn fragments_wf(fs: Seq<ValueModel>) -> bool {
    &&& forall|k: int| 0 <= k < fs.len() ==> match #[trigger] fs[k] {
        ValueModel::Variable(n) => n.len() > 0 && forall|c: int| 0 <= c < n.len() ==> is_word_char(#[trigger] n[c]),
        ValueModel::Constant(t) => t.len() > 0,
        ValueModel::Error => true,
    }
    &&& forall|k: int| 0 <= k < fs.len() - 1 ==> (#[trigger] fs[k] is Constant ==> !(fs[k + 1] is Constant))
}

pub open spec fn has_error(fs: Seq<ValueModel>) -> bool {
    exists|k: int| 0 <= k < fs.len() && #[trigger] fs[k] is Error
}

proof fn lemma_constant_stops(s: Seq<char>, i: int)
    requires
        0 <= i <= s.len(),
    ensures
        constant_step(s, constant_end(s, i)) == 0,
        constant_step(s, i) > 0 ==> constant_text(s, i).len() > 0,
    decreases s.len() - i,
{
    if constant_step(s, i) > 0 {
        lemma_constant_stops(s, i + constant_step(s, i));
    }
}

pub(crate) proof fn lemma_fragments_from_wf(s: Seq<char>, i: int)
    requires
        0 <= i <= s.len(),
    ensures
        fragments_wf(fragments_from(s, i)),
        fragments_from(s, i).len() > 0 && fragments_from(s, i)[0] is Constant ==> constant_step(s, i) > 0,
    decreases s.len() - i,
{
    reveal(fragments_wf);
    if i < s.len() {
        lemma_placeholder_end(s, i);
        lemma_constant_end_bounds(s, i);
        let fs = fragments_from(s, i);
        match placeholder_at(s, i) {
            Some((name, e)) => {
                lemma_fragments_from_wf(s, e);
                reveal(fragments_wf);
                lemma_word_end_bounds(s, i + 1);
                let j = word_end(s, i + 1);
                assert forall|c: int| 0 <= c < name.len() implies is_word_char(#[trigger] name[c]) by {
                    assert(name[c] == s[i + 1 + c]);
                };
                assert(fs == seq![ValueModel::Variable(name)] + fragments_from(s, e));
                assert forall|k: int| 0 <= k < fs.len() - 1 implies (#[trigger] fs[k] is Constant ==> !(fs[k + 1] is Constant)) by {
                    if k > 0 {
                        assert(fs[k] == fragments_from(s, e)[k - 1]);
                        assert(fs[k + 1] == fragments_from(s, e)[k]);
                    }
                };
                assert forall|k: int| 0 <= k < fs.len() implies match #[trigger] fs[k] {
                    ValueModel::Variable(n) => n.len() > 0 && forall|c: int| 0 <= c < n.len() ==> is_word_char(#[trigger] n[c]),
                    ValueModel::Constant(t) => t.len() > 0,
                    ValueModel::Error => true,
                } by {
                    if k > 0 {
                        assert(fs[k] == fragments_from(s, e)[k - 1]);
                    }
                };
            },
            None => {
                let e = if constant_step(s, i) > 0 { constant_end(s, i) } else { i + 1 };
                lemma_fragments_from_wf(s, e);
                reveal(fragments_wf);
                lemma_constant_stops(s, i);
                let rest = fragments_from(s, e);
                if constant_step(s, i) > 0 {
                    // the fragment after a constant starts where no constant text starts
                    assert(rest.len() > 0 ==> !(rest[0] is Constant));
                }
                assert(fs == seq![fs[0]] + rest);
                assert forall|k: int| 0 <= k < fs.len() - 1 implies (#[trigger] fs[k] is Constant ==> !(fs[k + 1] is Constant)) by {
                    assert(fs[k + 1] == rest[k]);
                    if k > 0 {
                        assert(fs[k] == rest[k - 1]);
                    }
                };
                assert forall|k: int| 0 <= k < fs.len() implies match #[trigger] fs[k] {
                    ValueModel::Variable(n) => n.len() > 0 && forall|c: int| 0 <= c < n.len() ==> is_word_char(#[trigger] n[c]),
                    ValueModel::Constant(t) => t.len() > 0,
                    ValueModel::Error => true,
                } by {
                    if k > 0 {
                        assert(fs[k] == rest[k - 1]);
                    }
                };
            },
        }
    }
}

/// A placeholder gives only its identifier: whatever format spec follows the name is
/// dropped, so every extracted name is a non-empty run of word characters.
pub proof fn lemma_placeholder_names_are_identifiers(s: Seq<char>)
    ensures
        forall|k: int| 0 <= k < fragments_of(s).len() ==> (#[trigger] fragments_of(s)[k] matches ValueModel::Variable(n)
            ==> n.len() > 0 && forall|c: int| 0 <= c < n.len() ==> is_word_char(#[trigger] n[c])),
{
    lemma_fragments_from_wf(s, 0);
    reveal(fragments_wf);
}

} // verus!

verus! {

pub(crate) proof fn lemma_escape_concat(a: Seq<char>, b: Seq<char>)
    ensures
        escape_braces(a + b) == escape_braces(a) + escape_braces(b),
    decreases b.len(),
{
    if b.len() == 0 {
        assert(a + b == a);
    } else {
        lemma_escape_concat(a, b.drop_last());
        assert((a + b).drop_last() == a + b.drop_last());
        assert((a + b).last() == b.last());
    }
}

pub(crate) proof fn lemma_escape_first(c: Seq<char>)
    requires
        c.len() > 0,
    ensures
        escape_braces(c) == escape_char(c[0]) + escape_braces(c.drop_first()),
{
    lemma_escape_concat(seq![c[0]], c.drop_first());
    assert(seq![c[0]] + c.drop_first() == c);
    assert(seq![c[0]].drop_last() == Seq::<char>::empty());
    assert(seq![c[0]].last() == c[0]);
    assert(escape_braces(Seq::<char>::empty()) == Seq::<char>::empty());
    assert(escape_braces(seq![c[0]]) == escape_braces(Seq::<char>::empty()) + escape_char(c[0]));
    assert(escape_braces(seq![c[0]]) =~= escape_char(c[0]));
}

proof fn lemma_source_concat(a: Seq<ValueModel>, b: Seq<ValueModel>)
    ensures
        source_fragments(a + b) == source_fragments(a) + source_fragments(b),
    decreases b.len(),
{
    if b.len() == 0 {
        assert(a + b == a);
    } else {
        lemma_source_concat(a, b.drop_last());
        assert((a + b).drop_last() == a + b.drop_last());
        assert((a + b).last() == b.last());
    }
}

pub(crate) proof fn lemma_source_first(fs: Seq<ValueModel>)
    requires
        fs.len() > 0,
    ensures
        source_fragments(fs) == source_value(fs[0]) + source_fragments(fs.drop_first()),
{
    lemma_source_concat(seq![fs[0]], fs.drop_first());
    assert(seq![fs[0]] + fs.drop_first() == fs);
    assert(seq![fs[0]].drop_last() == Seq::<ValueModel>::empty());
    assert(seq![fs[0]].last() == fs[0]);
    assert(source_fragments(Seq::<ValueModel>::empty()) == Seq::<char>::empty());
    assert(source_fragments(seq![fs[0]]) == source_fragments(Seq::<ValueModel>::empty()) + source_value(fs[0]));
    assert(source_fragments(seq![fs[0]]) =~= source_value(fs[0]));
}

/// Escaped text followed by a point where no constant text starts is read back as one
/// run of constant text holding the characters it was written from.
proof fn lemma_scan_escaped(t: Seq<char>, p: int, c: Seq<char>)
    requires
        0 <= p,
        p + escape_braces(c).len() <= t.len(),
        t.subrange(p, p + escape_braces(c).len()) == escape_braces(c),
        constant_step(t, p + escape_braces(c).len()) == 0,
    ensures
        constant_end(t, p) == p + escape_braces(c).len(),
        constant_text(t, p) == c,
    decreases c.len(),
{
    let q = p + escape_braces(c).len();
    if c.len() == 0 {
    } else {
        lemma_escape_first(c);
        let e1 = escape_char(c[0]);
        let rest = c.drop_first();
        assert(t[p] == escape_braces(c)[0]);
        assert(t.subrange(p + e1.len(), q) == escape_braces(rest)) by {
            assert(t.subrange(p + e1.len(), q) =~= escape_braces(c).subrange(e1.len() as int, escape_braces(c).len() as int));
        };
        if e1.len() == 2 {
            assert(t[p + 1] == escape_braces(c)[1]);
        }
        assert(constant_step(t, p) == e1.len());
        lemma_scan_escaped(t, p + e1.len(), rest);
        assert(c == seq![c[0]] + rest);
    }
}

proof fn lemma_split(t: Seq<char>, p: int, a: Seq<char>, b: Seq<char>)
    requires
        0 <= p <= t.len(),
        t.subrange(p, t.len() as int) == a + b,
    ensures
        t.subrange(p, p + a.len()) == a,
        t.subrange(p + a.len(), t.len() as int) == b,
        p + a.len() <= t.len(),
{
    assert(t.subrange(p, p + a.len()) =~= (a + b).subrange(0, a.len() as int));
    assert(t.subrange(p + a.len(), t.len() as int) =~= (a + b).subrange(a.len() as int, (a + b).len() as int));
}

proof fn lemma_wf_at(fs: Seq<ValueModel>, k: int)
    requires
        fragments_wf(fs),
        0 <= k < fs.len(),
    ensures
        fs[k] matches ValueModel::Variable(n) ==> n.len() > 0 && forall|c: int| 0 <= c < n.len() ==> is_word_char(#[trigger] n[c]),
        fs[k] matches ValueModel::Constant(t) ==> t.len() > 0,
        k + 1 < fs.len() && fs[k] is Constant ==> !(fs[k + 1] is Constant),
{
    reveal(fragments_wf);
}

proof fn lemma_wf_rest(fs: Seq<ValueModel>)
    requires
        fs.len() > 0,
        fragments_wf(fs),
        !has_error(fs),
    ensures
        fragments_wf(fs.drop_first()),
        !has_error(fs.drop_first()),
{
    reveal(fragments_wf);
    let rest = fs.drop_first();
    assert forall|k: int| 0 <= k < rest.len() implies match #[trigger] rest[k] {
        ValueModel::Variable(n) => n.len() > 0 && forall|c: int| 0 <= c < n.len() ==> is_word_char(#[trigger] n[c]),
        ValueModel::Constant(t) => t.len() > 0,
        ValueModel::Error => true,
    } by {
        assert(rest[k] == fs[k + 1]);
    };
    assert forall|k: int| 0 <= k < rest.len() - 1 implies (#[trigger] rest[k] is Constant ==> !(rest[k + 1] is Constant)) by {
        assert(rest[k] == fs[k + 1]);
        assert(rest[k + 1] == fs[k + 2]);
    };
    if has_error(rest) {
        let k = choose|k: int| 0 <= k < rest.len() && #[trigger] rest[k] is Error;
        assert(fs[k + 1] == rest[k]);
    }
}

proof fn lemma_relex_placeholder(t: Seq<char>, p: int, n: Seq<char>)
    requires
        0 <= p,
        p + n.len() + 2 <= t.len(),
        n.len() > 0,
        forall|c: int| 0 <= c < n.len() ==> is_word_char(#[trigger] n[c]),
        t.subrange(p, p + n.len() + 2) == seq!['{'] + n + seq!['}'],
    ensures
        placeholder_at(t, p) == Some((n, p + n.len() + 2)),
{
    let head = seq!['{'] + n + seq!['}'];
    assert(t[p] == '{') by {
        assert(t[p] == head[0]);
    };
    let j = p + 1 + n.len();
    assert(t[j] == '}') by {
        assert(t[j] == head[n.len() as int + 1]);
    };
    assert forall|k: int| p + 1 <= k < j implies is_word_char(#[trigger] t[k]) by {
        assert(t[k] == head[k - p]);
        assert(head[k - p] == n[k - p - 1]);
    };
    crate::text::lemma_word_end_of_run(t, p + 1, j);
    assert(t.subrange(p + 1, j) =~= n) by {
        assert forall|k: int| 0 <= k < n.len() implies t.subrange(p + 1, j)[k] == n[k] by {
            assert(t[p + 1 + k] == head[k + 1]);
        };
    };
}

/// Text written from well-formed fragments without stray braces is read back as those
/// fragments.
pub(crate) proof fn lemma_relex(t: Seq<char>, p: int, fs: Seq<ValueModel>)
    requires
        fragments_wf(fs),
        !has_error(fs),
        0 <= p <= t.len(),
        t.subrange(p, t.len() as int) == source_fragments(fs),
    ensures
        fragments_from(t, p) == fs,
    decreases fs.len(),
{
    if fs.len() == 0 {
        assert(t.subrange(p, t.len() as int).len() == 0);
    } else {
        lemma_source_first(fs);
        lemma_wf_rest(fs);
        lemma_wf_at(fs, 0);
        let rest = fs.drop_first();
        let head = source_value(fs[0]);
        lemma_split(t, p, head, source_fragments(rest));
        let q = p + head.len();
        assert(fs == seq![fs[0]] + rest);
        match fs[0] {
            ValueModel::Variable(n) => {
                lemma_relex_placeholder(t, p, n);
                lemma_relex(t, q, rest);
            },
            ValueModel::Constant(c) => {
                lemma_relex_constant(t, p, fs);
                lemma_relex(t, q, rest);
            },
            ValueModel::Error => {
                assert(has_error(fs));
            },
        }
    }
}

proof fn lemma_relex_constant(t: Seq<char>, p: int, fs: Seq<ValueModel>)
    requires
        fs.len() > 0,
        fs[0] is Constant,
        fragments_wf(fs),
        !has_error(fs),
        0 <= p <= t.len(),
        t.subrange(p, t.len() as int) == source_fragments(fs),
    ensures
        ({
            let c = fs[0]->Constant_0;
            &&& placeholder_at(t, p) is None
            &&& constant_step(t, p) > 0
            &&& constant_end(t, p) == p + escape_braces(c).len()
            &&& constant_text(t, p) == c
        }),
{
    let c = fs[0]->Constant_0;
    lemma_source_first(fs);
    lemma_wf_at(fs, 0);
    let rest = fs.drop_first();
    let head = escape_braces(c);
    lemma_split(t, p, head, source_fragments(rest));
    let q = p + head.len();
    lemma_escape_first(c);
    assert(t[p] == head[0]) by {
        assert(t[p] == t.subrange(p, q)[0]);
    };
    if c[0] == '{' {
        assert(t[p + 1] == head[1]) by {
            assert(t[p + 1] == t.subrange(p, q)[1]);
        };
        assert(word_end(t, p + 1) == p + 1);
    }
    if rest.len() > 0 {
        lemma_wf_at(fs, 1);
        assert(rest[0] == fs[1]);
        assert(!(fs[1] is Error)) by {
            if fs[1] is Error {
                assert(has_error(fs));
            }
        };
        lemma_source_first(rest);
        let n = rest[0]->Variable_0;
        assert(t[q] == '{') by {
            assert(t[q] == t.subrange(q, t.len() as int)[0]);
        };
        assert(t[q + 1] == n[0]) by {
            assert(t[q + 1] == t.subrange(q, t.len() as int)[1]);
        };
    } else {
        assert(q == t.len());
    }
    assert(constant_step(t, q) == 0);
    lemma_scan_escaped(t, p, c);
}

/// Writing a literal's fragments back as literal text and lexing that text again gives
/// the same fragments, wherever the literal held no stray brace.
pub proof fn lemma_fragments_round_trip(s: Seq<char>)
    requires
        !has_error(fragments_of(s)),
    ensures
        fragments_of(source_fragments(fragments_of(s))) == fragments_of(s),
{
    lemma_fragments_from_wf(s, 0);
    let t = source_fragments(fragments_of(s));
    assert(t.subrange(0, t.len() as int) == t);
    lemma_relex(t, 0, fragments_of(s));
}

/// Doubled braces are read as single literal braces: any non-empty text written with
/// its braces doubled is one constant fragment holding that text.
pub proof fn lemma_doubled_braces_are_constant(c: Seq<char>)
    requires
        c.len() > 0,
    ensures
        fragments_of(escape_braces(c)) == seq![ValueModel::Constant(c)],
{
    let fs = seq![ValueModel::Constant(c)];
    assert(fs.drop_last() == Seq::<ValueModel>::empty());
    assert(fs.last() == ValueModel::Constant(c));
    assert(source_fragments(Seq::<ValueModel>::empty()) == Seq::<char>::empty());
    assert(source_fragments(fs) == source_fragments(Seq::<ValueModel>::empty()) + escape_braces(c));
    assert(source_fragments(fs) =~= escape_braces(c));
    let t = escape_braces(c);
    assert(t.subrange(0, t.len() as int) == t);
    assert(!has_error(fs));
    assert(fragments_wf(fs)) by {
        reveal(fragments_wf);
    };
    lemma_relex(t, 0, fs);
}

} // verus!
