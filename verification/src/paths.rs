//! How the steps of a path expression combine: a dot splits a lookup in two.
use vstd::prelude::*;
use crate::json::{JsonV, get_key};
use crate::token::{Tok, ErrV};
use crate::query::{FailV, PanicV};
use crate::lexer::{key_end, number_end, lex_string, lex_query, lex_tokens, lex};
use crate::get::{get_outcome, walk};
use crate::laws::is_key_text;

verus! {

/// The result with its position moved on by `n`.
pub open spec fn shifted<A>(r: Result<(A, int), ErrV>, n: int) -> Result<(A, int), ErrV> {
    match r {
        Ok((a, j)) => Ok((a, j + n)),
        Err(e) => Err(e),
    }
}

/// The tokens with `pre` before them.
pub open spec fn after(pre: Seq<Tok>, r: Result<Seq<Tok>, ErrV>) -> Result<Seq<Tok>, ErrV> {
    match r {
        Ok(ts) => Ok(pre + ts),
        Err(e) => Err(e),
    }
}

proof fn lemma_key_end_shift(p: Seq<char>, s: Seq<char>, i: int)
    requires
        0 <= i,
    ensures
        key_end(p + s, p.len() + i) == p.len() + key_end(s, i),
    decreases s.len() - i,
{
    let t = p + s;
    if i < s.len() {
        assert(t[p.len() + i] == s[i]);
        lemma_key_end_shift(p, s, i + 1);
    }
}

proof fn lemma_key_end_bound(s: Seq<char>, i: int)
    requires
        0 <= i <= s.len(),
    ensures
        i <= key_end(s, i) <= s.len(),
    decreases s.len() - i,
{
    if i < s.len() {
        lemma_key_end_bound(s, i + 1);
    }
}

proof fn lemma_number_end_bound(s: Seq<char>, i: int)
    requires
        0 <= i <= s.len(),
    ensures
        i <= number_end(s, i) <= s.len(),
    decreases s.len() - i,
{
    if i < s.len() {
        lemma_number_end_bound(s, i + 1);
    }
}

proof fn lemma_number_end_shift(p: Seq<char>, s: Seq<char>, i: int)
    requires
        0 <= i,
    ensures
        number_end(p + s, p.len() + i) == p.len() + number_end(s, i),
    decreases s.len() - i,
{
    let t = p + s;
    if i < s.len() {
        assert(t[p.len() + i] == s[i]);
        lemma_number_end_shift(p, s, i + 1);
    }
}

proof fn lemma_string_shift(p: Seq<char>, s: Seq<char>, i: int, acc: Seq<char>, slash: bool)
    requires
        0 <= i,
    ensures
        lex_string(p + s, p.len() + i, acc, slash) == shifted(lex_string(s, i, acc, slash), p.len() as int),
    decreases s.len() - i,
{
    let t = p + s;
    if i < s.len() {
        assert(t[p.len() + i] == s[i]);
        let c = s[i];
        if c == '\\' {
            lemma_string_shift(p, s, i + 1, acc.push('\\'), true);
        } else if c == '"' {
            if slash {
                lemma_string_shift(p, s, i + 1, acc.push('"'), false);
            }
        } else {
            lemma_string_shift(p, s, i + 1, acc.push(c), slash);
        }
    }
}

proof fn lemma_query_shift(p: Seq<char>, s: Seq<char>, i: int, acc: Seq<Tok>)
    requires
        0 <= i,
    ensures
        lex_query(p + s, p.len() + i, acc) == shifted(lex_query(s, i, acc), p.len() as int),
    decreases s.len() - i,
{
    let t = p + s;
    let n = p.len() as int;
    if i < s.len() {
        assert(t[n + i] == s[i]);
        if i + 1 < s.len() {
            assert(t[n + i + 1] == s[i + 1]);
        }
        let c = s[i];
        if c == '.' || c == '(' {
            lemma_query_shift(p, s, i + 1, acc);
        } else if c == '#' {
            lemma_query_shift(p, s, i + 1, Seq::empty());
            match lex_query(s, i + 1, Seq::empty()) {
                Ok((tk, j)) => if i < j <= s.len() {
                    lemma_query_shift(p, s, j, acc.push(tk));
                },
                Err(_) => {},
            }
        } else if c == ')' {
        } else if crate::lexer::is_letter(c) {
            lemma_key_end_shift(p, s, i + 1);
            lemma_key_end_bound(s, i + 1);
            let e = key_end(s, i + 1);
            assert(t.subrange(n + i, n + e) =~= s.subrange(i, e));
            if i < e <= s.len() {
                lemma_query_shift(p, s, e, acc.push(Tok::Key(s.subrange(i, e))));
            }
        } else if crate::lexer::is_digit(c) {
            lemma_number_end_shift(p, s, i + 1);
            lemma_number_end_bound(s, i + 1);
            let e = number_end(s, i + 1);
            assert(t.subrange(n + i, n + e) =~= s.subrange(i, e));
            match crate::lexer::number_token(s.subrange(i, e)) {
                Ok(tk) => if i < e <= s.len() {
                    lemma_query_shift(p, s, e, acc.push(tk));
                },
                Err(_) => {},
            }
        } else if c == '"' {
            lemma_string_shift(p, s, i + 1, Seq::empty(), false);
            match lex_string(s, i + 1, Seq::empty(), false) {
                Ok((text, e)) => if i < e <= s.len() {
                    lemma_query_shift(p, s, e, acc.push(Tok::Str(text)));
                },
                Err(_) => {},
            }
        } else if c == '%' {
            lemma_query_shift(p, s, i + 1, acc.push(Tok::Like));
        } else if c == '=' {
            if i + 1 < s.len() && s[i + 1] == '=' {
                lemma_query_shift(p, s, i + 2, acc.push(Tok::Equal));
            }
        } else if c == '!' {
            if i + 1 < s.len() && s[i + 1] == '=' {
                lemma_query_shift(p, s, i + 2, acc.push(Tok::NotEqual));
            } else if i + 1 < s.len() && s[i + 1] == '%' {
                lemma_query_shift(p, s, i + 2, acc.push(Tok::NotLike));
            }
        } else if c == '<' {
            if i + 1 < s.len() {
                if s[i + 1] == '=' {
                    lemma_query_shift(p, s, i + 2, acc.push(Tok::LessThanEqual));
                } else {
                    lemma_query_shift(p, s, i + 1, acc.push(Tok::LessThan));
                }
            }
        } else if c == '>' {
            if i + 1 < s.len() {
                if s[i + 1] == '=' {
                    lemma_query_shift(p, s, i + 2, acc.push(Tok::GreaterThanEqual));
                } else {
                    lemma_query_shift(p, s, i + 1, acc.push(Tok::GreaterThan));
                }
            }
        }
    }
}

proof fn lemma_tokens_shift(p: Seq<char>, s: Seq<char>, i: int, acc: Seq<Tok>)
    requires
        0 <= i,
    ensures
        lex_tokens(p + s, p.len() + i, acc) == lex_tokens(s, i, acc),
    decreases s.len() - i,
{
    let t = p + s;
    let n = p.len() as int;
    if i < s.len() {
        assert(t[n + i] == s[i]);
        if i + 1 < s.len() {
            assert(t[n + i + 1] == s[i + 1]);
        }
        let c = s[i];
        if c == '.' {
            lemma_tokens_shift(p, s, i + 1, acc.push(Tok::Dot));
        } else if c == '#' {
            if i + 1 >= s.len() {
                lemma_tokens_shift(p, s, i + 1, acc.push(Tok::Hashtag));
            } else if s[i + 1] == '(' {
                lemma_tokens_shift(p, s, i + 1, acc);
            } else if s[i + 1] == '.' {
                lemma_tokens_shift(p, s, i + 1, acc.push(Tok::Hashtag));
            }
        } else if c == '(' {
            lemma_query_shift(p, s, i + 1, Seq::empty());
            match lex_query(s, i + 1, Seq::empty()) {
                Ok((tk, j)) => if i < j <= s.len() {
                    lemma_tokens_shift(p, s, j, acc.push(tk));
                },
                Err(_) => {},
            }
        } else if crate::lexer::is_letter(c) {
            lemma_key_end_shift(p, s, i + 1);
            lemma_key_end_bound(s, i + 1);
            let e = key_end(s, i + 1);
            assert(t.subrange(n + i, n + e) =~= s.subrange(i, e));
            if i < e <= s.len() {
                lemma_tokens_shift(p, s, e, acc.push(Tok::Key(s.subrange(i, e))));
            }
        } else if crate::lexer::is_digit(c) {
            lemma_number_end_shift(p, s, i + 1);
            lemma_number_end_bound(s, i + 1);
            let e = number_end(s, i + 1);
            assert(t.subrange(n + i, n + e) =~= s.subrange(i, e));
            match crate::lexer::number_token(s.subrange(i, e)) {
                Ok(tk) => if i < e <= s.len() {
                    lemma_tokens_shift(p, s, e, acc.push(tk));
                },
                Err(_) => {},
            }
        }
    } else {
        assert(t.len() == n + s.len());
    }
}

proof fn lemma_tokens_after(s: Seq<char>, i: int, pre: Seq<Tok>, acc: Seq<Tok>)
    requires
        0 <= i,
    ensures
        lex_tokens(s, i, pre + acc) == after(pre, lex_tokens(s, i, acc)),
    decreases s.len() - i,
{
    if i < s.len() {
        let c = s[i];
        if c == '.' {
            assert((pre + acc).push(Tok::Dot) =~= pre + acc.push(Tok::Dot));
            lemma_tokens_after(s, i + 1, pre, acc.push(Tok::Dot));
        } else if c == '#' {
            assert((pre + acc).push(Tok::Hashtag) =~= pre + acc.push(Tok::Hashtag));
            if i + 1 >= s.len() || s[i + 1] == '.' {
                lemma_tokens_after(s, i + 1, pre, acc.push(Tok::Hashtag));
            } else if s[i + 1] == '(' {
                lemma_tokens_after(s, i + 1, pre, acc);
            }
        } else if c == '(' {
            match lex_query(s, i + 1, Seq::empty()) {
                Ok((tk, j)) => if i < j <= s.len() {
                    assert((pre + acc).push(tk) =~= pre + acc.push(tk));
                    lemma_tokens_after(s, j, pre, acc.push(tk));
                },
                Err(_) => {},
            }
        } else if crate::lexer::is_letter(c) {
            let e = key_end(s, i + 1);
            let tk = Tok::Key(s.subrange(i, e));
            if i < e <= s.len() {
                assert((pre + acc).push(tk) =~= pre + acc.push(tk));
                lemma_tokens_after(s, e, pre, acc.push(tk));
            }
        } else if crate::lexer::is_digit(c) {
            let e = number_end(s, i + 1);
            match crate::lexer::number_token(s.subrange(i, e)) {
                Ok(tk) => if i < e <= s.len() {
                    assert((pre + acc).push(tk) =~= pre + acc.push(tk));
                    lemma_tokens_after(s, e, pre, acc.push(tk));
                },
                Err(_) => {},
            }
        }
    }
}

proof fn lemma_walk_shift(a: Seq<Tok>, t: Seq<Tok>, i: int, c: JsonV, f: bool)
    requires
        0 <= i,
    ensures
        walk(a + t, a.len() + i, c, f) == walk(t, i, c, f),
    decreases t.len() - i,
{
    if i < t.len() {
        assert((a + t)[a.len() + i] == t[i]);
        match t[i] {
            Tok::Key(k) => if f {
                match c {
                    JsonV::Array(items) => match crate::get::pluck(items, k) {
                        Ok(vals) => lemma_walk_shift(a, t, i + 1, JsonV::Array(vals), f),
                        Err(_) => {},
                    },
                    _ => {},
                }
            } else {
                match get_key(c, k) {
                    Some(v) => lemma_walk_shift(a, t, i + 1, v, f),
                    None => {},
                }
            },
            Tok::Hashtag => lemma_walk_shift(a, t, i + 1, c, true),
            Tok::Int(n) => match c {
                JsonV::Array(items) => if 0 <= n < items.len() {
                    lemma_walk_shift(a, t, i + 1, items[n as int], f);
                },
                _ => {},
            },
            Tok::QueryOnce(q) => match crate::query::query_value(q, c, false, false, Seq::empty()) {
                Ok(v) => lemma_walk_shift(a, t, i + 1, v, f),
                Err(_) => {},
            },
            Tok::QueryAll(q) => match crate::query::query_value(q, c, true, false, Seq::empty()) {
                Ok(v) => lemma_walk_shift(a, t, i + 1, v, true),
                Err(_) => {},
            },
            _ => lemma_walk_shift(a, t, i + 1, c, f),
        }
    }
}

/// The steps turn the walk into one over every item: `#` or `#(...)#`.
pub open spec fn spreads(t: Tok) -> bool {
    t is Hashtag || t is QueryAll
}

/// Walking two token lists one after the other, where the first never
/// turns the walk into one over every item, is walking the first, then the
/// second from what the first gave.
pub proof fn law_walk_split(t1: Seq<Tok>, t2: Seq<Tok>, i: int, c: JsonV)
    requires
        0 <= i <= t1.len(),
        forall|j: int| 0 <= j < t1.len() ==> !spreads(#[trigger] t1[j]),
    ensures
        walk(t1 + t2, i, c, false) == match walk(t1, i, c, false) {
            Ok(w) => walk(t2, 0, w, false),
            Err(e) => Err(e),
        },
    decreases t1.len() - i,
{
    let t = t1 + t2;
    if i < t1.len() {
        assert(t[i] == t1[i]);
        assert(!spreads(t1[i]));
        match t1[i] {
            Tok::Key(k) => match get_key(c, k) {
                Some(v) => law_walk_split(t1, t2, i + 1, v),
                None => {},
            },
            Tok::Int(n) => match c {
                JsonV::Array(items) => if 0 <= n < items.len() {
                    law_walk_split(t1, t2, i + 1, items[n as int]);
                },
                _ => {},
            },
            Tok::QueryOnce(q) => match crate::query::query_value(q, c, false, false, Seq::empty()) {
                Ok(v) => law_walk_split(t1, t2, i + 1, v),
                Err(_) => {},
            },
            Tok::Dot => law_walk_split(t1, t2, i + 1, c),
            _ => {},
        }
    } else {
        lemma_walk_shift(t1, t2, 0, c, false);
    }
}

/// An empty expression gives the value back.
pub proof fn law_empty_path(v: JsonV)
    ensures
        get_outcome(v, Seq::empty()) == Ok::<JsonV, FailV>(v),
{
}

/// A dot at the start of an expression changes nothing.
pub proof fn law_leading_dot(v: JsonV, e: Seq<char>)
    ensures
        get_outcome(v, seq!['.'] + e) == get_outcome(v, e),
{
    let s = seq!['.'] + e;
    assert(s[0] == '.');
    lemma_tokens_shift(seq!['.'], e, 0, seq![Tok::Dot]);
    lemma_tokens_after(e, 0, seq![Tok::Dot], Seq::empty());
    assert(seq![Tok::Dot] + Seq::<Tok>::empty() =~= seq![Tok::Dot]);
    assert(Seq::<Tok>::empty().push(Tok::Dot) =~= seq![Tok::Dot]);
    assert(lex(s) == lex_tokens(s, 1, seq![Tok::Dot]));
    match lex(e) {
        Ok(t) => {
            lemma_walk_shift(seq![Tok::Dot], t, 0, v, false);
            assert(walk(seq![Tok::Dot] + t, 0, v, false) == walk(seq![Tok::Dot] + t, 1, v, false));
        },
        Err(_) => {},
    }
}

/// Looking up `k.e` for a key `k` is looking up `k`, then `e` in what that
/// gave; a key that is missing stops the lookup, and an `e` that cannot be
/// read is that error.
pub proof fn law_key_step(v: JsonV, k: Seq<char>, e: Seq<char>)
    requires
        is_key_text(k),
    ensures
        get_outcome(v, k + seq!['.'] + e) == match lex(e) {
            Err(x) => Err(FailV::Error(x)),
            Ok(_) => match get_outcome(v, k) {
                Ok(w) => get_outcome(w, e),
                Err(x) => Err(x),
            },
        },
{
    let n = k.len() as int;
    let s = k + seq!['.'] + e;
    let p = k + seq!['.'];
    assert(s =~= p + e);
    assert forall|j: int| 1 <= j < n implies (crate::lexer::is_letter(#[trigger] s[j]) || s[j] == '*') by {
        assert(s[j] == k[j]);
    }
    assert(s[n] == '.');
    assert(s[0] == k[0]);
    crate::laws::lemma_key_end_exact(s, 1, n);
    assert(s.subrange(0, n) =~= k);
    let a1 = Seq::<Tok>::empty().push(Tok::Key(k));
    let a2 = a1.push(Tok::Dot);
    assert(lex_tokens(s, 0, Seq::empty()) == lex_tokens(s, n, a1));
    assert(lex_tokens(s, n, a1) == lex_tokens(s, n + 1, a2));
    assert(p.len() == n + 1);
    lemma_tokens_shift(p, e, 0, a2);
    lemma_tokens_after(e, 0, a2, Seq::empty());
    assert(a2 + Seq::<Tok>::empty() =~= a2);
    assert(a2 =~= seq![Tok::Key(k), Tok::Dot]);
    crate::laws::lemma_lex_key_exact(k);
    match lex(e) {
        Ok(t) => {
            let t1 = seq![Tok::Key(k)];
            assert(a2 + t =~= t1 + (seq![Tok::Dot] + t));
            assert forall|j: int| 0 <= j < t1.len() implies !spreads(#[trigger] t1[j]) by {}
            law_walk_split(t1, seq![Tok::Dot] + t, 0, v);
            match walk(t1, 0, v, false) {
                Ok(w) => {
                    lemma_walk_shift(seq![Tok::Dot], t, 0, w, false);
                    assert(walk(seq![Tok::Dot] + t, 0, w, false) == walk(seq![Tok::Dot] + t, 1, w, false));
                },
                Err(_) => {},
            }
        },
        Err(_) => {},
    }
}

/// A `)` ends a query; a `#` right after it is read with it and asks for every match.
pub proof fn law_query_close(s: Seq<char>, i: int, acc: Seq<Tok>)
    requires
        0 <= i < s.len(),
        s[i] == ')',
    ensures
        lex_query(s, i, acc) == if i + 1 < s.len() && s[i + 1] == '#' {
            Ok::<(Tok, int), ErrV>((Tok::QueryAll(acc), i + 2))
        } else {
            Ok::<(Tok, int), ErrV>((Tok::QueryOnce(acc), i + 1))
        },
{
}

proof fn lemma_key_end_upto(s: Seq<char>, i: int, k: int)
    requires
        0 <= i <= k < s.len(),
        !(crate::lexer::is_letter(s[k]) || s[k] == '*'),
    ensures
        key_end(s, i) <= k,
    decreases k - i,
{
    if i < k && (crate::lexer::is_letter(s[i]) || s[i] == '*') {
        lemma_key_end_upto(s, i + 1, k);
    }
}

proof fn lemma_number_end_upto(s: Seq<char>, i: int, k: int)
    requires
        0 <= i <= k < s.len(),
        !(crate::lexer::is_digit(s[k]) || s[k] == '.'),
    ensures
        number_end(s, i) <= k,
    decreases k - i,
{
    if i < k && (crate::lexer::is_digit(s[i]) || s[i] == '.') {
        lemma_number_end_upto(s, i + 1, k);
    }
}

/// A query read from `i`, whose text holds no `)`, `"` or `#` before the
/// `)` at `k`, ends at that `)`: it asks for every match exactly when a `#`
/// follows the `)`, which is then read with it, and reading goes on right
/// after them.
pub proof fn law_query_end(s: Seq<char>, i: int, k: int, acc: Seq<Tok>)
    requires
        0 <= i <= k < s.len(),
        s[k] == ')',
        forall|j: int| i <= j < k ==> #[trigger] s[j] != ')' && s[j] != '"' && s[j] != '#',
    ensures
        match lex_query(s, i, acc) {
            Ok((t, e)) => (t is QueryAll) == (k + 1 < s.len() && s[k + 1] == '#') && e == if t is QueryAll {
                k + 2
            } else {
                k + 1
            },
            Err(_) => true,
        },
    decreases k - i,
{
    if i == k {
        law_query_close(s, i, acc);
    } else {
        let c = s[i];
        assert(c != ')' && c != '"' && c != '#');
        if c == '.' || c == '(' {
            law_query_end(s, i + 1, k, acc);
        } else if crate::lexer::is_letter(c) {
            lemma_key_end_upto(s, i + 1, k);
            let e = key_end(s, i + 1);
            if i < e {
                law_query_end(s, e, k, acc.push(Tok::Key(s.subrange(i, e))));
            }
        } else if crate::lexer::is_digit(c) {
            lemma_number_end_upto(s, i + 1, k);
            let e = number_end(s, i + 1);
            match crate::lexer::number_token(s.subrange(i, e)) {
                Ok(tk) => if i < e {
                    law_query_end(s, e, k, acc.push(tk));
                },
                Err(_) => {},
            }
        } else if c == '%' {
            law_query_end(s, i + 1, k, acc.push(Tok::Like));
        } else if c == '=' {
            if s[i + 1] == '=' {
                law_query_end(s, i + 2, k, acc.push(Tok::Equal));
            }
        } else if c == '!' {
            if s[i + 1] == '=' {
                law_query_end(s, i + 2, k, acc.push(Tok::NotEqual));
            } else if s[i + 1] == '%' {
                law_query_end(s, i + 2, k, acc.push(Tok::NotLike));
            }
        } else if c == '<' {
            if s[i + 1] == '=' {
                law_query_end(s, i + 2, k, acc.push(Tok::LessThanEqual));
            } else {
                law_query_end(s, i + 1, k, acc.push(Tok::LessThan));
            }
        } else if c == '>' {
            if s[i + 1] == '=' {
                law_query_end(s, i + 2, k, acc.push(Tok::GreaterThanEqual));
            } else {
                law_query_end(s, i + 1, k, acc.push(Tok::GreaterThan));
            }
        }
    }
}

/// The tokens an expression may hold outside a query: keys that are runs
/// of ASCII letters and `*` starting with a letter, dots, `#`, numbers and
/// queries.
pub open spec fn top_level(t: Tok) -> bool {
    match t {
        Tok::Key(k) => is_key_text(k),
        Tok::Dot | Tok::Hashtag | Tok::Int(_) | Tok::Float(_, _) | Tok::QueryOnce(_) | Tok::QueryAll(_) => true,
        _ => false,
    }
}

/// Between `i` and where a key that goes on at `i` ends, every character is
/// a letter or `*`.
proof fn lemma_key_end_chars(s: Seq<char>, i: int)
    requires
        0 <= i,
    ensures
        i <= key_end(s, i),
        forall|j: int| i <= j < key_end(s, i) ==> (crate::lexer::is_letter(#[trigger] s[j]) || s[j] == '*'),
    decreases s.len() - i,
{
    if i < s.len() && (crate::lexer::is_letter(s[i]) || s[i] == '*') {
        lemma_key_end_chars(s, i + 1);
    }
}

proof fn lemma_query_kind(s: Seq<char>, i: int, acc: Seq<Tok>)
    ensures
        lex_query(s, i, acc) matches Ok((t, _)) ==> (t is QueryOnce || t is QueryAll),
    decreases s.len() - i,
{
    if 0 <= i < s.len() {
        let c = s[i];
        if c == '.' || c == '(' {
            lemma_query_kind(s, i + 1, acc);
        } else if c == '#' {
            match lex_query(s, i + 1, Seq::empty()) {
                Ok((tk, j)) => if i < j <= s.len() {
                    lemma_query_kind(s, j, acc.push(tk));
                },
                Err(_) => {},
            }
        } else if c == ')' {
        } else if crate::lexer::is_letter(c) {
            let e = key_end(s, i + 1);
            if i < e <= s.len() {
                lemma_query_kind(s, e, acc.push(Tok::Key(s.subrange(i, e))));
            }
        } else if crate::lexer::is_digit(c) {
            let e = number_end(s, i + 1);
            match crate::lexer::number_token(s.subrange(i, e)) {
                Ok(tk) => if i < e <= s.len() {
                    lemma_query_kind(s, e, acc.push(tk));
                },
                Err(_) => {},
            }
        } else if c == '"' {
            match lex_string(s, i + 1, Seq::empty(), false) {
                Ok((text, e)) => if i < e <= s.len() {
                    lemma_query_kind(s, e, acc.push(Tok::Str(text)));
                },
                Err(_) => {},
            }
        } else if c == '%' {
            lemma_query_kind(s, i + 1, acc.push(Tok::Like));
        } else if c == '=' {
            if i + 1 < s.len() && s[i + 1] == '=' {
                lemma_query_kind(s, i + 2, acc.push(Tok::Equal));
            }
        } else if c == '!' {
            if i + 1 < s.len() && s[i + 1] == '=' {
                lemma_query_kind(s, i + 2, acc.push(Tok::NotEqual));
            } else if i + 1 < s.len() && s[i + 1] == '%' {
                lemma_query_kind(s, i + 2, acc.push(Tok::NotLike));
            }
        } else if c == '<' {
            if i + 1 < s.len() {
                if s[i + 1] == '=' {
                    lemma_query_kind(s, i + 2, acc.push(Tok::LessThanEqual));
                } else {
                    lemma_query_kind(s, i + 1, acc.push(Tok::LessThan));
                }
            }
        } else if c == '>' {
            if i + 1 < s.len() {
                if s[i + 1] == '=' {
                    lemma_query_kind(s, i + 2, acc.push(Tok::GreaterThanEqual));
                } else {
                    lemma_query_kind(s, i + 1, acc.push(Tok::GreaterThan));
                }
            }
        }
    }
}

proof fn lemma_top_level(s: Seq<char>, i: int, acc: Seq<Tok>)
    requires
        forall|j: int| 0 <= j < acc.len() ==> top_level(#[trigger] acc[j]),
    ensures
        lex_tokens(s, i, acc) matches Ok(ts) ==> forall|j: int| 0 <= j < ts.len() ==> top_level(#[trigger] ts[j]),
    decreases s.len() - i,
{
    if 0 <= i < s.len() {
        let c = s[i];
        if c == '.' {
            let a = acc.push(Tok::Dot);
            assert forall|j: int| 0 <= j < a.len() implies top_level(#[trigger] a[j]) by {
                if j < acc.len() { assert(a[j] == acc[j]); }
            }
            lemma_top_level(s, i + 1, a);
        } else if c == '#' {
            let a = acc.push(Tok::Hashtag);
            assert forall|j: int| 0 <= j < a.len() implies top_level(#[trigger] a[j]) by {
                if j < acc.len() { assert(a[j] == acc[j]); }
            }
            if i + 1 >= s.len() || s[i + 1] == '.' {
                lemma_top_level(s, i + 1, a);
            } else if s[i + 1] == '(' {
                lemma_top_level(s, i + 1, acc);
            }
        } else if c == '(' {
            lemma_query_kind(s, i + 1, Seq::empty());
            match lex_query(s, i + 1, Seq::empty()) {
                Ok((tk, j)) => if i < j <= s.len() {
                    let a = acc.push(tk);
                    assert forall|w: int| 0 <= w < a.len() implies top_level(#[trigger] a[w]) by {
                        if w < acc.len() { assert(a[w] == acc[w]); }
                    }
                    lemma_top_level(s, j, a);
                },
                Err(_) => {},
            }
        } else if crate::lexer::is_letter(c) {
            let e = key_end(s, i + 1);
            lemma_key_end_chars(s, i + 1);
            if i < e <= s.len() {
                let k = s.subrange(i, e);
                assert forall|w: int| 0 <= w < k.len() implies (crate::lexer::is_letter(#[trigger] k[w]) || k[w] == '*') by {
                    assert(k[w] == s[i + w]);
                }
                assert(is_key_text(k));
                let a = acc.push(Tok::Key(k));
                assert forall|w: int| 0 <= w < a.len() implies top_level(#[trigger] a[w]) by {
                    if w < acc.len() { assert(a[w] == acc[w]); }
                }
                lemma_top_level(s, e, a);
            }
        } else if crate::lexer::is_digit(c) {
            let e = number_end(s, i + 1);
            match crate::lexer::number_token(s.subrange(i, e)) {
                Ok(tk) => if i < e <= s.len() {
                    let a = acc.push(tk);
                    assert forall|w: int| 0 <= w < a.len() implies top_level(#[trigger] a[w]) by {
                        if w < acc.len() { assert(a[w] == acc[w]); }
                    }
                    lemma_top_level(s, e, a);
                },
                Err(_) => {},
            }
        }
    }
}

/// Outside queries an expression holds only keys (runs of ASCII letters and
/// `*` that start with a letter), dots, `#`, numbers and queries.
pub proof fn law_top_level_tokens(s: Seq<char>)
    ensures
        lex(s) matches Ok(ts) ==> forall|j: int| 0 <= j < ts.len() ==> top_level(#[trigger] ts[j]),
{
    lemma_top_level(s, 0, Seq::empty());
}

proof fn lemma_key_end_prefix(s: Seq<char>, r: Seq<char>, i: int)
    requires
        0 <= i,
        key_end(s, i) < s.len(),
    ensures
        key_end(s + r, i) == key_end(s, i),
    decreases s.len() - i,
{
    let t = s + r;
    if i < s.len() {
        assert(t[i] == s[i]);
        if crate::lexer::is_letter(s[i]) || s[i] == '*' {
            lemma_key_end_prefix(s, r, i + 1);
        }
    }
}

proof fn lemma_number_end_prefix(s: Seq<char>, r: Seq<char>, i: int)
    requires
        0 <= i,
        number_end(s, i) < s.len(),
    ensures
        number_end(s + r, i) == number_end(s, i),
    decreases s.len() - i,
{
    let t = s + r;
    if i < s.len() {
        assert(t[i] == s[i]);
        if crate::lexer::is_digit(s[i]) || s[i] == '.' {
            lemma_number_end_prefix(s, r, i + 1);
        }
    }
}

proof fn lemma_string_prefix(s: Seq<char>, r: Seq<char>, i: int, acc: Seq<char>, slash: bool)
    requires
        0 <= i,
        lex_string(s, i, acc, slash) is Ok,
    ensures
        lex_string(s + r, i, acc, slash) == lex_string(s, i, acc, slash),
    decreases s.len() - i,
{
    let t = s + r;
    if i < s.len() {
        assert(t[i] == s[i]);
        let c = s[i];
        if c == '\\' {
            lemma_string_prefix(s, r, i + 1, acc.push('\\'), true);
        } else if c == '"' {
            if slash {
                lemma_string_prefix(s, r, i + 1, acc.push('"'), false);
            }
        } else {
            lemma_string_prefix(s, r, i + 1, acc.push(c), slash);
        }
    }
}

/// A query that ends before the end of `s` is read the same whatever follows `s`.
proof fn lemma_query_prefix(s: Seq<char>, r: Seq<char>, i: int, acc: Seq<Tok>)
    requires
        0 <= i,
        lex_query(s, i, acc) matches Ok((_, j)) && j < s.len(),
    ensures
        lex_query(s + r, i, acc) == lex_query(s, i, acc),
    decreases s.len() - i,
{
    let t = s + r;
    if i < s.len() {
        assert(t[i] == s[i]);
        if i + 1 < s.len() {
            assert(t[i + 1] == s[i + 1]);
        }
        let c = s[i];
        if c == '.' || c == '(' {
            lemma_query_prefix(s, r, i + 1, acc);
        } else if c == '#' {
            match lex_query(s, i + 1, Seq::empty()) {
                Ok((tk, j)) => {
                    if j == s.len() {
                        assert(lex_query(s, j, acc.push(tk)) == Ok::<(Tok, int), ErrV>((Tok::QueryOnce(acc.push(tk)), j)));
                    }
                    lemma_query_prefix(s, r, i + 1, Seq::empty());
                    lemma_query_prefix(s, r, j, acc.push(tk));
                },
                Err(_) => {},
            }
        } else if c == ')' {
        } else if crate::lexer::is_letter(c) {
            lemma_key_end_bound(s, i + 1);
            let e = key_end(s, i + 1);
            let tk = Tok::Key(s.subrange(i, e));
            if e == s.len() {
                assert(lex_query(s, e, acc.push(tk)) == Ok::<(Tok, int), ErrV>((Tok::QueryOnce(acc.push(tk)), e)));
            }
            lemma_key_end_prefix(s, r, i + 1);
            assert(t.subrange(i, e) =~= s.subrange(i, e));
            lemma_query_prefix(s, r, e, acc.push(tk));
        } else if crate::lexer::is_digit(c) {
            lemma_number_end_bound(s, i + 1);
            let e = number_end(s, i + 1);
            match crate::lexer::number_token(s.subrange(i, e)) {
                Ok(tk) => {
                    if e == s.len() {
                        assert(lex_query(s, e, acc.push(tk)) == Ok::<(Tok, int), ErrV>((Tok::QueryOnce(acc.push(tk)), e)));
                    }
                    lemma_number_end_prefix(s, r, i + 1);
                    assert(t.subrange(i, e) =~= s.subrange(i, e));
                    lemma_query_prefix(s, r, e, acc.push(tk));
                },
                Err(_) => {},
            }
        } else if c == '"' {
            match lex_string(s, i + 1, Seq::empty(), false) {
                Ok((text, e)) => {
                    lemma_string_prefix(s, r, i + 1, Seq::empty(), false);
                    if e == s.len() {
                        assert(lex_query(s, e, acc.push(Tok::Str(text))) == Ok::<(Tok, int), ErrV>((Tok::QueryOnce(acc.push(Tok::Str(text))), e)));
                    }
                    if i < e <= s.len() {
                        lemma_query_prefix(s, r, e, acc.push(Tok::Str(text)));
                    }
                },
                Err(_) => {},
            }
        } else if c == '%' {
            lemma_query_prefix(s, r, i + 1, acc.push(Tok::Like));
        } else if c == '=' {
            if i + 1 < s.len() && s[i + 1] == '=' {
                lemma_query_prefix(s, r, i + 2, acc.push(Tok::Equal));
            }
        } else if c == '!' {
            if i + 1 < s.len() && s[i + 1] == '=' {
                lemma_query_prefix(s, r, i + 2, acc.push(Tok::NotEqual));
            } else if i + 1 < s.len() && s[i + 1] == '%' {
                lemma_query_prefix(s, r, i + 2, acc.push(Tok::NotLike));
            }
        } else if c == '<' {
            if i + 1 < s.len() {
                if s[i + 1] == '=' {
                    lemma_query_prefix(s, r, i + 2, acc.push(Tok::LessThanEqual));
                } else {
                    lemma_query_prefix(s, r, i + 1, acc.push(Tok::LessThan));
                }
            }
        } else if c == '>' {
            if i + 1 < s.len() {
                if s[i + 1] == '=' {
                    lemma_query_prefix(s, r, i + 2, acc.push(Tok::GreaterThanEqual));
                } else {
                    lemma_query_prefix(s, r, i + 1, acc.push(Tok::GreaterThan));
                }
            }
        }
    }
}

/// Reading an expression that ends in a dot, whose last token is that dot,
/// goes the same way whatever follows the expression.
proof fn lemma_tokens_prefix(s: Seq<char>, r: Seq<char>, i: int, acc: Seq<Tok>, ts: Seq<Tok>)
    requires
        0 <= i < s.len(),
        s.last() == '.',
        lex_tokens(s, i, acc) == Ok::<Seq<Tok>, ErrV>(ts),
        ts.len() > 0,
        ts.last() == Tok::Dot,
    ensures
        lex_tokens(s + r, i, acc) == lex_tokens(s + r, s.len() as int, ts),
    decreases s.len() - i,
{
    let t = s + r;
    let n = s.len() as int;
    assert(t[i] == s[i]);
    if i + 1 < n {
        assert(t[i + 1] == s[i + 1]);
    }
    let c = s[i];
    if i == n - 1 {
        assert(c == '.');
        assert(lex_tokens(s, n, acc.push(Tok::Dot)) == Ok::<Seq<Tok>, ErrV>(acc.push(Tok::Dot)));
    } else if c == '.' {
        lemma_tokens_prefix(s, r, i + 1, acc.push(Tok::Dot), ts);
    } else if c == '#' {
        if s[i + 1] == '(' {
            lemma_tokens_prefix(s, r, i + 1, acc, ts);
        } else if s[i + 1] == '.' {
            lemma_tokens_prefix(s, r, i + 1, acc.push(Tok::Hashtag), ts);
        }
    } else if c == '(' {
        match lex_query(s, i + 1, Seq::empty()) {
            Ok((tk, j)) => {
                lemma_query_kind(s, i + 1, Seq::empty());
                if j == n {
                    assert(lex_tokens(s, j, acc.push(tk)) == Ok::<Seq<Tok>, ErrV>(acc.push(tk)));
                    assert(acc.push(tk).last() == tk);
                }
                if i < j < n {
                    lemma_query_prefix(s, r, i + 1, Seq::empty());
                    lemma_tokens_prefix(s, r, j, acc.push(tk), ts);
                }
            },
            Err(_) => {},
        }
    } else if crate::lexer::is_letter(c) {
        lemma_key_end_bound(s, i + 1);
        let e = key_end(s, i + 1);
        let tk = Tok::Key(s.subrange(i, e));
        if e == n {
            assert(lex_tokens(s, e, acc.push(tk)) == Ok::<Seq<Tok>, ErrV>(acc.push(tk)));
            assert(acc.push(tk).last() == tk);
        }
        lemma_key_end_prefix(s, r, i + 1);
        assert(t.subrange(i, e) =~= s.subrange(i, e));
        lemma_tokens_prefix(s, r, e, acc.push(tk), ts);
    } else if crate::lexer::is_digit(c) {
        lemma_number_end_bound(s, i + 1);
        let e = number_end(s, i + 1);
        match crate::lexer::number_token(s.subrange(i, e)) {
            Ok(tk) => {
                if e == n {
                    assert(lex_tokens(s, e, acc.push(tk)) == Ok::<Seq<Tok>, ErrV>(acc.push(tk)));
                    assert(acc.push(tk).last() == tk);
                }
                lemma_number_end_prefix(s, r, i + 1);
                assert(t.subrange(i, e) =~= s.subrange(i, e));
                lemma_tokens_prefix(s, r, e, acc.push(tk), ts);
            },
            Err(_) => {},
        }
    }
}

/// Looking up `p.e` is looking up `p`, then `e` in what that gave, for every
/// `p` whose steps never turn the walk into one over every item and that
/// reads to the same tokens whether or not a dot follows it (it does not end
/// inside a number or an open query): a chain of keys and single-match
/// queries, for instance. A lookup of `p` that fails stops the lookup, and an
/// `e` that cannot be read is that error.
pub proof fn law_dot_split(v: JsonV, p: Seq<char>, ts: Seq<Tok>, e: Seq<char>)
    requires
        lex(p) == Ok::<Seq<Tok>, ErrV>(ts),
        lex(p + seq!['.']) == Ok::<Seq<Tok>, ErrV>(ts.push(Tok::Dot)),
        forall|j: int| 0 <= j < ts.len() ==> !spreads(#[trigger] ts[j]),
    ensures
        get_outcome(v, p + seq!['.'] + e) == match lex(e) {
            Err(x) => Err(FailV::Error(x)),
            Ok(_) => match get_outcome(v, p) {
                Ok(w) => get_outcome(w, e),
                Err(x) => Err(x),
            },
        },
{
    let s1 = p + seq!['.'];
    let s = p + seq!['.'] + e;
    let a2 = ts.push(Tok::Dot);
    assert(s1.last() == '.');
    lemma_tokens_prefix(s1, e, 0, Seq::empty(), a2);
    lemma_tokens_shift(s1, e, 0, a2);
    lemma_tokens_after(e, 0, a2, Seq::empty());
    assert(a2 + Seq::<Tok>::empty() =~= a2);
    assert(lex(s) == after(a2, lex(e)));
    match lex(e) {
        Ok(t) => {
            assert(a2 + t =~= ts + (seq![Tok::Dot] + t));
            law_walk_split(ts, seq![Tok::Dot] + t, 0, v);
            match walk(ts, 0, v, false) {
                Ok(w) => {
                    lemma_walk_shift(seq![Tok::Dot], t, 0, w, false);
                    assert(walk(seq![Tok::Dot] + t, 0, w, false) == walk(seq![Tok::Dot] + t, 1, w, false));
                },
                Err(_) => {},
            }
        },
        Err(_) => {},
    }
}

} // verus!
