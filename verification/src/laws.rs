//! Properties that hold of every document and expression.
use vstd::prelude::*;
use crate::json::{JsonV, NumV, get_key, read_back, reads_back, all_read_back};
use crate::token::Tok;
use crate::query::{
    FailV, msg, query_value, query_steps, scan, entry_out, echo, index_items, map_insert, position,
    equals_token, like_matches,
};
use crate::json::str_of;
use crate::lexer::{is_letter, key_end, lex, lex_tokens};
use crate::get::{get_outcome, walk, pluck};

verus! {

/// `k` is a key as the lexer reads it: a letter, then letters and `*`.
pub open spec fn is_key_text(k: Seq<char>) -> bool {
    &&& k.len() > 0
    &&& is_letter(k[0])
    &&& forall|i: int| 0 <= i < k.len() ==> (is_letter(#[trigger] k[i]) || k[i] == '*')
}

/// Where a run of key characters from `i` to `e` ends.
pub proof fn lemma_key_end_exact(s: Seq<char>, i: int, e: int)
    requires
        0 <= i <= e <= s.len(),
        forall|j: int| i <= j < e ==> (is_letter(#[trigger] s[j]) || s[j] == '*'),
        e == s.len() || !(is_letter(s[e]) || s[e] == '*'),
    ensures
        key_end(s, i) == e,
{
    lemma_key_end(s, i, e);
}

/// A single key lexes to its key token.
pub proof fn lemma_lex_key_exact(k: Seq<char>)
    requires
        is_key_text(k),
    ensures
        lex(k) == Ok::<Seq<Tok>, crate::token::ErrV>(seq![Tok::Key(k)]),
{
    lemma_lex_key(k);
}

proof fn lemma_key_end(s: Seq<char>, i: int, e: int)
    requires
        0 <= i <= e <= s.len(),
        forall|j: int| i <= j < e ==> (is_letter(#[trigger] s[j]) || s[j] == '*'),
        e == s.len() || !(is_letter(s[e]) || s[e] == '*'),
    ensures
        key_end(s, i) == e,
    decreases e - i,
{
    if i < e {
        lemma_key_end(s, i + 1, e);
    }
}

/// A single key lexes to its key token.
proof fn lemma_lex_key(k: Seq<char>)
    requires
        is_key_text(k),
    ensures
        lex(k) == Ok::<Seq<Tok>, crate::token::ErrV>(seq![Tok::Key(k)]),
{
    lemma_key_end(k, 1, k.len() as int);
    assert(k.subrange(0, k.len() as int) =~= k);
    let acc = seq![Tok::Key(k)];
    assert(lex_tokens(k, k.len() as int, acc) == Ok::<Seq<Tok>, crate::token::ErrV>(acc));
    assert(Seq::<Tok>::empty().push(Tok::Key(k)) =~= acc);
}

/// `k1.k2` lexes to the key `k1`, a dot and the key `k2`.
proof fn lemma_lex_two_keys(k1: Seq<char>, k2: Seq<char>)
    requires
        is_key_text(k1),
        is_key_text(k2),
    ensures
        lex(k1 + seq!['.'] + k2) == Ok::<Seq<Tok>, crate::token::ErrV>(
            seq![Tok::Key(k1), Tok::Dot, Tok::Key(k2)],
        ),
{
    let s = k1 + seq!['.'] + k2;
    let n = k1.len() as int;
    assert forall|j: int| 1 <= j < n implies (is_letter(#[trigger] s[j]) || s[j] == '*') by {
        assert(s[j] == k1[j]);
    }
    assert(s[n] == '.');
    lemma_key_end(s, 1, n);
    assert forall|j: int| n + 2 <= j < s.len() implies (is_letter(#[trigger] s[j]) || s[j] == '*') by {
        assert(s[j] == k2[j - n - 1]);
    }
    lemma_key_end(s, n + 2, s.len() as int);
    assert(s.subrange(0, n) =~= k1);
    assert(s.subrange(n + 1, s.len() as int) =~= k2);
    assert(s[0] == k1[0]);
    assert(s[n + 1] == k2[0]);
    let a1 = Seq::<Tok>::empty().push(Tok::Key(k1));
    let a2 = a1.push(Tok::Dot);
    let a3 = a2.push(Tok::Key(k2));
    assert(lex_tokens(s, s.len() as int, a3) == Ok::<Seq<Tok>, crate::token::ErrV>(a3));
    assert(lex_tokens(s, n + 1, a2) == lex_tokens(s, s.len() as int, a3));
    assert(lex_tokens(s, n, a1) == lex_tokens(s, n + 1, a2));
    assert(lex_tokens(s, 0, Seq::empty()) == lex_tokens(s, n, a1));
    assert(a3 =~= seq![Tok::Key(k1), Tok::Dot, Tok::Key(k2)]);
}

/// `k.#` lexes to the key `k`, a dot and `#`.
proof fn lemma_lex_key_count(k: Seq<char>)
    requires
        is_key_text(k),
    ensures
        lex(k + seq!['.', '#']) == Ok::<Seq<Tok>, crate::token::ErrV>(
            seq![Tok::Key(k), Tok::Dot, Tok::Hashtag],
        ),
{
    let s = k + seq!['.', '#'];
    let n = k.len() as int;
    assert forall|j: int| 1 <= j < n implies (is_letter(#[trigger] s[j]) || s[j] == '*') by {
        assert(s[j] == k[j]);
    }
    assert(s[n] == '.');
    assert(s[n + 1] == '#');
    lemma_key_end(s, 1, n);
    assert(s.subrange(0, n) =~= k);
    assert(s[0] == k[0]);
    let a1 = Seq::<Tok>::empty().push(Tok::Key(k));
    let a2 = a1.push(Tok::Dot);
    let a3 = a2.push(Tok::Hashtag);
    assert(lex_tokens(s, n + 2, a3) == Ok::<Seq<Tok>, crate::token::ErrV>(a3));
    assert(lex_tokens(s, n + 1, a2) == lex_tokens(s, n + 2, a3));
    assert(lex_tokens(s, n, a1) == lex_tokens(s, n + 1, a2));
    assert(lex_tokens(s, 0, Seq::empty()) == lex_tokens(s, n, a1));
    assert(a3 =~= seq![Tok::Key(k), Tok::Dot, Tok::Hashtag]);
}

/// Looking up `k1.k2` is looking up `k1`, then `k2` in what that gave.
pub proof fn law_key_path(v: JsonV, k1: Seq<char>, k2: Seq<char>)
    requires
        is_key_text(k1),
        is_key_text(k2),
    ensures
        get_outcome(v, k1 + seq!['.'] + k2) == match get_outcome(v, k1) {
            Ok(w) => get_outcome(w, k2),
            Err(e) => Err(e),
        },
{
    lemma_lex_two_keys(k1, k2);
    lemma_lex_key(k1);
    lemma_lex_key(k2);
    let t3 = seq![Tok::Key(k1), Tok::Dot, Tok::Key(k2)];
    let t1 = seq![Tok::Key(k1)];
    let t2 = seq![Tok::Key(k2)];
    match get_key(v, k1) {
        Some(w) => {
            assert(walk(t3, 0, v, false) == walk(t3, 1, w, false));
            assert(walk(t3, 1, w, false) == walk(t3, 2, w, false));
            assert(walk(t1, 0, v, false) == walk(t1, 1, w, false));
            match get_key(w, k2) {
                Some(x) => {
                    assert(walk(t3, 2, w, false) == walk(t3, 3, x, false));
                    assert(walk(t2, 0, w, false) == walk(t2, 1, x, false));
                },
                None => {},
            }
        },
        None => {},
    }
}

/// `k.#` is the number of items of the array at `k`.
pub proof fn law_key_count(v: JsonV, k: Seq<char>, items: Seq<JsonV>)
    requires
        is_key_text(k),
        get_key(v, k) == Some(JsonV::Array(items)),
    ensures
        get_outcome(v, k + seq!['.', '#']) == Ok::<JsonV, FailV>(
            JsonV::Number(NumV::PosInt(items.len() as u64)),
        ),
{
    lemma_lex_key_count(k);
    let t = seq![Tok::Key(k), Tok::Dot, Tok::Hashtag];
    assert(walk(t, 0, v, false) == walk(t, 1, JsonV::Array(items), false));
    assert(walk(t, 1, JsonV::Array(items), false) == walk(t, 2, JsonV::Array(items), false));
}

/// A query for one match (`#(...)`) gives the first of the items that the
/// same query for every match (`#(...)#`) gives, and fails where that fails
/// or keeps nothing.
pub proof fn law_first_of_all(q: Seq<Tok>, curr: JsonV)
    ensures
        match query_value(q, curr, true, false, Seq::empty()) {
            Ok(JsonV::Array(r)) => query_value(q, curr, false, false, Seq::empty()) == if r.len()
                > 0 {
                Ok::<JsonV, FailV>(r[0])
            } else {
                Err::<JsonV, FailV>(msg("Nothing to return."@))
            },
            Ok(_) => false,
            Err(e) => query_value(q, curr, false, false, Seq::empty()) == Err::<JsonV, FailV>(e),
        },
{
}

/// Every value of `x` is a value of `a`.
pub open spec fn within(x: Seq<JsonV>, a: Seq<JsonV>) -> bool {
    forall|j: int| 0 <= j < x.len() ==> a.contains(#[trigger] x[j])
}

/// Every entry's item is a value of `a`.
pub open spec fn keys_within(m: Seq<(JsonV, JsonV)>, a: Seq<JsonV>) -> bool {
    forall|j: int| 0 <= j < m.len() ==> a.contains(#[trigger] m[j].0)
}

proof fn lemma_position_bound(m: Seq<(JsonV, JsonV)>, k: JsonV)
    ensures
        0 <= position(m, k) <= m.len(),
        position(m, k) < m.len() ==> m[position(m, k)].0 == k,
    decreases m.len(),
{
    if m.len() > 0 && m[0].0 != k {
        lemma_position_bound(m.drop_first(), k);
    }
}

proof fn lemma_insert_within(m: Seq<(JsonV, JsonV)>, k: JsonV, v: JsonV, a: Seq<JsonV>)
    requires
        keys_within(m, a),
        a.contains(k),
    ensures
        keys_within(map_insert(m, k, v), a),
{
    lemma_position_bound(m, k);
    let r = map_insert(m, k, v);
    assert forall|j: int| 0 <= j < r.len() implies a.contains(#[trigger] r[j].0) by {
        if j < m.len() && j != position(m, k) {
            assert(r[j] == m[j]);
        }
    }
}

proof fn lemma_index_within(arr: Seq<JsonV>, k: Seq<char>, m: Seq<(JsonV, JsonV)>, a: Seq<JsonV>)
    requires
        within(arr, a),
        keys_within(m, a),
    ensures
        index_items(arr, k, m) matches Ok(m2) ==> keys_within(m2, a),
    decreases arr.len(),
{
    if arr.len() > 0 {
        let d = arr.drop_last();
        assert forall|j: int| 0 <= j < d.len() implies a.contains(#[trigger] d[j]) by {
            assert(d[j] == arr[j]);
        }
        lemma_index_within(d, k, m, a);
        assert(a.contains(arr[arr.len() - 1]));
        match index_items(d, k, m) {
            Ok(m2) => {
                match arr.last() {
                    JsonV::Object(ms) => match crate::json::member(ms, k) {
                        Some(v) => lemma_insert_within(m2, arr.last(), v, a),
                        None => {},
                    },
                    _ => {},
                }
            },
            Err(_) => {},
        }
    }
}

proof fn lemma_echo_obj(obj: JsonV, items: Seq<JsonV>, op: Tok, peek: Tok, in_arr: bool)
    ensures
        echo(obj, items, op, peek, in_arr) matches Ok(r) ==> forall|j: int|
            0 <= j < r.len() ==> read_back(obj) == Some(#[trigger] r[j]),
    decreases items.len(),
{
    if items.len() > 0 {
        lemma_echo_obj(obj, items.drop_last(), op, peek, in_arr);
    }
}

proof fn lemma_scan_within(m: Seq<(JsonV, JsonV)>, op: Tok, peek: Tok, in_arr: bool, a: Seq<JsonV>)
    requires
        keys_within(m, a),
        all_read_back(a),
    ensures
        scan(m, op, peek, in_arr) matches Ok(r) ==> within(r, a),
    decreases m.len(),
{
    if m.len() > 0 {
        let d = m.drop_last();
        assert forall|j: int| 0 <= j < d.len() implies a.contains(#[trigger] d[j].0) by {
            assert(d[j] == m[j]);
        }
        lemma_scan_within(d, op, peek, in_arr, a);
        let e = m.last();
        assert(a.contains(m[m.len() - 1].0));
        let k = choose|k: int| 0 <= k < a.len() && a[k] == e.0;
        assert(reads_back(a[k]));
        match e.1 {
            JsonV::Array(items) => lemma_echo_obj(e.0, items, op, peek, in_arr),
            _ => {},
        }
        match scan(d, op, peek, in_arr) {
            Ok(acc) => match entry_out(e, op, peek, in_arr) {
                Ok(p) => {
                    assert forall|j: int| 0 <= j < p.len() implies a.contains(#[trigger] p[j]) by {
                        assert(p[j] == e.0);
                    }
                    let r = acc + p;
                    assert forall|j: int| 0 <= j < r.len() implies a.contains(#[trigger] r[j]) by {
                        if j < acc.len() {
                            assert(r[j] == acc[j]);
                        } else {
                            assert(r[j] == p[j - acc.len()]);
                        }
                    }
                },
                Err(_) => {},
            },
            Err(_) => {},
        }
    }
}

proof fn lemma_concat_within(x: Seq<JsonV>, y: Seq<JsonV>, a: Seq<JsonV>)
    requires
        within(x, a),
        within(y, a),
    ensures
        within(x + y, a),
{
    let r = x + y;
    assert forall|j: int| 0 <= j < r.len() implies a.contains(#[trigger] r[j]) by {
        if j < x.len() {
            assert(r[j] == x[j]);
        } else {
            assert(r[j] == y[j - x.len()]);
        }
    }
}

proof fn lemma_steps_within(
    q: Seq<Tok>,
    i: int,
    arr: Seq<JsonV>,
    in_arr: bool,
    ret: Seq<JsonV>,
    m: Seq<(JsonV, JsonV)>,
    a: Seq<JsonV>,
)
    requires
        within(arr, a),
        within(ret, a),
        keys_within(m, a),
        all_read_back(a),
    ensures
        query_steps(q, i, arr, in_arr, ret, m) matches Ok(r) ==> within(r, a),
    decreases q, q.len() + 1 - i,
{
    if 0 <= i < q.len() {
        let peek = crate::query::peek_at(q, i);
        match q[i] {
            Tok::Dot => lemma_steps_within(q, i + 1, arr, in_arr, ret, m, a),
            Tok::Hashtag => lemma_steps_within(q, i + 1, arr, in_arr, ret, m, a),
            Tok::QueryOnce(sub) => {
                if sub.len() == 2 {
                    assert(decreases_to!(q => q[i]));
                    assert(within(Seq::<JsonV>::empty(), a));
                    lemma_steps_within(sub, 0, ret, true, Seq::empty(), m, a);
                    match query_steps(sub, 0, ret, true, Seq::empty(), m) {
                        Ok(r) => {
                            assert(query_value(sub, JsonV::Array(ret), true, true, m) == Ok::<JsonV, FailV>(JsonV::Array(r)));
                            lemma_steps_within(q, i + 1, arr, in_arr, r, m, a);
                        },
                        Err(_) => {},
                    }
                }
            },
            Tok::Key(k) => {
                lemma_index_within(arr, k, m, a);
                match index_items(arr, k, m) {
                    Ok(m2) => lemma_steps_within(q, i + 1, arr, in_arr, ret, m2, a),
                    Err(_) => {},
                }
            },
            Tok::Like | Tok::NotLike | Tok::Equal | Tok::NotEqual | Tok::GreaterThan
            | Tok::GreaterThanEqual | Tok::LessThan | Tok::LessThanEqual => {
                lemma_scan_within(m, q[i], peek, in_arr, a);
                match scan(m, q[i], peek, in_arr) {
                    Ok(p) => {
                        lemma_concat_within(ret, p, a);
                        lemma_steps_within(q, i + 2, arr, in_arr, ret + p, m, a);
                    },
                    Err(_) => {},
                }
            },
            _ => {},
        }
    }
}

/// A query keeps only items of the array it runs on: every item of the
/// result of `#(...)#`, and the result of `#(...)`, is an item of the array,
/// where the items read back from their JSON text as themselves (as every
/// item without a double does; a kept item is read back from its text).
pub proof fn law_query_keeps_items(q: Seq<Tok>, a: Seq<JsonV>, hashtag: bool)
    requires
        all_read_back(a),
    ensures
        query_value(q, JsonV::Array(a), hashtag, false, Seq::empty()) matches Ok(x) ==> (if hashtag {
            x matches JsonV::Array(r) && within(r, a)
        } else {
            a.contains(x)
        }),
{
    assert forall|j: int| 0 <= j < a.len() implies a.contains(#[trigger] a[j]) by {}
    lemma_steps_within(q, 0, a, false, Seq::empty(), Seq::empty(), a);
}

/// `==` and `!=` on a string, double or integer split the entries of a
/// query whose items read back from their JSON text as themselves: each
/// entry's item is kept by exactly the one of them that its value calls
/// for, and neither fails.
pub proof fn law_equal_split(m: Seq<(JsonV, JsonV)>, p: Tok)
    requires
        p is Str || p is Float || p is Int,
        forall|j: int| 0 <= j < m.len() ==> #[trigger] reads_back(m[j].0),
    ensures
        scan(m, Tok::Equal, p, false) matches Ok(e) && scan(m, Tok::NotEqual, p, false) matches Ok(
            n,
        ) && e.len() + n.len() == m.len() && forall|j: int|
            0 <= j < m.len() ==> if equals_token(#[trigger] m[j].1, p) {
                e.contains(m[j].0)
            } else {
                n.contains(m[j].0)
            },
    decreases m.len(),
{
    if m.len() > 0 {
        let d = m.drop_last();
        assert forall|j: int| 0 <= j < d.len() implies #[trigger] reads_back(d[j].0) by {
            assert(d[j] == m[j]);
        }
        assert(reads_back(m[m.len() - 1].0));
        law_equal_split(d, p);
        let e0 = scan(d, Tok::Equal, p, false)->Ok_0;
        let n0 = scan(d, Tok::NotEqual, p, false)->Ok_0;
        let last = m.last();
        let eq = equals_token(last.1, p);
        let pe: Seq<JsonV> = if eq { seq![last.0] } else { Seq::empty() };
        let pn: Seq<JsonV> = if eq { Seq::empty() } else { seq![last.0] };
        assert(entry_out(last, Tok::Equal, p, false) == Ok::<Seq<JsonV>, FailV>(pe));
        assert(entry_out(last, Tok::NotEqual, p, false) == Ok::<Seq<JsonV>, FailV>(pn));
        let e = e0 + pe;
        let n = n0 + pn;
        assert forall|j: int| 0 <= j < m.len() implies if equals_token(#[trigger] m[j].1, p) {
            e.contains(m[j].0)
        } else {
            n.contains(m[j].0)
        } by {
            if j < m.len() - 1 {
                assert(d[j] == m[j]);
                if equals_token(m[j].1, p) {
                    let w = choose|w: int| 0 <= w < e0.len() && e0[w] == m[j].0;
                    assert(e[w] == e0[w]);
                } else {
                    let w = choose|w: int| 0 <= w < n0.len() && n0[w] == m[j].0;
                    assert(n[w] == n0[w]);
                }
            } else {
                if eq {
                    assert(e[e0.len() as int] == last.0);
                } else {
                    assert(n[n0.len() as int] == last.0);
                }
            }
        }
    }
}

/// `%` and `!%` with a pattern split the entries of a query whose values are
/// all strings and whose items read back from their JSON text as
/// themselves: each entry's item is kept by exactly the one of them that
/// its value calls for, and neither fails.
pub proof fn law_like_split(m: Seq<(JsonV, JsonV)>, pattern: Seq<char>)
    requires
        forall|j: int| 0 <= j < m.len() ==> #[trigger] str_of(m[j].1) is Some,
        forall|j: int| 0 <= j < m.len() ==> #[trigger] reads_back(m[j].0),
    ensures
        scan(m, Tok::Like, Tok::Str(pattern), false) matches Ok(e) && scan(
            m,
            Tok::NotLike,
            Tok::Str(pattern),
            false,
        ) matches Ok(n) && e.len() + n.len() == m.len() && forall|j: int|
            0 <= j < m.len() ==> if like_matches(Tok::Str(pattern), str_of(#[trigger] m[j].1)->0) {
                e.contains(m[j].0)
            } else {
                n.contains(m[j].0)
            },
    decreases m.len(),
{
    let p = Tok::Str(pattern);
    if m.len() > 0 {
        let d = m.drop_last();
        assert forall|j: int| 0 <= j < d.len() implies #[trigger] str_of(d[j].1) is Some by {
            assert(d[j] == m[j]);
        }
        assert forall|j: int| 0 <= j < d.len() implies #[trigger] reads_back(d[j].0) by {
            assert(d[j] == m[j]);
        }
        assert(reads_back(m[m.len() - 1].0));
        law_like_split(d, pattern);
        let e0 = scan(d, Tok::Like, p, false)->Ok_0;
        let n0 = scan(d, Tok::NotLike, p, false)->Ok_0;
        let last = m.last();
        assert(str_of(m[m.len() - 1].1) is Some);
        let hit = like_matches(p, str_of(last.1)->0);
        let pe: Seq<JsonV> = if hit { seq![last.0] } else { Seq::empty() };
        let pn: Seq<JsonV> = if hit { Seq::empty() } else { seq![last.0] };
        assert(entry_out(last, Tok::Like, p, false) == Ok::<Seq<JsonV>, FailV>(pe));
        assert(entry_out(last, Tok::NotLike, p, false) == Ok::<Seq<JsonV>, FailV>(pn));
        let e = e0 + pe;
        let n = n0 + pn;
        assert forall|j: int| 0 <= j < m.len() implies if like_matches(
            p,
            str_of(#[trigger] m[j].1)->0,
        ) {
            e.contains(m[j].0)
        } else {
            n.contains(m[j].0)
        } by {
            if j < m.len() - 1 {
                assert(d[j] == m[j]);
                if like_matches(p, str_of(m[j].1)->0) {
                    let w = choose|w: int| 0 <= w < e0.len() && e0[w] == m[j].0;
                    assert(e[w] == e0[w]);
                } else {
                    let w = choose|w: int| 0 <= w < n0.len() && n0[w] == m[j].0;
                    assert(n[w] == n0[w]);
                }
            } else {
                if hit {
                    assert(e[e0.len() as int] == last.0);
                } else {
                    assert(n[n0.len() as int] == last.0);
                }
            }
        }
    }
}

/// `k1.#.k2` lexes to the key `k1`, a dot, `#`, a dot and the key `k2`.
proof fn lemma_lex_map_key(k1: Seq<char>, k2: Seq<char>)
    requires
        is_key_text(k1),
        is_key_text(k2),
    ensures
        lex(k1 + seq!['.', '#', '.'] + k2) == Ok::<Seq<Tok>, crate::token::ErrV>(
            seq![Tok::Key(k1), Tok::Dot, Tok::Hashtag, Tok::Dot, Tok::Key(k2)],
        ),
{
    let s = k1 + seq!['.', '#', '.'] + k2;
    let n = k1.len() as int;
    assert forall|j: int| 1 <= j < n implies (is_letter(#[trigger] s[j]) || s[j] == '*') by {
        assert(s[j] == k1[j]);
    }
    assert(s[n] == '.');
    assert(s[n + 1] == '#');
    assert(s[n + 2] == '.');
    lemma_key_end(s, 1, n);
    assert forall|j: int| n + 4 <= j < s.len() implies (is_letter(#[trigger] s[j]) || s[j] == '*') by {
        assert(s[j] == k2[j - n - 3]);
    }
    lemma_key_end(s, n + 4, s.len() as int);
    assert(s.subrange(0, n) =~= k1);
    assert(s.subrange(n + 3, s.len() as int) =~= k2);
    assert(s[0] == k1[0]);
    assert(s[n + 3] == k2[0]);
    let a1 = Seq::<Tok>::empty().push(Tok::Key(k1));
    let a2 = a1.push(Tok::Dot);
    let a3 = a2.push(Tok::Hashtag);
    let a4 = a3.push(Tok::Dot);
    let a5 = a4.push(Tok::Key(k2));
    assert(lex_tokens(s, s.len() as int, a5) == Ok::<Seq<Tok>, crate::token::ErrV>(a5));
    assert(lex_tokens(s, n + 3, a4) == lex_tokens(s, s.len() as int, a5));
    assert(lex_tokens(s, n + 2, a3) == lex_tokens(s, n + 3, a4));
    assert(lex_tokens(s, n + 1, a2) == lex_tokens(s, n + 2, a3));
    assert(lex_tokens(s, n, a1) == lex_tokens(s, n + 1, a2));
    assert(lex_tokens(s, 0, Seq::empty()) == lex_tokens(s, n, a1));
    assert(a5 =~= seq![Tok::Key(k1), Tok::Dot, Tok::Hashtag, Tok::Dot, Tok::Key(k2)]);
}

/// The member `k` of each item, where every item has it.
pub open spec fn members_of(items: Seq<JsonV>, k: Seq<char>) -> Seq<JsonV> {
    Seq::new(items.len(), |j: int| get_key(items[j], k)->0)
}

proof fn lemma_pluck_all(items: Seq<JsonV>, k: Seq<char>)
    requires
        forall|j: int| 0 <= j < items.len() ==> #[trigger] get_key(items[j], k) is Some,
    ensures
        pluck(items, k) == Ok::<Seq<JsonV>, FailV>(members_of(items, k)),
    decreases items.len(),
{
    if items.len() > 0 {
        let d = items.drop_last();
        assert forall|j: int| 0 <= j < d.len() implies #[trigger] get_key(d[j], k) is Some by {
            assert(d[j] == items[j]);
        }
        lemma_pluck_all(d, k);
        assert(get_key(items[items.len() - 1], k) is Some);
        assert(members_of(d, k).push(get_key(items.last(), k)->0) =~= members_of(items, k));
        match items.last() {
            JsonV::Object(ms) => {
                assert(crate::json::member(ms, k) == get_key(items.last(), k));
            },
            _ => {},
        }
    } else {
        assert(members_of(items, k) =~= Seq::<JsonV>::empty());
    }
}

/// `k1.#.k2` is the member `k2` of every item of the array at `k1`, in
/// order, where every item has it.
pub proof fn law_map_key(v: JsonV, k1: Seq<char>, k2: Seq<char>, items: Seq<JsonV>)
    requires
        is_key_text(k1),
        is_key_text(k2),
        get_key(v, k1) == Some(JsonV::Array(items)),
        forall|j: int| 0 <= j < items.len() ==> #[trigger] get_key(items[j], k2) is Some,
    ensures
        get_outcome(v, k1 + seq!['.', '#', '.'] + k2) == Ok::<JsonV, FailV>(
            JsonV::Array(members_of(items, k2)),
        ),
{
    lemma_lex_map_key(k1, k2);
    lemma_pluck_all(items, k2);
    let t = seq![Tok::Key(k1), Tok::Dot, Tok::Hashtag, Tok::Dot, Tok::Key(k2)];
    let a = JsonV::Array(items);
    assert(walk(t, 0, v, false) == walk(t, 1, a, false));
    assert(walk(t, 1, a, false) == walk(t, 2, a, false));
    assert(walk(t, 2, a, false) == walk(t, 3, a, true));
    assert(walk(t, 3, a, true) == walk(t, 4, a, true));
    assert(walk(t, 4, a, true) == walk(t, 5, JsonV::Array(members_of(items, k2)), true));
}

} // verus!
