//! What the lookups mean, stated over the values themselves: an index picks
//! that item, `==` on a string keeps exactly the equal strings, orderings on
//! integers compare them as integers, a pattern without a leading `*` keeps
//! the strings that start with its text, and a nested `!=` keeps an item for
//! each of its values that differs.
use vstd::prelude::*;
use crate::json::{JsonV, get_key, str_of, i64_of, f64_bits_of, f64_lt, f64_le, f64_eq, reads_back, all_read_back};
use crate::token::{Tok, ErrV};
use crate::query::{FailV, PanicV, query_value, query_steps, scan, entry_out, echo, item_keep, index_items, peek_at, until_star, skip_stars};
use crate::lexer::{number_end, lex, lex_tokens, lex_string, lex_query};
use crate::numeric::{is_digits, dot_count, i64_from_str};
use crate::get::{get_outcome, walk};
use crate::laws::{is_key_text, lemma_lex_key_exact};
use crate::paths::law_key_step;
use crate::filters::{law_filter, law_index_items, member_of, keys_distinct, has_key};

verus! {

proof fn lemma_digits_no_dot(t: Seq<char>)
    requires
        forall|i: int| 0 <= i < t.len() ==> '0' <= #[trigger] t[i] <= '9',
    ensures
        dot_count(t) == 0,
    decreases t.len(),
{
    if t.len() > 0 {
        let d = t.drop_last();
        assert forall|i: int| 0 <= i < d.len() implies '0' <= #[trigger] d[i] <= '9' by {
            assert(d[i] == t[i]);
        }
        lemma_digits_no_dot(d);
        assert(t[t.len() - 1] != '.');
    }
}

proof fn lemma_digits_end(t: Seq<char>, i: int)
    requires
        0 <= i <= t.len(),
        forall|j: int| 0 <= j < t.len() ==> '0' <= #[trigger] t[j] <= '9',
    ensures
        number_end(t, i) == t.len(),
    decreases t.len() - i,
{
    if i < t.len() {
        assert('0' <= t[i] <= '9');
        lemma_digits_end(t, i + 1);
    }
}

/// Looking up a run of digits in an array gives the item at the index those
/// digits read as, counting from 0, and stops the program where the array
/// has no such item.
pub proof fn law_index(items: Seq<JsonV>, t: Seq<char>, n: i64)
    requires
        is_digits(t),
        i64_from_str(t) == Ok::<i64, Seq<char>>(n),
    ensures
        get_outcome(JsonV::Array(items), t) == if 0 <= n < items.len() {
            Ok::<JsonV, FailV>(items[n as int])
        } else {
            Err::<JsonV, FailV>(FailV::Panic(PanicV::MissingIndex(n)))
        },
{
    lemma_digits_end(t, 1);
    lemma_digits_no_dot(t);
    assert(t.subrange(0, t.len() as int) =~= t);
    assert(crate::lexer::is_digit(t[0]));
    let ts = seq![Tok::Int(n)];
    assert(Seq::<Tok>::empty().push(Tok::Int(n)) =~= ts);
    assert(lex_tokens(t, t.len() as int, ts) == Ok::<Seq<Tok>, crate::token::ErrV>(ts));
    assert(lex(t) == Ok::<Seq<Tok>, crate::token::ErrV>(ts));
    if 0 <= n < items.len() {
        assert(walk(ts, 1, items[n as int], false) == Ok::<JsonV, FailV>(items[n as int]));
    }
    assert(get_outcome(JsonV::Array(items), t) == walk(ts, 0, JsonV::Array(items), false));
}

/// Looking up `k.n`, where the member `k` is an array and `n` a run of
/// digits, gives that array's item at the index `n` reads as (from 0).
pub proof fn law_key_index(v: JsonV, k: Seq<char>, items: Seq<JsonV>, t: Seq<char>, n: i64)
    requires
        is_key_text(k),
        get_key(v, k) == Some(JsonV::Array(items)),
        is_digits(t),
        i64_from_str(t) == Ok::<i64, Seq<char>>(n),
    ensures
        get_outcome(v, k + seq!['.'] + t) == if 0 <= n < items.len() {
            Ok::<JsonV, FailV>(items[n as int])
        } else {
            Err::<JsonV, FailV>(FailV::Panic(PanicV::MissingIndex(n)))
        },
{
    law_index(items, t, n);
    law_key_step(v, k, t);
    lemma_lex_key_exact(k);
    assert(walk(seq![Tok::Key(k)], 1, JsonV::Array(items), false) == Ok::<JsonV, FailV>(JsonV::Array(items)));
    assert(get_outcome(v, k) == Ok::<JsonV, FailV>(JsonV::Array(items)));
}

/// `#(k=="s")#` keeps exactly the items whose member `k` is the string `s`,
/// and `#(k!="s")#` exactly those whose member is anything else (items that
/// read back from their JSON text as themselves).
pub proof fn law_string_equality(a: Seq<JsonV>, k: Seq<char>, s: Seq<char>)
    requires
        all_read_back(a),
        forall|j: int| 0 <= j < a.len() ==> #[trigger] get_key(a[j], k) is Some,
    ensures
        query_value(seq![Tok::Key(k), Tok::Equal, Tok::Str(s)], JsonV::Array(a), true, false, Seq::empty())
            matches Ok(JsonV::Array(r)) && forall|x: JsonV|
            r.contains(x) <==> (a.contains(x) && member_of(x, k) == JsonV::Str(s)),
        query_value(seq![Tok::Key(k), Tok::NotEqual, Tok::Str(s)], JsonV::Array(a), true, false, Seq::empty())
            matches Ok(JsonV::Array(r)) && forall|x: JsonV|
            r.contains(x) <==> (a.contains(x) && member_of(x, k) != JsonV::Str(s)),
{
    law_filter(a, k, Tok::Equal, Tok::Str(s));
    law_filter(a, k, Tok::NotEqual, Tok::Str(s));
    assert forall|v: JsonV| (str_of(v) == Some(s)) == (v == JsonV::Str(s)) by {}
}

/// On integer members and an integer `n`, `>`, `>=`, `<` and `<=` keep
/// exactly the items whose member compares so with `n` as integers (items
/// that read back from their JSON text as themselves).
pub proof fn law_integer_order(a: Seq<JsonV>, k: Seq<char>, op: Tok, n: i64)
    requires
        op is GreaterThan || op is GreaterThanEqual || op is LessThan || op is LessThanEqual,
        all_read_back(a),
        forall|j: int| 0 <= j < a.len() ==> #[trigger] get_key(a[j], k) is Some,
        forall|j: int| 0 <= j < a.len() ==> i64_of(member_of(#[trigger] a[j], k)) is Some,
    ensures
        query_value(seq![Tok::Key(k), op, Tok::Int(n)], JsonV::Array(a), true, false, Seq::empty())
            matches Ok(JsonV::Array(r)) && forall|x: JsonV|
            r.contains(x) <==> (a.contains(x) && {
                let m = i64_of(member_of(x, k))->0;
                &&& op is GreaterThan ==> m > n
                &&& op is GreaterThanEqual ==> m >= n
                &&& op is LessThan ==> m < n
                &&& op is LessThanEqual ==> m <= n
            }),
{
    law_filter(a, k, op, Tok::Int(n));
}

proof fn lemma_until_star_of(p: Seq<char>, rest: Seq<char>)
    requires
        forall|i: int| 0 <= i < p.len() ==> #[trigger] p[i] != '*',
        rest.len() == 0 || rest[0] == '*',
    ensures
        until_star(p + rest) == p,
    decreases p.len(),
{
    if p.len() == 0 {
        assert(Seq::<char>::empty() + rest =~= rest);
    } else {
        let d = p.drop_first();
        assert forall|i: int| 0 <= i < d.len() implies #[trigger] d[i] != '*' by {
            assert(d[i] == p[i + 1]);
        }
        lemma_until_star_of(d, rest);
        assert((p + rest).drop_first() =~= d + rest);
        assert((p + rest)[0] == p[0]);
        assert(seq![p[0]] + d =~= p);
    }
}

/// A pattern that does not start with `*` keeps, with `%`, exactly the items
/// whose member starts with the pattern's text before its first `*` (the
/// whole pattern where it has none), and with `!%` exactly the others
/// (string members; items that read back from their JSON text as themselves).
pub proof fn law_like_prefix(a: Seq<JsonV>, k: Seq<char>, p: Seq<char>, rest: Seq<char>)
    requires
        all_read_back(a),
        forall|j: int| 0 <= j < a.len() ==> #[trigger] get_key(a[j], k) is Some,
        forall|j: int| 0 <= j < a.len() ==> str_of(member_of(#[trigger] a[j], k)) is Some,
        p.len() > 0,
        forall|i: int| 0 <= i < p.len() ==> #[trigger] p[i] != '*',
        rest.len() == 0 || rest[0] == '*',
    ensures
        query_value(seq![Tok::Key(k), Tok::Like, Tok::Str(p + rest)], JsonV::Array(a), true, false, Seq::empty())
            matches Ok(JsonV::Array(r)) && forall|x: JsonV|
            r.contains(x) <==> (a.contains(x) && {
                let t = str_of(member_of(x, k))->0;
                p.len() <= t.len() && t.subrange(0, p.len() as int) == p
            }),
        query_value(seq![Tok::Key(k), Tok::NotLike, Tok::Str(p + rest)], JsonV::Array(a), true, false, Seq::empty())
            matches Ok(JsonV::Array(r)) && forall|x: JsonV|
            r.contains(x) <==> (a.contains(x) && {
                let t = str_of(member_of(x, k))->0;
                !(p.len() <= t.len() && t.subrange(0, p.len() as int) == p)
            }),
{
    let pat = p + rest;
    lemma_until_star_of(p, rest);
    assert(pat[0] == p[0]);
    assert(pat.len() > 0);
    law_filter(a, k, Tok::Like, Tok::Str(pat));
    law_filter(a, k, Tok::NotLike, Tok::Str(pat));
}

/// How many values of `vals` are not the string `s`.
pub open spec fn count_other(vals: Seq<JsonV>, s: Seq<char>) -> nat
    decreases vals.len(),
{
    if vals.len() == 0 {
        0
    } else {
        count_other(vals.drop_last(), s) + if vals.last() != JsonV::Str(s) {
            1nat
        } else {
            0nat
        }
    }
}

/// How many times `x` occurs in `r`.
pub open spec fn occurs(r: Seq<JsonV>, x: JsonV) -> nat
    decreases r.len(),
{
    if r.len() == 0 {
        0
    } else {
        occurs(r.drop_last(), x) + if r.last() == x {
            1nat
        } else {
            0nat
        }
    }
}

proof fn lemma_occurs_add(p: Seq<JsonV>, q: Seq<JsonV>, x: JsonV)
    ensures
        occurs(p + q, x) == occurs(p, x) + occurs(q, x),
    decreases q.len(),
{
    if q.len() == 0 {
        assert(p + q =~= p);
    } else {
        lemma_occurs_add(p, q.drop_last(), x);
        assert((p + q).drop_last() =~= p + q.drop_last());
        assert((p + q).last() == q.last());
    }
}

proof fn lemma_occurs_contains(r: Seq<JsonV>, x: JsonV)
    ensures
        occurs(r, x) > 0 <==> r.contains(x),
    decreases r.len(),
{
    if r.len() > 0 {
        let d = r.drop_last();
        lemma_occurs_contains(d, x);
        if d.contains(x) {
            let w = choose|w: int| 0 <= w < d.len() && d[w] == x;
            assert(r[w] == x);
        }
        if r.contains(x) && r.last() != x {
            let w = choose|w: int| 0 <= w < r.len() && r[w] == x;
            assert(w < d.len());
            assert(d[w] == x);
        }
    }
}

proof fn lemma_count_other_pos(vals: Seq<JsonV>, s: Seq<char>)
    ensures
        count_other(vals, s) > 0 <==> exists|w: int| 0 <= w < vals.len() && #[trigger] vals[w] != JsonV::Str(s),
    decreases vals.len(),
{
    if vals.len() > 0 {
        let d = vals.drop_last();
        lemma_count_other_pos(d, s);
        if exists|w: int| 0 <= w < d.len() && #[trigger] d[w] != JsonV::Str(s) {
            let w = choose|w: int| 0 <= w < d.len() && #[trigger] d[w] != JsonV::Str(s);
            assert(vals[w] == d[w]);
        }
        if exists|w: int| 0 <= w < vals.len() && #[trigger] vals[w] != JsonV::Str(s) {
            let w = choose|w: int| 0 <= w < vals.len() && #[trigger] vals[w] != JsonV::Str(s);
            if w < d.len() {
                assert(d[w] == vals[w]);
            }
        }
    }
}

proof fn lemma_echo_not_equal(obj: JsonV, vals: Seq<JsonV>, s: Seq<char>)
    requires
        reads_back(obj),
    ensures
        echo(obj, vals, Tok::NotEqual, Tok::Str(s), true) matches Ok(r) && forall|x: JsonV|
            occurs(r, x) == if x == obj {
                count_other(vals, s)
            } else {
                0
            },
    decreases vals.len(),
{
    if vals.len() > 0 {
        lemma_echo_not_equal(obj, vals.drop_last(), s);
        let acc = echo(obj, vals.drop_last(), Tok::NotEqual, Tok::Str(s), true)->Ok_0;
        let v = vals.last();
        assert((str_of(v) == Some(s)) == (v == JsonV::Str(s)));
        if v != JsonV::Str(s) {
            let r = acc.push(obj);
            assert(echo(obj, vals, Tok::NotEqual, Tok::Str(s), true) == Ok::<Seq<JsonV>, FailV>(r));
            assert(r.drop_last() =~= acc);
            assert(r.last() == obj);
            assert forall|x: JsonV| occurs(r, x) == if x == obj { count_other(vals, s) } else { 0 } by {
                assert(occurs(r, x) == occurs(acc, x) + if obj == x { 1nat } else { 0nat });
            }
        } else {
            assert(echo(obj, vals, Tok::NotEqual, Tok::Str(s), true) == Ok::<Seq<JsonV>, FailV>(acc));
        }
    }
}

proof fn lemma_scan_not_equal(m: Seq<(JsonV, JsonV)>, s: Seq<char>)
    requires
        keys_distinct(m),
        forall|j: int| 0 <= j < m.len() ==> reads_back(#[trigger] m[j].0) && m[j].1 is Array,
    ensures
        scan(m, Tok::NotEqual, Tok::Str(s), true) matches Ok(p) && (forall|j: int|
            0 <= j < m.len() ==> occurs(p, #[trigger] m[j].0) == count_other(m[j].1->Array_0, s)) && (
        forall|x: JsonV| !has_key(m, x) ==> occurs(p, x) == 0),
    decreases m.len(),
{
    if m.len() > 0 {
        let d = m.drop_last();
        assert forall|j: int| 0 <= j < d.len() implies reads_back(#[trigger] d[j].0) && d[j].1 is Array by {
            assert(d[j] == m[j]);
        }
        lemma_scan_not_equal(d, s);
        let acc = scan(d, Tok::NotEqual, Tok::Str(s), true)->Ok_0;
        let e = m.last();
        assert(reads_back(m[m.len() - 1].0) && m[m.len() - 1].1 is Array);
        let vals = e.1->Array_0;
        lemma_echo_not_equal(e.0, vals, s);
        let q = echo(e.0, vals, Tok::NotEqual, Tok::Str(s), true)->Ok_0;
        assert(entry_out(e, Tok::NotEqual, Tok::Str(s), true) == Ok::<Seq<JsonV>, FailV>(q));
        let p = acc + q;
        assert(scan(m, Tok::NotEqual, Tok::Str(s), true) == Ok::<Seq<JsonV>, FailV>(p));
        assert forall|x: JsonV| #[trigger] occurs(p, x) == occurs(acc, x) + occurs(q, x) by {
            lemma_occurs_add(acc, q, x);
        }
        assert(!has_key(d, e.0)) by {
            if has_key(d, e.0) {
                let w = choose|w: int| 0 <= w < d.len() && d[w].0 == e.0;
                assert(m[w].0 == m[m.len() - 1].0);
            }
        }
        assert forall|j: int| 0 <= j < m.len() implies occurs(p, #[trigger] m[j].0) == count_other(m[j].1->Array_0, s) by {
            if j < d.len() {
                assert(d[j] == m[j]);
                assert(m[j].0 != m[m.len() - 1].0);
            }
        }
        assert forall|x: JsonV| !has_key(m, x) implies occurs(p, x) == 0 by {
            if has_key(d, x) {
                let w = choose|w: int| 0 <= w < d.len() && d[w].0 == x;
                assert(m[w] == d[w]);
            }
            assert(m[m.len() - 1].0 != x);
        }
    }
}

/// A nested `!=` on a string, `#(k.#(!="s"))#`, keeps each item once for
/// every value of its array `k` that is not the string `s`, and never for a
/// value equal to it: an item whose array holds only `s` is not kept (items
/// that read back from their JSON text as themselves).
pub proof fn law_nested_not_equal(a: Seq<JsonV>, k: Seq<char>, s: Seq<char>)
    requires
        all_read_back(a),
        forall|j: int| 0 <= j < a.len() ==> #[trigger] get_key(a[j], k) is Some,
        forall|j: int| 0 <= j < a.len() ==> member_of(#[trigger] a[j], k) is Array,
    ensures
        query_value(
            seq![Tok::Key(k), Tok::QueryOnce(seq![Tok::NotEqual, Tok::Str(s)])],
            JsonV::Array(a),
            true,
            false,
            Seq::empty(),
        ) matches Ok(JsonV::Array(r)) && (forall|x: JsonV|
            occurs(r, x) == if a.contains(x) {
                count_other(member_of(x, k)->Array_0, s)
            } else {
                0
            }) && (forall|x: JsonV|
            r.contains(x) <==> (a.contains(x) && exists|w: int|
                0 <= w < member_of(x, k)->Array_0.len() && #[trigger] member_of(x, k)->Array_0[w] != JsonV::Str(s))),
{
    let sub = seq![Tok::NotEqual, Tok::Str(s)];
    let q = seq![Tok::Key(k), Tok::QueryOnce(sub)];
    law_index_items(a, k, Seq::empty());
    let m2 = index_items(a, k, Seq::empty())->Ok_0;
    assert forall|j: int| 0 <= j < m2.len() implies reads_back(#[trigger] m2[j].0) && m2[j].1 is Array by {
        assert(has_key(m2, m2[j].0));
        assert(a.contains(m2[j].0));
        let w = choose|w: int| 0 <= w < a.len() && a[w] == m2[j].0;
        assert(reads_back(a[w]));
        assert(member_of(a[w], k) is Array);
    }
    lemma_scan_not_equal(m2, s);
    let p = scan(m2, Tok::NotEqual, Tok::Str(s), true)->Ok_0;
    assert(peek_at(sub, 0) == Tok::Str(s));
    assert(Seq::<JsonV>::empty() + p =~= p);
    assert(query_steps(sub, 2, Seq::empty(), true, p, m2) == Ok::<Seq<JsonV>, FailV>(p));
    assert(query_steps(sub, 0, Seq::empty(), true, Seq::empty(), m2) == Ok::<Seq<JsonV>, FailV>(p));
    assert(query_value(sub, JsonV::Array(Seq::empty()), true, true, m2) == Ok::<JsonV, FailV>(JsonV::Array(p)));
    assert(decreases_to!(q => q[1]));
    assert(query_steps(q, 2, a, false, p, m2) == Ok::<Seq<JsonV>, FailV>(p));
    assert(query_steps(q, 1, a, false, Seq::empty(), m2) == Ok::<Seq<JsonV>, FailV>(p));
    assert(query_steps(q, 0, a, false, Seq::empty(), Seq::empty()) == Ok::<Seq<JsonV>, FailV>(p));
    assert forall|x: JsonV| occurs(p, x) == if a.contains(x) { count_other(member_of(x, k)->Array_0, s) } else { 0 } by {
        if a.contains(x) {
            assert(has_key(m2, x));
            let j = choose|j: int| 0 <= j < m2.len() && m2[j].0 == x;
            assert(occurs(p, m2[j].0) == count_other(m2[j].1->Array_0, s));
        }
    }
    assert forall|x: JsonV| p.contains(x) <==> (a.contains(x) && exists|w: int|
        0 <= w < member_of(x, k)->Array_0.len() && #[trigger] member_of(x, k)->Array_0[w] != JsonV::Str(s)) by {
        lemma_occurs_contains(p, x);
        lemma_count_other_pos(member_of(x, k)->Array_0, s);
    }
}

/// Doubles compare as IEEE-754 orders them, read off their bits: two
/// non-negative doubles (up to infinity) compare as their bit patterns do,
/// two negative ones the other way round, every negative double is below
/// every non-negative one but for the two zeros, which are equal, and a NaN
/// is neither below, above nor equal to anything.
pub proof fn law_double_order(a: u64, b: u64)
    ensures
        a <= 0x7ff0_0000_0000_0000 && b <= 0x7ff0_0000_0000_0000 ==> (f64_lt(a, b) <==> a < b) && (
        f64_le(a, b) <==> a <= b) && (f64_eq(a, b) <==> a == b),
        0x8000_0000_0000_0000 <= a <= 0xfff0_0000_0000_0000 && 0x8000_0000_0000_0000 <= b
            <= 0xfff0_0000_0000_0000 ==> (f64_lt(a, b) <==> a > b) && (f64_le(a, b) <==> a >= b) && (
        f64_eq(a, b) <==> a == b),
        a <= 0x7ff0_0000_0000_0000 && 0x8000_0000_0000_0000 <= b <= 0xfff0_0000_0000_0000 ==> !f64_lt(
            a,
            b,
        ) && (f64_lt(b, a) <==> !(a == 0 && b == 0x8000_0000_0000_0000)) && (f64_eq(a, b) <==> (a == 0
            && b == 0x8000_0000_0000_0000)),
        (0x7ff0_0000_0000_0000 < a < 0x8000_0000_0000_0000 || a > 0xfff0_0000_0000_0000) ==> !f64_lt(a, b)
            && !f64_lt(b, a) && !f64_le(a, b) && !f64_le(b, a) && !f64_eq(a, b),
{
    assert(a < 0x8000_0000_0000_0000 ==> (a as int) % 0x8000_0000_0000_0000 == a as int) by (nonlinear_arith);
    assert(b < 0x8000_0000_0000_0000 ==> (b as int) % 0x8000_0000_0000_0000 == b as int) by (nonlinear_arith);
    assert(a >= 0x8000_0000_0000_0000 ==> (a as int) % 0x8000_0000_0000_0000 == a - 0x8000_0000_0000_0000) by (nonlinear_arith);
    assert(b >= 0x8000_0000_0000_0000 ==> (b as int) % 0x8000_0000_0000_0000 == b - 0x8000_0000_0000_0000) by (nonlinear_arith);
}

/// `==` on an integer keeps exactly the items whose member is that integer
/// (an `i64` value), and `!=` exactly the others; on a double, `==` keeps
/// exactly the items whose member is a number equal to it as a double
/// (items that read back from their JSON text as themselves).
pub proof fn law_number_equality(a: Seq<JsonV>, k: Seq<char>, n: i64, f: u64, t: Seq<char>)
    requires
        all_read_back(a),
        forall|j: int| 0 <= j < a.len() ==> #[trigger] get_key(a[j], k) is Some,
    ensures
        query_value(seq![Tok::Key(k), Tok::Equal, Tok::Int(n)], JsonV::Array(a), true, false, Seq::empty())
            matches Ok(JsonV::Array(r)) && forall|x: JsonV|
            r.contains(x) <==> (a.contains(x) && i64_of(member_of(x, k)) == Some(n)),
        query_value(seq![Tok::Key(k), Tok::NotEqual, Tok::Int(n)], JsonV::Array(a), true, false, Seq::empty())
            matches Ok(JsonV::Array(r)) && forall|x: JsonV|
            r.contains(x) <==> (a.contains(x) && i64_of(member_of(x, k)) != Some(n)),
        query_value(seq![Tok::Key(k), Tok::Equal, Tok::Float(f, t)], JsonV::Array(a), true, false, Seq::empty())
            matches Ok(JsonV::Array(r)) && forall|x: JsonV|
            r.contains(x) <==> (a.contains(x) && f64_bits_of(member_of(x, k)) is Some && f64_eq(f64_bits_of(member_of(x, k))->0, f)),
{
    law_filter(a, k, Tok::Equal, Tok::Int(n));
    law_filter(a, k, Tok::NotEqual, Tok::Int(n));
    law_filter(a, k, Tok::Equal, Tok::Float(f, t));
}

/// On double operands (and members that are numbers), `>` keeps exactly the
/// items whose member is above the operand as a double, `>=` those at or
/// above it, `<` those below it, and `<=`, as written, also those strictly
/// below it (items that read back from their JSON text as themselves).
pub proof fn law_double_filter(a: Seq<JsonV>, k: Seq<char>, op: Tok, f: u64, t: Seq<char>)
    requires
        op is GreaterThan || op is GreaterThanEqual || op is LessThan || op is LessThanEqual,
        all_read_back(a),
        forall|j: int| 0 <= j < a.len() ==> #[trigger] get_key(a[j], k) is Some,
        forall|j: int| 0 <= j < a.len() ==> f64_bits_of(member_of(#[trigger] a[j], k)) is Some,
    ensures
        query_value(seq![Tok::Key(k), op, Tok::Float(f, t)], JsonV::Array(a), true, false, Seq::empty())
            matches Ok(JsonV::Array(r)) && forall|x: JsonV|
            r.contains(x) <==> (a.contains(x) && {
                let m = f64_bits_of(member_of(x, k))->0;
                &&& op is GreaterThan ==> f64_lt(f, m)
                &&& op is GreaterThanEqual ==> f64_le(f, m)
                &&& op is LessThan ==> f64_lt(m, f)
                &&& op is LessThanEqual ==> f64_lt(m, f)
            }),
{
    law_filter(a, k, op, Tok::Float(f, t));
}

proof fn lemma_skip_stars_of(stars: Seq<char>, q: Seq<char>)
    requires
        forall|i: int| 0 <= i < stars.len() ==> #[trigger] stars[i] == '*',
        q.len() > 0,
        q[0] != '*',
    ensures
        skip_stars(stars + q) == q,
    decreases stars.len(),
{
    if stars.len() == 0 {
        assert(Seq::<char>::empty() + q =~= q);
    } else {
        let d = stars.drop_first();
        assert forall|i: int| 0 <= i < d.len() implies #[trigger] d[i] == '*' by {
            assert(d[i] == stars[i + 1]);
        }
        lemma_skip_stars_of(d, q);
        assert((stars + q).drop_first() =~= d + q);
    }
}

/// A pattern of one or more `*`, then a text `p` with no `*`, then nothing or
/// more from a `*` on, keeps with `%` exactly the items whose member ends
/// with `p`, and with `!%` exactly the others (string members; items that
/// read back from their JSON text as themselves).
pub proof fn law_like_suffix(a: Seq<JsonV>, k: Seq<char>, stars: Seq<char>, p: Seq<char>, rest: Seq<char>)
    requires
        all_read_back(a),
        forall|j: int| 0 <= j < a.len() ==> #[trigger] get_key(a[j], k) is Some,
        forall|j: int| 0 <= j < a.len() ==> str_of(member_of(#[trigger] a[j], k)) is Some,
        stars.len() > 0,
        forall|i: int| 0 <= i < stars.len() ==> #[trigger] stars[i] == '*',
        p.len() > 0,
        forall|i: int| 0 <= i < p.len() ==> #[trigger] p[i] != '*',
        rest.len() == 0 || rest[0] == '*',
    ensures
        query_value(seq![Tok::Key(k), Tok::Like, Tok::Str(stars + p + rest)], JsonV::Array(a), true, false, Seq::empty())
            matches Ok(JsonV::Array(r)) && forall|x: JsonV|
            r.contains(x) <==> (a.contains(x) && {
                let t = str_of(member_of(x, k))->0;
                p.len() <= t.len() && t.subrange(t.len() - p.len(), t.len() as int) == p
            }),
        query_value(seq![Tok::Key(k), Tok::NotLike, Tok::Str(stars + p + rest)], JsonV::Array(a), true, false, Seq::empty())
            matches Ok(JsonV::Array(r)) && forall|x: JsonV|
            r.contains(x) <==> (a.contains(x) && {
                let t = str_of(member_of(x, k))->0;
                !(p.len() <= t.len() && t.subrange(t.len() - p.len(), t.len() as int) == p)
            }),
{
    let pat = stars + p + rest;
    assert(pat =~= stars + (p + rest));
    assert((p + rest)[0] == p[0]);
    lemma_skip_stars_of(stars, p + rest);
    lemma_until_star_of(p, rest);
    assert(pat[0] == '*');
    assert forall|t: Seq<char>| p.len() <= t.len() implies t.skip(t.len() - p.len()) =~= t.subrange(t.len() - p.len(), t.len() as int) by {}
    law_filter(a, k, Tok::Like, Tok::Str(pat));
    law_filter(a, k, Tok::NotLike, Tok::Str(pat));
}

/// How many values of `vals` satisfy `pred`.
pub open spec fn count_where(vals: Seq<JsonV>, pred: spec_fn(JsonV) -> bool) -> nat
    decreases vals.len(),
{
    if vals.len() == 0 {
        0
    } else {
        count_where(vals.drop_last(), pred) + if pred(vals.last()) {
            1nat
        } else {
            0nat
        }
    }
}

proof fn lemma_echo_count(obj: JsonV, vals: Seq<JsonV>, op: Tok, lit: Tok, pred: spec_fn(JsonV) -> bool)
    requires
        reads_back(obj),
        forall|v: JsonV| #[trigger] item_keep(op, lit, true, v) == Ok::<bool, FailV>(pred(v)),
    ensures
        echo(obj, vals, op, lit, true) matches Ok(r) && forall|x: JsonV|
            occurs(r, x) == if x == obj {
                count_where(vals, pred)
            } else {
                0
            },
    decreases vals.len(),
{
    if vals.len() > 0 {
        lemma_echo_count(obj, vals.drop_last(), op, lit, pred);
        let acc = echo(obj, vals.drop_last(), op, lit, true)->Ok_0;
        let v = vals.last();
        assert(item_keep(op, lit, true, v) == Ok::<bool, FailV>(pred(v)));
        if pred(v) {
            let r = acc.push(obj);
            assert(echo(obj, vals, op, lit, true) == Ok::<Seq<JsonV>, FailV>(r));
            assert(r.drop_last() =~= acc);
            assert(r.last() == obj);
            assert forall|x: JsonV| occurs(r, x) == if x == obj { count_where(vals, pred) } else { 0 } by {
                assert(occurs(r, x) == occurs(acc, x) + if obj == x { 1nat } else { 0nat });
            }
        } else {
            assert(echo(obj, vals, op, lit, true) == Ok::<Seq<JsonV>, FailV>(acc));
        }
    }
}

proof fn lemma_scan_count(m: Seq<(JsonV, JsonV)>, op: Tok, lit: Tok, pred: spec_fn(JsonV) -> bool)
    requires
        op is Equal || op is NotEqual,
        lit is Str || lit is Int,
        keys_distinct(m),
        forall|j: int| 0 <= j < m.len() ==> reads_back(#[trigger] m[j].0) && m[j].1 is Array,
        forall|v: JsonV| #[trigger] item_keep(op, lit, true, v) == Ok::<bool, FailV>(pred(v)),
    ensures
        scan(m, op, lit, true) matches Ok(p) && (forall|j: int|
            0 <= j < m.len() ==> occurs(p, #[trigger] m[j].0) == count_where(m[j].1->Array_0, pred)) && (
        forall|x: JsonV| !has_key(m, x) ==> occurs(p, x) == 0),
    decreases m.len(),
{
    if m.len() > 0 {
        let d = m.drop_last();
        assert forall|j: int| 0 <= j < d.len() implies reads_back(#[trigger] d[j].0) && d[j].1 is Array by {
            assert(d[j] == m[j]);
        }
        lemma_scan_count(d, op, lit, pred);
        let acc = scan(d, op, lit, true)->Ok_0;
        let e = m.last();
        assert(reads_back(m[m.len() - 1].0) && m[m.len() - 1].1 is Array);
        let vals = e.1->Array_0;
        lemma_echo_count(e.0, vals, op, lit, pred);
        let q = echo(e.0, vals, op, lit, true)->Ok_0;
        assert(entry_out(e, op, lit, true) == Ok::<Seq<JsonV>, FailV>(q));
        let p = acc + q;
        assert(scan(m, op, lit, true) == Ok::<Seq<JsonV>, FailV>(p));
        assert forall|x: JsonV| #[trigger] occurs(p, x) == occurs(acc, x) + occurs(q, x) by {
            lemma_occurs_add(acc, q, x);
        }
        assert(!has_key(d, e.0)) by {
            if has_key(d, e.0) {
                let w = choose|w: int| 0 <= w < d.len() && d[w].0 == e.0;
                assert(m[w].0 == m[m.len() - 1].0);
            }
        }
        assert forall|j: int| 0 <= j < m.len() implies occurs(p, #[trigger] m[j].0) == count_where(m[j].1->Array_0, pred) by {
            if j < d.len() {
                assert(d[j] == m[j]);
                assert(m[j].0 != m[m.len() - 1].0);
            }
        }
        assert forall|x: JsonV| !has_key(m, x) implies occurs(p, x) == 0 by {
            if has_key(d, x) {
                let w = choose|w: int| 0 <= w < d.len() && d[w].0 == x;
                assert(m[w] == d[w]);
            }
            assert(m[m.len() - 1].0 != x);
        }
    }
}

/// Whether a nested `op lit` keeps an item for the value `v` of its array:
/// `==` on a string for a value that is that string, `!=` for one that is
/// not; on an integer, both `==` and `!=` for a value that is that integer.
pub open spec fn nested_hit(op: Tok, lit: Tok) -> spec_fn(JsonV) -> bool {
    |v: JsonV| match lit {
        Tok::Str(s) => if op is NotEqual {
            v != JsonV::Str(s)
        } else {
            v == JsonV::Str(s)
        },
        Tok::Int(n) => i64_of(v) == Some(n),
        _ => false,
    }
}

/// A nested `==` or `!=` on a string or an integer, `#(k.#(op lit))#`,
/// keeps each item as many times as its array `k` holds values that it hits:
/// on a string, `==` hits the values that are that string and `!=` the
/// others; on an integer, both hit the values that are that integer (items
/// that read back from their JSON text as themselves).
pub proof fn law_nested_equality(a: Seq<JsonV>, k: Seq<char>, op: Tok, lit: Tok)
    requires
        op is Equal || op is NotEqual,
        lit is Str || lit is Int,
        all_read_back(a),
        forall|j: int| 0 <= j < a.len() ==> #[trigger] get_key(a[j], k) is Some,
        forall|j: int| 0 <= j < a.len() ==> member_of(#[trigger] a[j], k) is Array,
    ensures
        query_value(seq![Tok::Key(k), Tok::QueryOnce(seq![op, lit])], JsonV::Array(a), true, false, Seq::empty())
            matches Ok(JsonV::Array(r)) && forall|x: JsonV|
            occurs(r, x) == if a.contains(x) {
                count_where(member_of(x, k)->Array_0, nested_hit(op, lit))
            } else {
                0
            },
{
    let pred = nested_hit(op, lit);
    let sub = seq![op, lit];
    let q = seq![Tok::Key(k), Tok::QueryOnce(sub)];
    assert forall|v: JsonV| #[trigger] item_keep(op, lit, true, v) == Ok::<bool, FailV>(pred(v)) by {
        match lit {
            Tok::Str(s) => {
                assert((str_of(v) == Some(s)) == (v == JsonV::Str(s)));
            },
            _ => {},
        }
    }
    law_index_items(a, k, Seq::empty());
    let m2 = index_items(a, k, Seq::empty())->Ok_0;
    assert forall|j: int| 0 <= j < m2.len() implies reads_back(#[trigger] m2[j].0) && m2[j].1 is Array by {
        assert(has_key(m2, m2[j].0));
        assert(a.contains(m2[j].0));
        let w = choose|w: int| 0 <= w < a.len() && a[w] == m2[j].0;
        assert(reads_back(a[w]));
        assert(member_of(a[w], k) is Array);
    }
    lemma_scan_count(m2, op, lit, pred);
    let p = scan(m2, op, lit, true)->Ok_0;
    assert(peek_at(sub, 0) == lit);
    assert(Seq::<JsonV>::empty() + p =~= p);
    assert(query_steps(sub, 2, Seq::empty(), true, p, m2) == Ok::<Seq<JsonV>, FailV>(p));
    assert(query_steps(sub, 0, Seq::empty(), true, Seq::empty(), m2) == Ok::<Seq<JsonV>, FailV>(p));
    assert(query_value(sub, JsonV::Array(Seq::empty()), true, true, m2) == Ok::<JsonV, FailV>(JsonV::Array(p)));
    assert(decreases_to!(q => q[1]));
    assert(query_steps(q, 2, a, false, p, m2) == Ok::<Seq<JsonV>, FailV>(p));
    assert(query_steps(q, 1, a, false, Seq::empty(), m2) == Ok::<Seq<JsonV>, FailV>(p));
    assert(query_steps(q, 0, a, false, Seq::empty(), Seq::empty()) == Ok::<Seq<JsonV>, FailV>(p));
    assert forall|x: JsonV| occurs(p, x) == if a.contains(x) { count_where(member_of(x, k)->Array_0, pred) } else { 0 } by {
        if a.contains(x) {
            assert(has_key(m2, x));
            let j = choose|j: int| 0 <= j < m2.len() && m2[j].0 == x;
            assert(occurs(p, m2[j].0) == count_where(m2[j].1->Array_0, pred));
        }
    }
}

proof fn lemma_string_plain(t: Seq<char>, i: int, n: int, acc: Seq<char>)
    requires
        0 <= i <= n < t.len(),
        t[n] == '"',
        forall|j: int| i <= j < n ==> #[trigger] t[j] != '"' && t[j] != '\\',
    ensures
        lex_string(t, i, acc, false) == Ok::<(Seq<char>, int), ErrV>((acc + t.subrange(i, n), n + 1)),
    decreases n - i,
{
    if i == n {
        assert(acc + t.subrange(i, n) =~= acc);
    } else {
        assert(t[i] != '"' && t[i] != '\\');
        lemma_string_plain(t, i + 1, n, acc.push(t[i]));
        assert(acc.push(t[i]) + t.subrange(i + 1, n) =~= acc + t.subrange(i, n));
    }
}

/// A quoted string with no `"` or `\` in it reads as its text, and reading
/// goes on right after its closing quote.
pub proof fn law_string_read(s: Seq<char>, rest: Seq<char>)
    requires
        forall|j: int| 0 <= j < s.len() ==> #[trigger] s[j] != '"' && s[j] != '\\',
    ensures
        lex_string(s + seq!['"'] + rest, 0, Seq::empty(), false) == Ok::<(Seq<char>, int), ErrV>(
            (s, s.len() + 1 as int),
        ),
{
    let t = s + seq!['"'] + rest;
    assert forall|j: int| 0 <= j < s.len() implies #[trigger] t[j] != '"' && t[j] != '\\' by {
        assert(t[j] == s[j]);
    }
    lemma_string_plain(t, 0, s.len() as int, Seq::empty());
    assert(Seq::<char>::empty() + t.subrange(0, s.len() as int) =~= s);
}

/// The comparison operators as written in a query, and their tokens.
pub open spec fn operator_text(o: Seq<char>, tok: Tok) -> bool {
    ||| o == seq!['=', '='] && tok == Tok::Equal
    ||| o == seq!['!', '='] && tok == Tok::NotEqual
    ||| o == seq!['<'] && tok == Tok::LessThan
    ||| o == seq!['<', '='] && tok == Tok::LessThanEqual
    ||| o == seq!['>'] && tok == Tok::GreaterThan
    ||| o == seq!['>', '='] && tok == Tok::GreaterThanEqual
    ||| o == seq!['%'] && tok == Tok::Like
    ||| o == seq!['!', '%'] && tok == Tok::NotLike
}

proof fn lemma_key_op_read(t: Seq<char>, k: Seq<char>, o: Seq<char>, tok: Tok)
    requires
        is_key_text(k),
        operator_text(o, tok),
        t.len() > (k.len() + o.len()) as int,
        t.subrange(0, (k.len() + o.len()) as int) == k + o,
        t[(k.len() + o.len()) as int] != '=' && t[(k.len() + o.len()) as int] != '%',
    ensures
        lex_query(t, 0, Seq::empty()) == lex_query(t, (k.len() + o.len()) as int, seq![Tok::Key(k), tok]),
{
    let n = k.len() as int;
    let m: int = n + o.len();
    assert forall|j: int| 0 <= j < m implies #[trigger] t[j] == (k + o)[j] by {
        assert(t.subrange(0, m)[j] == t[j]);
    }
    assert forall|j: int| 1 <= j < n implies (crate::lexer::is_letter(#[trigger] t[j]) || t[j] == '*') by {
        assert(t[j] == k[j]);
    }
    assert(t[0] == k[0]);
    assert(t[n] == o[0]);
    crate::laws::lemma_key_end_exact(t, 1, n);
    assert(t.subrange(0, n) =~= k);
    let acc = Seq::<Tok>::empty().push(Tok::Key(k));
    assert(lex_query(t, 0, Seq::empty()) == lex_query(t, n, acc));
    if o.len() == 2 {
        assert(t[n + 1] == o[1]);
    }
    assert(acc.push(tok) =~= seq![Tok::Key(k), tok]);
}

/// A comparison `k op "s"` closed by `)`, with a key `k`, one of the eight
/// operators and a string with no `"` or `\`, reads as the query of the
/// key, the operator's token and the string, and ends after the `)`.
pub proof fn law_query_read(k: Seq<char>, o: Seq<char>, tok: Tok, s: Seq<char>)
    requires
        is_key_text(k),
        operator_text(o, tok),
        forall|j: int| 0 <= j < s.len() ==> #[trigger] s[j] != '"' && s[j] != '\\',
    ensures
        ({
            let t = k + o + seq!['"'] + s + seq!['"', ')'];
            lex_query(t, 0, Seq::empty()) == Ok::<(Tok, int), ErrV>(
                (Tok::QueryOnce(seq![Tok::Key(k), tok, Tok::Str(s)]), t.len() as int),
            )
        }),
{
    let t = k + o + seq!['"'] + s + seq!['"', ')'];
    let m: int = (k.len() + o.len()) as int;
    assert(t.subrange(0, m) =~= k + o);
    assert(t[m] == '"');
    lemma_key_op_read(t, k, o, tok);
    let e: int = m + 1 + s.len();
    assert(t[e] == '"');
    assert forall|j: int| m + 1 <= j < e implies #[trigger] t[j] != '"' && t[j] != '\\' by {
        assert(t[j] == s[j - m - 1]);
    }
    lemma_string_plain(t, m + 1, e, Seq::empty());
    assert(Seq::<char>::empty() + t.subrange(m + 1, e) =~= s);
    let acc = seq![Tok::Key(k), tok];
    assert(t[e + 1] == ')');
    assert(t.len() == e + 2);
    assert(lex_query(t, e + 1, acc.push(Tok::Str(s))) == Ok::<(Tok, int), ErrV>(
        (Tok::QueryOnce(acc.push(Tok::Str(s))), e + 2),
    ));
    assert(acc.push(Tok::Str(s)) =~= seq![Tok::Key(k), tok, Tok::Str(s)]);
}

/// A comparison `k op d` closed by `)`, with a key `k`, one of the eight
/// operators and a run of digits `d` that reads as the integer `n`, reads
/// as the query of the key, the operator's token and `n`, and ends after the `)`.
pub proof fn law_query_read_int(k: Seq<char>, o: Seq<char>, tok: Tok, d: Seq<char>, n: i64)
    requires
        is_key_text(k),
        operator_text(o, tok),
        is_digits(d),
        i64_from_str(d) == Ok::<i64, Seq<char>>(n),
    ensures
        ({
            let t = k + o + d + seq![')'];
            lex_query(t, 0, Seq::empty()) == Ok::<(Tok, int), ErrV>(
                (Tok::QueryOnce(seq![Tok::Key(k), tok, Tok::Int(n)]), t.len() as int),
            )
        }),
{
    let t = k + o + d + seq![')'];
    let m: int = (k.len() + o.len()) as int;
    assert(t.subrange(0, m) =~= k + o);
    assert(t[m] == d[0]);
    lemma_key_op_read(t, k, o, tok);
    let e: int = m + d.len();
    assert forall|j: int| m <= j < e implies '0' <= #[trigger] t[j] <= '9' by {
        assert(t[j] == d[j - m]);
    }
    lemma_number_end_upto_digits(t, m + 1, e);
    assert(t.subrange(m, e) =~= d);
    lemma_digits_no_dot(d);
    let acc = seq![Tok::Key(k), tok];
    assert(t[e] == ')');
    assert(t.len() == e + 1);
    assert(lex_query(t, e, acc.push(Tok::Int(n))) == Ok::<(Tok, int), ErrV>(
        (Tok::QueryOnce(acc.push(Tok::Int(n))), e + 1),
    ));
    assert(acc.push(Tok::Int(n)) =~= seq![Tok::Key(k), tok, Tok::Int(n)]);
}

proof fn lemma_number_end_upto_digits(t: Seq<char>, i: int, e: int)
    requires
        0 <= i <= e < t.len(),
        forall|j: int| i - 1 <= j < e ==> '0' <= #[trigger] t[j] <= '9',
        t[e] == ')',
    ensures
        number_end(t, i) == e,
    decreases e - i,
{
    if i < e {
        assert('0' <= t[i] <= '9');
        lemma_number_end_upto_digits(t, i + 1, e);
    }
}

/// Looking up a key gives the value of the object's member of that name,
/// and stops the program where there is no such member (or no object).
pub proof fn law_key_lookup(v: JsonV, k: Seq<char>)
    requires
        is_key_text(k),
    ensures
        get_outcome(v, k) == match get_key(v, k) {
            Some(w) => Ok::<JsonV, FailV>(w),
            None => Err::<JsonV, FailV>(FailV::Panic(PanicV::MissingKey(k))),
        },
{
    lemma_lex_key_exact(k);
    match get_key(v, k) {
        Some(w) => {
            assert(walk(seq![Tok::Key(k)], 1, w, false) == Ok::<JsonV, FailV>(w));
        },
        None => {},
    }
}

} // verus!
