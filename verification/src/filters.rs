//! What a query with one key and one test keeps, over the whole array.
use vstd::prelude::*;
use crate::json::{JsonV, get_key, str_of, i64_of, f64_bits_of, reads_back, all_read_back};
use crate::token::Tok;
use crate::query::{
    FailV, msg, query_value, query_steps, scan, entry_out, index_items, map_insert, position,
    equals_token, like_matches, like_check, int_holds, float_holds, peek_at, skip_stars, until_star,
    is_prefix, is_suffix,
};
use crate::laws::law_first_of_all;
use crate::query::{echo, item_keep, compare_entry};

verus! {

/// No two entries are for the same item.
pub open spec fn keys_distinct(m: Seq<(JsonV, JsonV)>) -> bool {
    forall|i: int, j: int| 0 <= i < j < m.len() ==> m[i].0 != m[j].0
}

/// Some entry is for the item `x`.
pub open spec fn has_key(m: Seq<(JsonV, JsonV)>, x: JsonV) -> bool {
    exists|j: int| 0 <= j < m.len() && m[j].0 == x
}

/// No value occurs twice.
pub open spec fn no_duplicates(r: Seq<JsonV>) -> bool {
    forall|i: int, j: int| 0 <= i < j < r.len() ==> r[i] != r[j]
}

/// The member `k` of `x`.
pub open spec fn member_of(x: JsonV, k: Seq<char>) -> JsonV {
    get_key(x, k)->0
}

/// The operator is one a query tests with.
pub open spec fn is_test(op: Tok) -> bool {
    op is Equal || op is NotEqual || op is Like || op is NotLike || op is GreaterThan
        || op is GreaterThanEqual || op is LessThan || op is LessThanEqual
}

/// The operand suits the operator, whatever the items.
pub open spec fn operand_ok(op: Tok, lit: Tok) -> bool {
    if op is Equal || op is NotEqual {
        lit is Str || lit is Float || lit is Int
    } else if op is Like || op is NotLike {
        like_check(lit) is None
    } else {
        lit is Int || lit is Float
    }
}

/// The value suits the test: a string for a pattern, a number of the
/// operand's kind for an ordering.
pub open spec fn value_ok(op: Tok, lit: Tok, v: JsonV) -> bool {
    if op is Equal || op is NotEqual {
        true
    } else if op is Like || op is NotLike {
        str_of(v) is Some
    } else {
        match lit {
            Tok::Int(_) => i64_of(v) is Some,
            Tok::Float(_, _) => f64_bits_of(v) is Some,
            _ => false,
        }
    }
}

/// Whether the test `op lit` keeps a value.
pub open spec fn keeps(op: Tok, lit: Tok, v: JsonV) -> bool {
    match op {
        Tok::Equal => equals_token(v, lit),
        Tok::NotEqual => !equals_token(v, lit),
        Tok::Like => like_matches(lit, str_of(v)->0),
        Tok::NotLike => !like_matches(lit, str_of(v)->0),
        _ => match lit {
            Tok::Int(n) => int_holds(op, i64_of(v)->0, n),
            Tok::Float(f, _) => float_holds(op, f64_bits_of(v)->0, f),
            _ => false,
        },
    }
}

proof fn lemma_position(m: Seq<(JsonV, JsonV)>, k: JsonV)
    ensures
        0 <= position(m, k) <= m.len(),
        position(m, k) < m.len() ==> m[position(m, k)].0 == k,
        forall|j: int| 0 <= j < position(m, k) ==> m[j].0 != k,
    decreases m.len(),
{
    if m.len() > 0 && m[0].0 != k {
        lemma_position(m.drop_first(), k);
        assert forall|j: int| 0 <= j < position(m, k) implies m[j].0 != k by {
            if j > 0 {
                assert(m.drop_first()[j - 1] == m[j]);
            }
        }
    }
}

/// Giving an item a value keeps the entries one per item, and the items are
/// those before and the new one.
pub proof fn law_insert_distinct(m: Seq<(JsonV, JsonV)>, k: JsonV, v: JsonV)
    requires
        keys_distinct(m),
    ensures
        keys_distinct(map_insert(m, k, v)),
        forall|x: JsonV| has_key(map_insert(m, k, v), x) <==> (x == k || has_key(m, x)),
        forall|j: int|
            0 <= j < map_insert(m, k, v).len() ==> (#[trigger] map_insert(m, k, v)[j].0 == k
                && map_insert(m, k, v)[j].1 == v) || (map_insert(m, k, v)[j].0 != k && exists|i: int|
                0 <= i < m.len() && m[i] == map_insert(m, k, v)[j]),
{
    lemma_position(m, k);
    let p = position(m, k);
    let r = map_insert(m, k, v);
    if p < m.len() {
        assert forall|x: JsonV| has_key(r, x) <==> (x == k || has_key(m, x)) by {
            if has_key(r, x) {
                let j = choose|j: int| 0 <= j < r.len() && r[j].0 == x;
                if j != p {
                    assert(m[j].0 == x);
                }
            }
            if x == k {
                assert(r[p].0 == x);
            }
            if has_key(m, x) {
                let j = choose|j: int| 0 <= j < m.len() && m[j].0 == x;
                assert(r[j].0 == x);
            }
        }
        assert forall|j: int| 0 <= j < r.len() implies (#[trigger] r[j].0 == k && r[j].1 == v) || (
        r[j].0 != k && exists|i: int| 0 <= i < m.len() && m[i] == r[j]) by {
            if j != p {
                assert(m[j] == r[j]);
                if m[j].0 == k {
                    if j < p {
                    } else {
                        assert(m[p].0 == m[j].0);
                    }
                }
            }
        }
    } else {
        assert forall|i: int, j: int| 0 <= i < j < r.len() implies r[i].0 != r[j].0 by {
            if j == m.len() {
                assert(r[i] == m[i]);
            }
        }
        assert forall|x: JsonV| has_key(r, x) <==> (x == k || has_key(m, x)) by {
            if has_key(r, x) {
                let j = choose|j: int| 0 <= j < r.len() && r[j].0 == x;
                if j < m.len() {
                    assert(m[j].0 == x);
                }
            }
            if x == k {
                assert(r[m.len() as int].0 == x);
            }
            if has_key(m, x) {
                let j = choose|j: int| 0 <= j < m.len() && m[j].0 == x;
                assert(r[j].0 == x);
            }
        }
        assert forall|j: int| 0 <= j < r.len() implies (#[trigger] r[j].0 == k && r[j].1 == v) || (
        r[j].0 != k && exists|i: int| 0 <= i < m.len() && m[i] == r[j]) by {
            if j < m.len() {
                assert(m[j] == r[j]);
            }
        }
    }
}

/// Reading the key `k` of items that all have it keeps one entry per item,
/// each holding the item's member, and the items are those before and those
/// of the array.
pub proof fn law_index_items(a: Seq<JsonV>, k: Seq<char>, m0: Seq<(JsonV, JsonV)>)
    requires
        keys_distinct(m0),
        forall|j: int| 0 <= j < m0.len() ==> #[trigger] m0[j].1 == member_of(m0[j].0, k),
        forall|j: int| 0 <= j < a.len() ==> #[trigger] get_key(a[j], k) is Some,
    ensures
        index_items(a, k, m0) matches Ok(m2) && keys_distinct(m2) && (forall|j: int|
            0 <= j < m2.len() ==> #[trigger] m2[j].1 == member_of(m2[j].0, k)) && (forall|x: JsonV|
            has_key(m2, x) <==> (has_key(m0, x) || a.contains(x))),
    decreases a.len(),
{
    if a.len() == 0 {
    } else {
        let d = a.drop_last();
        assert forall|j: int| 0 <= j < d.len() implies #[trigger] get_key(d[j], k) is Some by {
            assert(d[j] == a[j]);
        }
        law_index_items(d, k, m0);
        let m1 = index_items(d, k, m0)->Ok_0;
        let last = a.last();
        assert(get_key(a[a.len() - 1], k) is Some);
        let ms = last->Object_0;
        let v = member_of(last, k);
        assert(crate::json::member(ms, k) == Some(v));
        law_insert_distinct(m1, last, v);
        let m2 = map_insert(m1, last, v);
        assert(index_items(a, k, m0) == Ok::<Seq<(JsonV, JsonV)>, FailV>(m2));
        assert forall|j: int| 0 <= j < m2.len() implies #[trigger] m2[j].1 == member_of(m2[j].0, k) by {
            if m2[j].0 != last {
                let i = choose|i: int| 0 <= i < m1.len() && m1[i] == m2[j];
                assert(m1[i].1 == member_of(m1[i].0, k));
            }
        }
        assert forall|x: JsonV| has_key(m2, x) <==> (has_key(m0, x) || a.contains(x)) by {
            if a.contains(x) && x != last {
                let j = choose|j: int| 0 <= j < a.len() && a[j] == x;
                assert(j < d.len());
                assert(d[j] == x);
                assert(d.contains(x));
            }
            if d.contains(x) {
                let j = choose|j: int| 0 <= j < d.len() && d[j] == x;
                assert(a[j] == x);
            }
            if x == last {
                assert(a[a.len() - 1] == x);
            }
        }
    }
}

proof fn lemma_entry_keeps(x: JsonV, v: JsonV, op: Tok, lit: Tok)
    requires
        is_test(op),
        operand_ok(op, lit),
        value_ok(op, lit, v),
        reads_back(x),
    ensures
        entry_out((x, v), op, lit, false) == Ok::<Seq<JsonV>, FailV>(
            if keeps(op, lit, v) {
                seq![x]
            } else {
                Seq::empty()
            },
        ),
{
}

/// The items a test keeps among entries that are one per item, where the
/// items read back from their JSON text as themselves: each kept item once,
/// in the order of the entries.
pub proof fn law_scan_keeps(m: Seq<(JsonV, JsonV)>, op: Tok, lit: Tok)
    requires
        is_test(op),
        operand_ok(op, lit),
        keys_distinct(m),
        forall|j: int| 0 <= j < m.len() ==> #[trigger] reads_back(m[j].0),
        forall|j: int| 0 <= j < m.len() ==> value_ok(op, lit, #[trigger] m[j].1),
    ensures
        scan(m, op, lit, false) matches Ok(r) && no_duplicates(r) && (forall|x: JsonV|
            r.contains(x) <==> exists|j: int|
                0 <= j < m.len() && m[j].0 == x && keeps(op, lit, m[j].1)),
    decreases m.len(),
{
    if m.len() > 0 {
        let d = m.drop_last();
        assert forall|j: int| 0 <= j < d.len() implies value_ok(op, lit, #[trigger] d[j].1) by {
            assert(d[j] == m[j]);
        }
        assert forall|j: int| 0 <= j < d.len() implies #[trigger] reads_back(d[j].0) by {
            assert(d[j] == m[j]);
        }
        assert(reads_back(m[m.len() - 1].0));
        law_scan_keeps(d, op, lit);
        let r0 = scan(d, op, lit, false)->Ok_0;
        let e = m.last();
        assert(value_ok(op, lit, m[m.len() - 1].1));
        lemma_entry_keeps(e.0, e.1, op, lit);
        let p: Seq<JsonV> = if keeps(op, lit, e.1) { seq![e.0] } else { Seq::empty() };
        let r = r0 + p;
        assert(scan(m, op, lit, false) == Ok::<Seq<JsonV>, FailV>(r));
        assert forall|x: JsonV| r.contains(x) <==> exists|j: int|
            0 <= j < m.len() && m[j].0 == x && keeps(op, lit, m[j].1) by {
            if r.contains(x) {
                let w = choose|w: int| 0 <= w < r.len() && r[w] == x;
                if w < r0.len() {
                    assert(r0[w] == x);
                    assert(r0.contains(x));
                    let j = choose|j: int| 0 <= j < d.len() && d[j].0 == x && keeps(op, lit, d[j].1);
                    assert(m[j] == d[j]);
                } else {
                    assert(m[m.len() - 1] == e);
                }
            }
            if exists|j: int| 0 <= j < m.len() && m[j].0 == x && keeps(op, lit, m[j].1) {
                let j = choose|j: int| 0 <= j < m.len() && m[j].0 == x && keeps(op, lit, m[j].1);
                if j < d.len() {
                    assert(d[j] == m[j]);
                    assert(r0.contains(x));
                    let w = choose|w: int| 0 <= w < r0.len() && r0[w] == x;
                    assert(r[w] == x);
                } else {
                    assert(r[r0.len() as int] == x);
                }
            }
        }
        assert forall|i: int, j: int| 0 <= i < j < r.len() implies r[i] != r[j] by {
            if j >= r0.len() {
                assert(r[j] == e.0);
                assert(r[i] == r0[i]);
                assert(r0.contains(r0[i]));
                let w = choose|w: int| 0 <= w < d.len() && d[w].0 == r0[i] && keeps(op, lit, d[w].1);
                assert(m[w] == d[w]);
                assert(m[w].0 != m[m.len() - 1].0);
            } else {
                assert(r[i] == r0[i] && r[j] == r0[j]);
            }
        }
    }
}

/// A query `#(k op lit)#` on an array whose items all have the key `k`, with
/// an operand and values that suit the test, keeps exactly the items whose
/// member passes the test, each once, where the items read back from their
/// JSON text as themselves (as every item without a double does).
pub proof fn law_filter(a: Seq<JsonV>, k: Seq<char>, op: Tok, lit: Tok)
    requires
        all_read_back(a),
        is_test(op),
        operand_ok(op, lit),
        forall|j: int| 0 <= j < a.len() ==> #[trigger] get_key(a[j], k) is Some,
        forall|j: int| 0 <= j < a.len() ==> value_ok(op, lit, member_of(#[trigger] a[j], k)),
    ensures
        query_value(seq![Tok::Key(k), op, lit], JsonV::Array(a), true, false, Seq::empty()) matches Ok(
            JsonV::Array(r),
        ) && no_duplicates(r) && (forall|x: JsonV|
            r.contains(x) <==> (a.contains(x) && keeps(op, lit, member_of(x, k)))),
{
    let q = seq![Tok::Key(k), op, lit];
    law_index_items(a, k, Seq::empty());
    let m2 = index_items(a, k, Seq::empty())->Ok_0;
    assert forall|j: int| 0 <= j < m2.len() implies value_ok(op, lit, #[trigger] m2[j].1) by {
        assert(has_key(m2, m2[j].0));
        assert(a.contains(m2[j].0));
        let w = choose|w: int| 0 <= w < a.len() && a[w] == m2[j].0;
        assert(value_ok(op, lit, member_of(a[w], k)));
    }
    assert forall|j: int| 0 <= j < m2.len() implies #[trigger] reads_back(m2[j].0) by {
        assert(has_key(m2, m2[j].0));
        assert(a.contains(m2[j].0));
        let w = choose|w: int| 0 <= w < a.len() && a[w] == m2[j].0;
        assert(reads_back(a[w]));
    }
    law_scan_keeps(m2, op, lit);
    let r = scan(m2, op, lit, false)->Ok_0;
    assert(peek_at(q, 1) == lit);
    assert(Seq::<JsonV>::empty() + r =~= r);
    assert(query_steps(q, 3, a, false, r, m2) == Ok::<Seq<JsonV>, FailV>(r));
    assert(query_steps(q, 1, a, false, Seq::empty(), m2) == Ok::<Seq<JsonV>, FailV>(r));
    assert(query_steps(q, 0, a, false, Seq::empty(), Seq::empty()) == Ok::<Seq<JsonV>, FailV>(r));
    assert forall|x: JsonV| r.contains(x) <==> (a.contains(x) && keeps(op, lit, member_of(x, k))) by {
        if r.contains(x) {
            let j = choose|j: int| 0 <= j < m2.len() && m2[j].0 == x && keeps(op, lit, m2[j].1);
            assert(has_key(m2, x));
        }
        if a.contains(x) && keeps(op, lit, member_of(x, k)) {
            assert(has_key(m2, x));
            let j = choose|j: int| 0 <= j < m2.len() && m2[j].0 == x;
            assert(m2[j].1 == member_of(m2[j].0, k));
        }
    }
}

/// A query `#(k op lit)` (one match) on such an array gives an item of the
/// array whose member passes the test, where there is one, and otherwise
/// says that there is nothing to return (items that read back from their
/// JSON text as themselves).
pub proof fn law_first_match(a: Seq<JsonV>, k: Seq<char>, op: Tok, lit: Tok)
    requires
        all_read_back(a),
        is_test(op),
        operand_ok(op, lit),
        forall|j: int| 0 <= j < a.len() ==> #[trigger] get_key(a[j], k) is Some,
        forall|j: int| 0 <= j < a.len() ==> value_ok(op, lit, member_of(#[trigger] a[j], k)),
    ensures
        if exists|x: JsonV| a.contains(x) && keeps(op, lit, member_of(x, k)) {
            query_value(seq![Tok::Key(k), op, lit], JsonV::Array(a), false, false, Seq::empty())
                matches Ok(x) && a.contains(x) && keeps(op, lit, member_of(x, k))
        } else {
            query_value(seq![Tok::Key(k), op, lit], JsonV::Array(a), false, false, Seq::empty())
                == Err::<JsonV, FailV>(msg("Nothing to return."@))
        },
{
    let q = seq![Tok::Key(k), op, lit];
    law_filter(a, k, op, lit);
    law_first_of_all(q, JsonV::Array(a));
    let r = query_value(q, JsonV::Array(a), true, false, Seq::empty())->Ok_0->Array_0;
    if exists|x: JsonV| a.contains(x) && keeps(op, lit, member_of(x, k)) {
        let x = choose|x: JsonV| a.contains(x) && keeps(op, lit, member_of(x, k));
        assert(r.contains(x));
        assert(r.contains(r[0]));
    } else {
        if r.len() > 0 {
            assert(r.contains(r[0]));
        }
    }
}

/// `!=` keeps exactly the items of the array that `==` leaves, on a string,
/// double or integer; `!%` keeps exactly those that `%` leaves, where every
/// member is a string. Neither fails. The items read back from their JSON
/// text as themselves.
pub proof fn law_complement(a: Seq<JsonV>, k: Seq<char>, op: Tok, nop: Tok, lit: Tok)
    requires
        all_read_back(a),
        (op is Equal && nop is NotEqual && (lit is Str || lit is Float || lit is Int)) || (op is Like
            && nop is NotLike && like_check(lit) is None && forall|j: int|
            0 <= j < a.len() ==> str_of(member_of(#[trigger] a[j], k)) is Some),
        forall|j: int| 0 <= j < a.len() ==> #[trigger] get_key(a[j], k) is Some,
    ensures
        query_value(seq![Tok::Key(k), op, lit], JsonV::Array(a), true, false, Seq::empty()) matches Ok(
            JsonV::Array(ra),
        ) && query_value(seq![Tok::Key(k), nop, lit], JsonV::Array(a), true, false, Seq::empty())
            matches Ok(JsonV::Array(rb)) && (forall|x: JsonV|
            a.contains(x) ==> (ra.contains(x) <==> !rb.contains(x))) && (forall|x: JsonV|
            ra.contains(x) || rb.contains(x) ==> a.contains(x)),
{
    assert forall|j: int| 0 <= j < a.len() implies value_ok(op, lit, member_of(#[trigger] a[j], k))
        && value_ok(nop, lit, member_of(a[j], k)) by {}
    law_filter(a, k, op, lit);
    law_filter(a, k, nop, lit);
}

proof fn lemma_until_star_plain(p: Seq<char>)
    requires
        forall|i: int| 0 <= i < p.len() ==> #[trigger] p[i] != '*',
    ensures
        until_star(p) == p,
        until_star(p + seq!['*']) == p,
    decreases p.len(),
{
    if p.len() == 0 {
        assert((p + seq!['*'])[0] == '*');
    } else {
        let d = p.drop_first();
        assert forall|i: int| 0 <= i < d.len() implies #[trigger] d[i] != '*' by {
            assert(d[i] == p[i + 1]);
        }
        lemma_until_star_plain(d);
        assert((p + seq!['*']).drop_first() =~= d + seq!['*']);
        assert((p + seq!['*'])[0] == p[0]);
        assert(seq![p[0]] + d =~= p);
    }
}

/// A pattern `p*` keeps the items whose member starts with `p`, and `*p`
/// those whose member ends with `p`, where `p` holds no star, every member
/// is a string and the items read back from their JSON text as themselves.
pub proof fn law_prefix_suffix(a: Seq<JsonV>, k: Seq<char>, p: Seq<char>, suffix: bool)
    requires
        all_read_back(a),
        p.len() > 0,
        forall|i: int| 0 <= i < p.len() ==> #[trigger] p[i] != '*',
        forall|j: int| 0 <= j < a.len() ==> #[trigger] get_key(a[j], k) is Some,
        forall|j: int| 0 <= j < a.len() ==> str_of(member_of(#[trigger] a[j], k)) is Some,
    ensures
        ({
            let pattern = if suffix {
                seq!['*'] + p
            } else {
                p + seq!['*']
            };
            query_value(
                seq![Tok::Key(k), Tok::Like, Tok::Str(pattern)],
                JsonV::Array(a),
                true,
                false,
                Seq::empty(),
            ) matches Ok(JsonV::Array(r)) && no_duplicates(r) && forall|x: JsonV|
                r.contains(x) <==> (a.contains(x) && if suffix {
                    is_suffix(p, str_of(member_of(x, k))->0)
                } else {
                    is_prefix(p, str_of(member_of(x, k))->0)
                })
        }),
{
    let pattern = if suffix { seq!['*'] + p } else { p + seq!['*'] };
    lemma_until_star_plain(p);
    if suffix {
        assert(pattern[0] == '*');
        assert(pattern.drop_first() =~= p);
        assert(p[0] != '*');
        assert(skip_stars(pattern) == skip_stars(p));
    } else {
        assert(pattern[0] == p[0]);
    }
    let lit = Tok::Str(pattern);
    assert forall|j: int| 0 <= j < a.len() implies value_ok(Tok::Like, lit, member_of(#[trigger] a[j], k)) by {}
    law_filter(a, k, Tok::Like, lit);
}

proof fn lemma_scan_fails(m: Seq<(JsonV, JsonV)>, op: Tok, lit: Tok, e: FailV)
    requires
        m.len() > 0,
        forall|j: int| 0 <= j < m.len() ==> entry_out(#[trigger] m[j], op, lit, false) == Err::<Seq<JsonV>, FailV>(e),
    ensures
        scan(m, op, lit, false) == Err::<Seq<JsonV>, FailV>(e),
    decreases m.len(),
{
    let d = m.drop_last();
    if d.len() > 0 {
        assert forall|j: int| 0 <= j < d.len() implies entry_out(#[trigger] d[j], op, lit, false) == Err::<Seq<JsonV>, FailV>(e) by {
            assert(d[j] == m[j]);
        }
        lemma_scan_fails(d, op, lit, e);
    } else {
        assert(scan(d, op, lit, false) == Ok::<Seq<JsonV>, FailV>(Seq::empty()));
    }
    assert(m[m.len() - 1] == m.last());
    assert(entry_out(m[m.len() - 1], op, lit, false) == Err::<Seq<JsonV>, FailV>(e));
}

/// On an array whose items all have the key, a pattern test fails on a
/// number ("Expected String."), on an empty pattern ("Empty String.") or on
/// anything else that is not a string; an ordering fails on a string; and,
/// where the array has an item, an equality fails on anything that is not a
/// string, double or integer.
pub proof fn law_operand_checks(a: Seq<JsonV>, k: Seq<char>, op: Tok, lit: Tok, hashtag: bool)
    requires
        is_test(op),
        forall|j: int| 0 <= j < a.len() ==> #[trigger] get_key(a[j], k) is Some,
    ensures
        ({
            let r = query_value(seq![Tok::Key(k), op, lit], JsonV::Array(a), hashtag, false, Seq::empty());
            &&& (op is Like || op is NotLike) && like_check(lit) is Some ==> r == Err::<JsonV, FailV>(like_check(lit)->0)
            &&& (op is GreaterThan || op is GreaterThanEqual || op is LessThan || op is LessThanEqual) && lit is Str
                ==> r == Err::<JsonV, FailV>(msg("Expected Float/Integer"@))
            &&& (op is Equal || op is NotEqual) && !(lit is Str || lit is Float || lit is Int) && a.len() > 0
                ==> r == Err::<JsonV, FailV>(msg("Expected Integer, Float or String"@))
        }),
{
    let q = seq![Tok::Key(k), op, lit];
    law_index_items(a, k, Seq::empty());
    let m2 = index_items(a, k, Seq::empty())->Ok_0;
    assert(peek_at(q, 1) == lit);
    assert(query_steps(q, 0, a, false, Seq::empty(), Seq::empty()) == query_steps(q, 1, a, false, Seq::empty(), m2));
    if (op is Equal || op is NotEqual) && !(lit is Str || lit is Float || lit is Int) && a.len() > 0 {
        assert(a.contains(a[0]));
        assert(has_key(m2, a[0]));
        let e = msg("Expected Integer, Float or String"@);
        assert forall|j: int| 0 <= j < m2.len() implies entry_out(#[trigger] m2[j], op, lit, false) == Err::<Seq<JsonV>, FailV>(e) by {}
        lemma_scan_fails(m2, op, lit, e);
    }
}

/// Reading a key keeps the entries one per item, whatever they were before.
pub proof fn law_index_distinct(a: Seq<JsonV>, k: Seq<char>, m0: Seq<(JsonV, JsonV)>)
    requires
        keys_distinct(m0),
    ensures
        index_items(a, k, m0) matches Ok(m2) ==> keys_distinct(m2),
    decreases a.len(),
{
    if a.len() > 0 {
        law_index_distinct(a.drop_last(), k, m0);
        match index_items(a.drop_last(), k, m0) {
            Ok(m1) => match a.last() {
                JsonV::Object(ms) => match crate::json::member(ms, k) {
                    Some(v) => law_insert_distinct(m1, a.last(), v),
                    None => {},
                },
                _ => {},
            },
            Err(_) => {},
        }
    }
}

/// The failure of a query run on what is not an array.
pub open spec fn need_array() -> FailV {
    msg("Need Array for Query Parsing!"@)
}

proof fn lemma_msgs_differ()
    ensures
        msg("Could not get object"@) != need_array(),
        msg("Expected Integer, Float or String"@) != need_array(),
        msg("Expected String"@) != need_array(),
        msg("Expected String."@) != need_array(),
        msg("Empty String."@) != need_array(),
        msg("Could not get string"@) != need_array(),
        msg("Value is not Float."@) != need_array(),
        msg("Value is not Integer."@) != need_array(),
        msg("Expected Float/Integer"@) != need_array(),
        msg("Nothing to return."@) != need_array(),
        forall|k: Seq<char>| msg("Could not get Key: `"@ + k + "`"@) != need_array(),
{
    reveal_strlit("Need Array for Query Parsing!");
    reveal_strlit("Could not get object");
    reveal_strlit("Expected Integer, Float or String");
    reveal_strlit("Expected String");
    reveal_strlit("Expected String.");
    reveal_strlit("Empty String.");
    reveal_strlit("Could not get string");
    reveal_strlit("Value is not Float.");
    reveal_strlit("Value is not Integer.");
    reveal_strlit("Expected Float/Integer");
    reveal_strlit("Nothing to return.");
    reveal_strlit("Could not get Key: `");
    let need = "Need Array for Query Parsing!"@;
    assert("Could not get object"@[0] != need[0]);
    assert("Expected Integer, Float or String"@[0] != need[0]);
    assert("Expected String"@[0] != need[0]);
    assert("Expected String."@[0] != need[0]);
    assert("Empty String."@[0] != need[0]);
    assert("Could not get string"@[0] != need[0]);
    assert("Value is not Float."@[0] != need[0]);
    assert("Value is not Integer."@[0] != need[0]);
    assert("Expected Float/Integer"@[0] != need[0]);
    assert("Nothing to return."@[1] != need[1]);
    assert forall|k: Seq<char>| msg("Could not get Key: `"@ + k + "`"@) != need_array() by {
        assert(("Could not get Key: `"@ + k + "`"@)[0] != need[0]);
    }
}

proof fn lemma_index_not_need(a: Seq<JsonV>, k: Seq<char>, m: Seq<(JsonV, JsonV)>)
    ensures
        index_items(a, k, m) != Err::<Seq<(JsonV, JsonV)>, FailV>(need_array()),
    decreases a.len(),
{
    lemma_msgs_differ();
    if a.len() > 0 {
        lemma_index_not_need(a.drop_last(), k, m);
    }
}

proof fn lemma_echo_not_need(obj: JsonV, items: Seq<JsonV>, op: Tok, peek: Tok, in_arr: bool)
    ensures
        echo(obj, items, op, peek, in_arr) != Err::<Seq<JsonV>, FailV>(need_array()),
    decreases items.len(),
{
    lemma_msgs_differ();
    if items.len() > 0 {
        lemma_echo_not_need(obj, items.drop_last(), op, peek, in_arr);
    }
}

proof fn lemma_scan_not_need(m: Seq<(JsonV, JsonV)>, op: Tok, peek: Tok, in_arr: bool)
    ensures
        scan(m, op, peek, in_arr) != Err::<Seq<JsonV>, FailV>(need_array()),
    decreases m.len(),
{
    lemma_msgs_differ();
    if m.len() > 0 {
        lemma_scan_not_need(m.drop_last(), op, peek, in_arr);
        let e = m.last();
        match e.1 {
            JsonV::Array(items) => lemma_echo_not_need(e.0, items, op, peek, in_arr),
            _ => {},
        }
    }
}

proof fn lemma_steps_not_need(
    q: Seq<Tok>,
    i: int,
    arr: Seq<JsonV>,
    in_arr: bool,
    ret: Seq<JsonV>,
    m: Seq<(JsonV, JsonV)>,
)
    ensures
        query_steps(q, i, arr, in_arr, ret, m) != Err::<Seq<JsonV>, FailV>(need_array()),
    decreases q, q.len() + 1 - i,
{
    lemma_msgs_differ();
    if 0 <= i < q.len() {
        let peek = peek_at(q, i);
        match q[i] {
            Tok::Dot => lemma_steps_not_need(q, i + 1, arr, in_arr, ret, m),
            Tok::Hashtag => lemma_steps_not_need(q, i + 1, arr, in_arr, ret, m),
            Tok::QueryOnce(sub) => {
                if sub.len() == 2 {
                    assert(decreases_to!(q => q[i]));
                    assert(query_value(sub, JsonV::Array(ret), true, true, m) == match query_steps(
                        sub,
                        0,
                        ret,
                        true,
                        Seq::empty(),
                        m,
                    ) {
                        Ok(r) => Ok::<JsonV, FailV>(JsonV::Array(r)),
                        Err(e) => Err(e),
                    });
                    match query_steps(sub, 0, ret, true, Seq::empty(), m) {
                        Ok(r) => lemma_steps_not_need(q, i + 1, arr, in_arr, r, m),
                        Err(_) => {},
                    }
                }
            },
            Tok::Key(k) => {
                lemma_index_not_need(arr, k, m);
                match index_items(arr, k, m) {
                    Ok(m2) => lemma_steps_not_need(q, i + 1, arr, in_arr, ret, m2),
                    Err(_) => {},
                }
            },
            Tok::Like | Tok::NotLike | Tok::Equal | Tok::NotEqual | Tok::GreaterThan
            | Tok::GreaterThanEqual | Tok::LessThan | Tok::LessThanEqual => {
                lemma_scan_not_need(m, q[i], peek, in_arr);
                match scan(m, q[i], peek, in_arr) {
                    Ok(p) => lemma_steps_not_need(q, i + 2, arr, in_arr, ret + p, m),
                    Err(_) => {},
                }
            },
            _ => {},
        }
    }
}

/// A query says it needs an array exactly when it is run on what is not one,
/// at the top level or nested in another query, whatever the entries it
/// starts from; it says so before it looks at any of its tokens.
pub proof fn law_need_array(q: Seq<Tok>, curr: JsonV, hashtag: bool, in_arr: bool, m: Seq<(JsonV, JsonV)>)
    ensures
        (query_value(q, curr, hashtag, in_arr, m) == Err::<JsonV, FailV>(need_array()))
            <==> !(curr is Array),
{
    lemma_msgs_differ();
    match curr {
        JsonV::Array(a) => lemma_steps_not_need(q, 0, a, in_arr, Seq::empty(), m),
        _ => {},
    }
}

} // verus!
