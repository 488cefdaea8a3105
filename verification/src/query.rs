//! Queries: `#(...)` filters over the items of an array.
//!
//! A query reads the keys it names from each item, then keeps the items
//! whose values pass each comparison. Items are remembered in a list of
//! (item, value) entries, one entry per distinct item, in the order the items
//! were first met.
use vstd::prelude::*;
use crate::json::{
    Json, JsonV, read_back, values_view, lemma_items_values, str_of, i64_of, f64_bits_of, member, f64_lt, f64_le, f64_eq,
};
use crate::token::{Token, Tok, TokenError, ErrV, tok_text, token_view, tokens_view, lemma_tokens_view};
use crate::numeric::chars_of;

verus! {

/// A check that would stop the program: the run cannot go on.
#[derive(Debug)]
pub enum PanicSite {
    /// A key was asked of a value that does not have it.
    MissingKey(String),
    /// An index was asked of a value that does not have it.
    MissingIndex(i64),
    /// A query nested in a query does not hold exactly two tokens.
    QueryArity,
    /// A query nested in a query failed with this error.
    NestedQuery(TokenError),
    /// A value that had to be an array is not one.
    NotArray,
    /// A kept item could not be read back from its JSON text.
    BadJson,
}

/// Why running an expression gave no value.
#[derive(Debug)]
pub enum Failure {
    Error(TokenError),
    Panic(PanicSite),
}

/// The mathematical model of a [`PanicSite`].
pub enum PanicV {
    MissingKey(Seq<char>),
    MissingIndex(i64),
    QueryArity,
    NestedQuery(ErrV),
    NotArray,
    BadJson,
}

/// The mathematical model of a [`Failure`].
pub enum FailV {
    Error(ErrV),
    Panic(PanicV),
}

impl View for PanicSite {
    type V = PanicV;

    open spec fn view(&self) -> PanicV {
        match self {
            PanicSite::MissingKey(k) => PanicV::MissingKey(k@),
            PanicSite::MissingIndex(i) => PanicV::MissingIndex(*i),
            PanicSite::QueryArity => PanicV::QueryArity,
            PanicSite::NestedQuery(e) => PanicV::NestedQuery(e@),
            PanicSite::NotArray => PanicV::NotArray,
            PanicSite::BadJson => PanicV::BadJson,
        }
    }
}

impl View for Failure {
    type V = FailV;

    open spec fn view(&self) -> FailV {
        match self {
            Failure::Error(e) => FailV::Error(e@),
            Failure::Panic(p) => FailV::Panic(p@),
        }
    }
}

/// The failure that carries the message `m`.
pub open spec fn msg(m: Seq<char>) -> FailV {
    FailV::Error(ErrV::Msg(m))
}

/// The models of a list of (item, value) entries.
pub open spec fn pairs_view(s: Seq<(Json, Json)>) -> Seq<(JsonV, JsonV)> {
    s.map_values(|p: (Json, Json)| (p.0@, p.1@))
}

pub open spec fn out_view(r: Result<Vec<Json>, Failure>) -> Result<Seq<JsonV>, FailV> {
    match r {
        Ok(v) => Ok(values_view(v@)),
        Err(f) => Err(f@),
    }
}

pub open spec fn value_out_view(r: Result<Json, Failure>) -> Result<JsonV, FailV> {
    match r {
        Ok(v) => Ok(v@),
        Err(f) => Err(f@),
    }
}

pub open spec fn keep_view(r: Result<bool, Failure>) -> Result<bool, FailV> {
    match r {
        Ok(b) => Ok(b),
        Err(f) => Err(f@),
    }
}

/// Where the entry for `k` stands: its first index, or the length when there is none.
pub open spec fn position(m: Seq<(JsonV, JsonV)>, k: JsonV) -> int
    decreases m.len(),
{
    if m.len() == 0 {
        0
    } else if m[0].0 == k {
        0
    } else {
        1 + position(m.drop_first(), k)
    }
}

/// The entries after `k` is given the value `v`: its entry is updated in place,
/// or a new entry goes last.
pub open spec fn map_insert(m: Seq<(JsonV, JsonV)>, k: JsonV, v: JsonV) -> Seq<(JsonV, JsonV)> {
    let p = position(m, k);
    if p < m.len() {
        m.update(p, (k, v))
    } else {
        m.push((k, v))
    }
}

/// The entries after each item of `arr`, in order, is given its member `k`.
pub open spec fn index_items(arr: Seq<JsonV>, k: Seq<char>, m: Seq<(JsonV, JsonV)>) -> Result<
    Seq<(JsonV, JsonV)>,
    FailV,
>
    decreases arr.len(),
{
    if arr.len() == 0 {
        Ok(m)
    } else {
        match index_items(arr.drop_last(), k, m) {
            Err(e) => Err(e),
            Ok(m2) => match arr.last() {
                JsonV::Object(ms) => match member(ms, k) {
                    Some(v) => Ok(map_insert(m2, arr.last(), v)),
                    None => Err(msg("Could not get Key: `"@ + k + "`"@)),
                },
                _ => Err(msg("Could not get object"@)),
            },
        }
    }
}

/// The value equals the string, double or integer of the token.
pub open spec fn equals_token(v: JsonV, peek: Tok) -> bool {
    match peek {
        Tok::Str(s) => str_of(v) == Some(s),
        Tok::Float(b, _) => match f64_bits_of(v) {
            Some(x) => f64_eq(x, b),
            None => false,
        },
        Tok::Int(n) => i64_of(v) == Some(n),
        _ => false,
    }
}

/// Whether `==` (or `!=`, when `negate`) keeps the value. Inside a nested
/// query, `!=` on an integer keeps the values that are equal to it.
pub open spec fn keeps_equal(negate: bool, in_arr: bool, peek: Tok, v: JsonV) -> bool {
    if negate && !(in_arr && peek is Int) {
        !equals_token(v, peek)
    } else {
        equals_token(v, peek)
    }
}

/// The text with its leading `*`s taken off.
pub open spec fn skip_stars(s: Seq<char>) -> Seq<char>
    decreases s.len(),
{
    if s.len() > 0 && s[0] == '*' {
        skip_stars(s.drop_first())
    } else {
        s
    }
}

/// The text up to its first `*`.
pub open spec fn until_star(s: Seq<char>) -> Seq<char>
    decreases s.len(),
{
    if s.len() == 0 || s[0] == '*' {
        Seq::empty()
    } else {
        seq![s[0]] + until_star(s.drop_first())
    }
}

pub open spec fn is_prefix(p: Seq<char>, t: Seq<char>) -> bool {
    p.len() <= t.len() && t.take(p.len() as int) == p
}

pub open spec fn is_suffix(p: Seq<char>, t: Seq<char>) -> bool {
    p.len() <= t.len() && t.skip(t.len() - p.len()) == p
}

/// Whether `t` matches the pattern of a `%` query: a pattern that starts with
/// `*` matches the texts that end with what follows the stars (up to the next
/// star); any other matches the texts that start with what comes before its
/// first star.
pub open spec fn like_matches(peek: Tok, t: Seq<char>) -> bool {
    match peek {
        Tok::Str(s) => if s.len() > 0 && s[0] == '*' {
            is_suffix(until_star(skip_stars(s)), t)
        } else {
            is_prefix(until_star(s), t)
        },
        _ => false,
    }
}

/// The failure a `%` or `!%` query meets before it looks at any item.
pub open spec fn like_check(peek: Tok) -> Option<FailV> {
    match peek {
        Tok::Float(_, _) => Some(msg("Expected String."@)),
        Tok::Int(_) => Some(msg("Expected String."@)),
        Tok::Str(s) => if s.len() == 0 {
            Some(msg("Empty String."@))
        } else {
            None
        },
        _ => Some(msg("Could not get string"@)),
    }
}

/// Whether an `==`, `!=`, `%` or `!%` query keeps the value.
pub open spec fn item_keep(op: Tok, peek: Tok, in_arr: bool, v: JsonV) -> Result<bool, FailV> {
    match op {
        Tok::Equal => Ok(keeps_equal(false, in_arr, peek, v)),
        Tok::NotEqual => Ok(keeps_equal(true, in_arr, peek, v)),
        Tok::Like => match str_of(v) {
            Some(t) => Ok(like_matches(peek, t)),
            None => Err(msg("Expected String"@)),
        },
        Tok::NotLike => match str_of(v) {
            Some(t) => Ok(!like_matches(peek, t)),
            None => Err(msg("Expected String"@)),
        },
        _ => Ok(false),
    }
}

/// The item `x` read back from its JSON text, as a list of one; reading it
/// back is what the query keeps of an item, and where it fails the program stops.
pub open spec fn read_back_one(x: JsonV) -> Result<Seq<JsonV>, FailV> {
    match read_back(x) {
        Some(y) => Ok(seq![y]),
        None => Err(FailV::Panic(PanicV::BadJson)),
    }
}

/// The item `obj`, read back, once for each value of `items` that the query keeps.
pub open spec fn echo(obj: JsonV, items: Seq<JsonV>, op: Tok, peek: Tok, in_arr: bool) -> Result<
    Seq<JsonV>,
    FailV,
>
    decreases items.len(),
{
    if items.len() == 0 {
        Ok(Seq::empty())
    } else {
        match echo(obj, items.drop_last(), op, peek, in_arr) {
            Err(e) => Err(e),
            Ok(acc) => match item_keep(op, peek, in_arr, items.last()) {
                Err(e) => Err(e),
                Ok(b) => if b {
                    match read_back(obj) {
                        Some(y) => Ok(acc.push(y)),
                        None => Err(FailV::Panic(PanicV::BadJson)),
                    }
                } else {
                    Ok(acc)
                },
            },
        }
    }
}

/// Whether `>`, `>=`, `<` or `<=` holds between doubles. `<=` tests `<`.
pub open spec fn float_holds(op: Tok, x: u64, f: u64) -> bool {
    match op {
        Tok::GreaterThan => f64_lt(f, x),
        Tok::GreaterThanEqual => f64_le(f, x),
        Tok::LessThan => f64_lt(x, f),
        Tok::LessThanEqual => f64_lt(x, f),
        _ => false,
    }
}

/// Whether `>`, `>=`, `<` or `<=` holds between integers.
pub open spec fn int_holds(op: Tok, x: i64, n: i64) -> bool {
    match op {
        Tok::GreaterThan => x > n,
        Tok::GreaterThanEqual => x >= n,
        Tok::LessThan => x < n,
        Tok::LessThanEqual => x <= n,
        _ => false,
    }
}

/// What an entry (item, value) gives to a comparison with a number.
pub open spec fn compare_entry(e: (JsonV, JsonV), op: Tok, peek: Tok, in_arr: bool) -> Result<
    Seq<JsonV>,
    FailV,
> {
    match peek {
        Tok::Float(f, _) => match f64_bits_of(e.1) {
            None => Err(msg("Value is not Float."@)),
            Some(x) => if in_arr {
                Err(FailV::Panic(PanicV::NotArray))
            } else if float_holds(op, x, f) {
                read_back_one(e.0)
            } else {
                Ok(Seq::empty())
            },
        },
        Tok::Int(n) => match i64_of(e.1) {
            None => Err(msg("Value is not Integer."@)),
            Some(x) => if in_arr {
                Err(FailV::Panic(PanicV::NotArray))
            } else if int_holds(op, x, n) {
                read_back_one(e.0)
            } else {
                Ok(Seq::empty())
            },
        },
        _ => Err(FailV::Error(ErrV::Unexpected(tok_text(op)))),
    }
}

/// What an entry (item, value) gives to the query `op peek`: the items it keeps.
pub open spec fn entry_out(e: (JsonV, JsonV), op: Tok, peek: Tok, in_arr: bool) -> Result<
    Seq<JsonV>,
    FailV,
> {
    match op {
        Tok::Equal | Tok::NotEqual | Tok::Like | Tok::NotLike => if (op is Equal || op is NotEqual)
            && !(peek is Str || peek is Float || peek is Int) {
            Err(msg("Expected Integer, Float or String"@))
        } else if in_arr {
            match e.1 {
                JsonV::Array(items) => echo(e.0, items, op, peek, in_arr),
                _ => Err(FailV::Panic(PanicV::NotArray)),
            }
        } else {
            match item_keep(op, peek, in_arr, e.1) {
                Err(x) => Err(x),
                Ok(b) => if b {
                    read_back_one(e.0)
                } else {
                    Ok(Seq::empty())
                },
            }
        },
        _ => compare_entry(e, op, peek, in_arr),
    }
}

/// The items that the query `op peek` keeps, entry by entry.
pub open spec fn scan(entries: Seq<(JsonV, JsonV)>, op: Tok, peek: Tok, in_arr: bool) -> Result<
    Seq<JsonV>,
    FailV,
>
    decreases entries.len(),
{
    if entries.len() == 0 {
        Ok(Seq::empty())
    } else {
        match scan(entries.drop_last(), op, peek, in_arr) {
            Err(e) => Err(e),
            Ok(acc) => match entry_out(entries.last(), op, peek, in_arr) {
                Err(e) => Err(e),
                Ok(p) => Ok(acc + p),
            },
        }
    }
}

/// The token after position `i`, or `Null` at the end.
pub open spec fn peek_at(q: Seq<Tok>, i: int) -> Tok {
    if 0 <= i + 1 < q.len() {
        q[i + 1]
    } else {
        Tok::Null
    }
}

/// Runs the query tokens `q` from position `i` on the items `arr`, with the
/// items kept so far and the entries so far.
pub open spec fn query_steps(
    q: Seq<Tok>,
    i: int,
    arr: Seq<JsonV>,
    in_arr: bool,
    ret: Seq<JsonV>,
    m: Seq<(JsonV, JsonV)>,
) -> Result<Seq<JsonV>, FailV>
    decreases q, q.len() + 1 - i,
{
    if i < 0 || i >= q.len() {
        Ok(ret)
    } else {
        let peek = peek_at(q, i);
        match q[i] {
            Tok::Dot => query_steps(q, i + 1, arr, in_arr, ret, m),
            Tok::Hashtag => query_steps(q, i + 1, arr, in_arr, ret, m),
            Tok::QueryOnce(sub) => if sub.len() != 2 {
                Err(FailV::Panic(PanicV::QueryArity))
            } else {
                proof {
                    assert(decreases_to!(q => q[i]));
                }
                match query_value(sub, JsonV::Array(ret), true, true, m) {
                    Ok(JsonV::Array(r)) => query_steps(q, i + 1, arr, in_arr, r, m),
                    Ok(_) => Err(FailV::Panic(PanicV::NotArray)),
                    Err(FailV::Error(e)) => Err(FailV::Panic(PanicV::NestedQuery(e))),
                    Err(p) => Err(p),
                }
            },
            Tok::Key(k) => match index_items(arr, k, m) {
                Ok(m2) => query_steps(q, i + 1, arr, in_arr, ret, m2),
                Err(e) => Err(e),
            },
            Tok::Like | Tok::NotLike => match like_check(peek) {
                Some(e) => Err(e),
                None => match scan(m, q[i], peek, in_arr) {
                    Ok(p) => query_steps(q, i + 2, arr, in_arr, ret + p, m),
                    Err(e) => Err(e),
                },
            },
            Tok::Equal | Tok::NotEqual => match scan(m, q[i], peek, in_arr) {
                Ok(p) => query_steps(q, i + 2, arr, in_arr, ret + p, m),
                Err(e) => Err(e),
            },
            Tok::GreaterThan | Tok::GreaterThanEqual | Tok::LessThan | Tok::LessThanEqual => if peek is Str {
                Err(msg("Expected Float/Integer"@))
            } else {
                match scan(m, q[i], peek, in_arr) {
                    Ok(p) => query_steps(q, i + 2, arr, in_arr, ret + p, m),
                    Err(e) => Err(e),
                }
            },
            _ => Err(FailV::Error(ErrV::Unexpected(tok_text(q[i])))),
        }
    }
}

/// Runs the query `q` on `curr`, which must be an array. With `hashtag` the
/// result is the array of the kept items; without it, the first kept item.
/// `in_arr` marks a query nested in another, which starts from its entries `m`.
pub open spec fn query_value(
    q: Seq<Tok>,
    curr: JsonV,
    hashtag: bool,
    in_arr: bool,
    m: Seq<(JsonV, JsonV)>,
) -> Result<JsonV, FailV>
    decreases q, q.len() + 2,
{
    match curr {
        JsonV::Array(a) => match query_steps(q, 0, a, in_arr, Seq::empty(), m) {
            Ok(r) => if hashtag {
                Ok(JsonV::Array(r))
            } else if r.len() > 0 {
                Ok(r[0])
            } else {
                Err(msg("Nothing to return."@))
            },
            Err(e) => Err(e),
        },
        _ => Err(msg("Need Array for Query Parsing!"@)),
    }
}

/// The failure that carries the message `text`.
fn fail_msg(text: String) -> (r: Failure)
    ensures
        r@ == msg(text@),
{
    Failure::Error(TokenError::Msg(text))
}

/// Copies of the entries, in order.
fn copy_pairs(m: &Vec<(Json, Json)>) -> (r: Vec<(Json, Json)>)
    ensures
        pairs_view(r@) == pairs_view(m@),
{
    let mut out: Vec<(Json, Json)> = Vec::new();
    let mut i: usize = 0;
    while i < m.len()
        invariant
            i <= m.len(),
            out@.len() == i,
            forall|j: int|
                0 <= j < i ==> #[trigger] out@[j].0@ == m@[j].0@ && out@[j].1@ == m@[j].1@,
        decreases m.len() - i,
    {
        let a = m[i].0.deep_copy();
        let b = m[i].1.deep_copy();
        out.push((a, b));
        i = i + 1;
    }
    assert(pairs_view(out@) =~= pairs_view(m@));
    out
}

/// Where the entry for `k` stands, or the length when there is none.
fn find_entry(m: &Vec<(Json, Json)>, k: &Json) -> (r: usize)
    ensures
        r == position(pairs_view(m@), k@),
        r <= m@.len(),
{
    let ghost pv = pairs_view(m@);
    let mut i: usize = 0;
    assert(pv.skip(0) =~= pv);
    while i < m.len()
        invariant
            i <= m.len(),
            pv == pairs_view(m@),
            position(pv, k@) == i + position(pv.skip(i as int), k@),
        decreases m.len() - i,
    {
        assert(pv.skip(i as int)[0] == pv[i as int]);
        if m[i].0.same(k) {
            return i;
        }
        assert(pv.skip(i as int).drop_first() =~= pv.skip(i + 1));
        i = i + 1;
    }
    assert(pv.skip(i as int).len() == 0);
    i
}

/// Gives `k` the value `v` among the entries.
fn insert_entry(m: &mut Vec<(Json, Json)>, k: Json, v: Json)
    ensures
        pairs_view(final(m)@) == map_insert(pairs_view(old(m)@), k@, v@),
{
    let p = find_entry(m, &k);
    if p < m.len() {
        m.set(p, (k, v));
        assert(pairs_view(m@) =~= pairs_view(old(m)@).update(p as int, (k@, v@)));
    } else {
        m.push((k, v));
        assert(pairs_view(m@) =~= pairs_view(old(m)@).push((k@, v@)));
    }
}

/// Gives each item of `arr`, in order, its member `key` among the entries.
fn index_items_exec(arr: &Vec<Json>, key: &String, m: &mut Vec<(Json, Json)>) -> (r: Result<
    (),
    Failure,
>)
    ensures
        match index_items(values_view(arr@), key@, pairs_view(old(m)@)) {
            Ok(m2) => r is Ok && pairs_view(final(m)@) == m2,
            Err(e) => r matches Err(f) && f@ == e,
        },
{
    let ghost av = values_view(arr@);
    let ghost m0 = pairs_view(m@);
    let mut i: usize = 0;
    assert(av.take(0).len() == 0);
    while i < arr.len()
        invariant
            i <= arr.len(),
            av == values_view(arr@),
            m0 == pairs_view(old(m)@),
            index_items(av.take(i as int), key@, m0) == Ok::<Seq<(JsonV, JsonV)>, FailV>(
                pairs_view(m@),
            ),
        decreases arr.len() - i,
    {
        assert(av.take(i + 1).drop_last() =~= av.take(i as int));
        assert(av.take(i + 1).last() == arr@[i as int]@);
        let item = &arr[i];
        match item {
            Json::Object(_) => {
                match item.get(key.as_str()) {
                    Some(value) => {
                        let k = item.deep_copy();
                        let v = value.deep_copy();
                        insert_entry(m, k, v);
                    },
                    None => {
                        let text = String::from_str("Could not get Key: `").concat(key.as_str()).concat("`");
                        proof {
                            assert(index_items(av.take(i + 1), key@, m0) == Err::<Seq<(JsonV, JsonV)>, FailV>(msg(text@)));
                            lemma_index_items_error(av, i as int, key@, m0);
                        }
                        return Err(fail_msg(text));
                    },
                }
            },
            _ => {
                let text = String::from_str("Could not get object");
                proof {
                    assert(index_items(av.take(i + 1), key@, m0) == Err::<Seq<(JsonV, JsonV)>, FailV>(msg(text@)));
                    lemma_index_items_error(av, i as int, key@, m0);
                }
                return Err(fail_msg(text));
            },
        }
        i = i + 1;
    }
    assert(av.take(arr.len() as int) =~= av);
    Ok(())
}

/// An error met at item `i` is the error of the whole list.
proof fn lemma_index_items_error(av: Seq<JsonV>, i: int, k: Seq<char>, m0: Seq<(JsonV, JsonV)>)
    requires
        0 <= i < av.len(),
        index_items(av.take(i + 1), k, m0) is Err,
    ensures
        index_items(av, k, m0) == index_items(av.take(i + 1), k, m0),
    decreases av.len() - i,
{
    if i + 1 < av.len() {
        assert(av.take(i + 2).drop_last() =~= av.take(i + 1));
        lemma_index_items_error(av, i + 1, k, m0);
    } else {
        assert(av.take(i + 1) =~= av);
    }
}

/// The characters of `s` from position `from` on.
fn chars_from(s: &Vec<char>, from: usize) -> (r: Vec<char>)
    requires
        from <= s@.len(),
    ensures
        r@ == s@.skip(from as int),
{
    let mut out: Vec<char> = Vec::new();
    let mut i: usize = from;
    while i < s.len()
        invariant
            from <= i <= s.len(),
            out@ == s@.subrange(from as int, i as int),
        decreases s.len() - i,
    {
        out.push(s[i]);
        i = i + 1;
    }
    assert(out@ =~= s@.skip(from as int));
    out
}

/// The text with its leading `*`s taken off.
fn skip_stars_exec(s: &Vec<char>) -> (r: Vec<char>)
    ensures
        r@ == skip_stars(s@),
{
    let mut i: usize = 0;
    assert(s@.skip(0) =~= s@);
    while i < s.len() && s[i] == '*'
        invariant
            i <= s.len(),
            skip_stars(s@) == skip_stars(s@.skip(i as int)),
        decreases s.len() - i,
    {
        assert(s@.skip(i as int)[0] == s@[i as int]);
        assert(s@.skip(i as int).drop_first() =~= s@.skip(i + 1));
        i = i + 1;
    }
    if i < s.len() {
        assert(s@.skip(i as int)[0] == s@[i as int]);
    }
    chars_from(s, i)
}

/// The text up to its first `*`.
fn until_star_exec(s: &Vec<char>) -> (r: Vec<char>)
    ensures
        r@ == until_star(s@),
{
    let mut out: Vec<char> = Vec::new();
    let mut i: usize = 0;
    assert(s@.skip(0) =~= s@);
    while i < s.len() && s[i] != '*'
        invariant
            i <= s.len(),
            until_star(s@) == out@ + until_star(s@.skip(i as int)),
        decreases s.len() - i,
    {
        assert(s@.skip(i as int)[0] == s@[i as int]);
        assert(s@.skip(i as int).drop_first() =~= s@.skip(i + 1));
        out.push(s[i]);
        i = i + 1;
    }
    if i < s.len() {
        assert(s@.skip(i as int)[0] == s@[i as int]);
    }
    assert(until_star(s@.skip(i as int)) =~= Seq::<char>::empty());
    out
}

/// `t` starts with `p`.
fn starts_with(t: &Vec<char>, p: &Vec<char>) -> (r: bool)
    ensures
        r == is_prefix(p@, t@),
{
    if p.len() > t.len() {
        return false;
    }
    let mut i: usize = 0;
    while i < p.len()
        invariant
            i <= p.len() <= t.len(),
            forall|j: int| 0 <= j < i ==> t@[j] == p@[j],
        decreases p.len() - i,
    {
        if t[i] != p[i] {
            assert(t@.take(p.len() as int)[i as int] != p@[i as int]);
            return false;
        }
        i = i + 1;
    }
    assert(t@.take(p.len() as int) =~= p@);
    true
}

/// `t` ends with `p`.
fn ends_with(t: &Vec<char>, p: &Vec<char>) -> (r: bool)
    ensures
        r == is_suffix(p@, t@),
{
    if p.len() > t.len() {
        return false;
    }
    let off = t.len() - p.len();
    let mut i: usize = 0;
    while i < p.len()
        invariant
            i <= p.len() <= t.len(),
            off == t.len() - p.len(),
            forall|j: int| 0 <= j < i ==> t@[off + j] == p@[j],
        decreases p.len() - i,
    {
        if t[off + i] != p[i] {
            assert(t@.skip(off as int)[i as int] != p@[i as int]);
            return false;
        }
        i = i + 1;
    }
    assert(t@.skip(off as int) =~= p@);
    true
}

/// Whether `t` matches the pattern of a `%` query.
fn like_matches_exec(peek: &Token, t: &String) -> (r: bool)
    ensures
        r == like_matches(peek@, t@),
{
    match peek {
        Token::String(s) => {
            let sc = chars_of(s.as_str());
            let tc = chars_of(t.as_str());
            if sc.len() > 0 && sc[0] == '*' {
                let p = until_star_exec(&skip_stars_exec(&sc));
                ends_with(&tc, &p)
            } else {
                let p = until_star_exec(&sc);
                starts_with(&tc, &p)
            }
        },
        _ => false,
    }
}

/// The value equals the string, double or integer of the token.
fn equals_token_exec(v: &Json, peek: &Token) -> (r: bool)
    ensures
        r == equals_token(v@, peek@),
{
    match peek {
        Token::String(s) => match v.as_str() {
            Some(t) => *t == *s,
            None => false,
        },
        Token::Float(b, _) => match v.as_f64_bits() {
            Some(x) => crate::json::f64_equal(x, *b),
            None => false,
        },
        Token::Int(n) => match v.as_i64() {
            Some(x) => x == *n,
            None => false,
        },
        _ => false,
    }
}

/// Whether an `==`, `!=`, `%` or `!%` query keeps the value.
fn item_keep_exec(op: &Token, peek: &Token, in_arr: bool, v: &Json) -> (r: Result<bool, Failure>)
    ensures
        keep_view(r) == item_keep(op@, peek@, in_arr, v@),
{
    match op {
        Token::Equal => Ok(equals_token_exec(v, peek)),
        Token::NotEqual => {
            let eq = equals_token_exec(v, peek);
            let int_peek = match peek {
                Token::Int(_) => true,
                _ => false,
            };
            if in_arr && int_peek {
                Ok(eq)
            } else {
                Ok(!eq)
            }
        },
        Token::Like => match v.as_str() {
            Some(t) => Ok(like_matches_exec(peek, t)),
            None => Err(fail_msg(String::from_str("Expected String"))),
        },
        Token::NotLike => match v.as_str() {
            Some(t) => Ok(!like_matches_exec(peek, t)),
            None => Err(fail_msg(String::from_str("Expected String"))),
        },
        _ => Ok(false),
    }
}

/// The item read back from its JSON text, as a list of one.
fn read_back_one_exec(obj: &Json) -> (r: Result<Vec<Json>, Failure>)
    ensures
        out_view(r) == read_back_one(obj@),
{
    match obj.read_back() {
        Some(c) => {
            let mut out: Vec<Json> = Vec::new();
            out.push(c);
            assert(values_view(out@) =~= seq![read_back(obj@)->0]);
            Ok(out)
        },
        None => Err(Failure::Panic(PanicSite::BadJson)),
    }
}

/// The item `obj`, read back, once for each value of `items` that the query keeps.
fn echo_exec(obj: &Json, items: &Vec<Json>, op: &Token, peek: &Token, in_arr: bool) -> (r: Result<
    Vec<Json>,
    Failure,
>)
    ensures
        out_view(r) == echo(obj@, values_view(items@), op@, peek@, in_arr),
{
    let ghost iv = values_view(items@);
    let mut out: Vec<Json> = Vec::new();
    let mut i: usize = 0;
    assert(iv.take(0).len() == 0);
    assert(values_view(out@) =~= Seq::<JsonV>::empty());
    while i < items.len()
        invariant
            i <= items.len(),
            iv == values_view(items@),
            echo(obj@, iv.take(i as int), op@, peek@, in_arr) == Ok::<Seq<JsonV>, FailV>(
                values_view(out@),
            ),
        decreases items.len() - i,
    {
        assert(iv.take(i + 1).drop_last() =~= iv.take(i as int));
        assert(iv.take(i + 1).last() == items@[i as int]@);
        match item_keep_exec(op, peek, in_arr, &items[i]) {
            Ok(b) => {
                if b {
                    let ghost before = out@;
                    match obj.read_back() {
                        Some(c) => {
                            out.push(c);
                            assert(values_view(out@) =~= values_view(before).push(read_back(obj@)->0));
                        },
                        None => {
                            proof {
                                lemma_echo_error(obj@, iv, i as int, op@, peek@, in_arr);
                            }
                            return Err(Failure::Panic(PanicSite::BadJson));
                        },
                    }
                }
            },
            Err(e) => {
                proof {
                    lemma_echo_error(obj@, iv, i as int, op@, peek@, in_arr);
                }
                return Err(e);
            },
        }
        i = i + 1;
    }
    assert(iv.take(items.len() as int) =~= iv);
    Ok(out)
}

proof fn lemma_echo_error(obj: JsonV, iv: Seq<JsonV>, i: int, op: Tok, peek: Tok, in_arr: bool)
    requires
        0 <= i < iv.len(),
        echo(obj, iv.take(i + 1), op, peek, in_arr) is Err,
    ensures
        echo(obj, iv, op, peek, in_arr) == echo(obj, iv.take(i + 1), op, peek, in_arr),
    decreases iv.len() - i,
{
    if i + 1 < iv.len() {
        assert(iv.take(i + 2).drop_last() =~= iv.take(i + 1));
        lemma_echo_error(obj, iv, i + 1, op, peek, in_arr);
    } else {
        assert(iv.take(i + 1) =~= iv);
    }
}

/// Whether `>`, `>=`, `<` or `<=` holds between doubles.
fn float_holds_exec(op: &Token, x: u64, f: u64) -> (r: bool)
    ensures
        r == float_holds(op@, x, f),
{
    match op {
        Token::GreaterThan => crate::json::f64_less(f, x),
        Token::GreaterThanEqual => crate::json::f64_less_eq(f, x),
        Token::LessThan => crate::json::f64_less(x, f),
        Token::LessThanEqual => crate::json::f64_less(x, f),
        _ => false,
    }
}

/// Whether `>`, `>=`, `<` or `<=` holds between integers.
fn int_holds_exec(op: &Token, x: i64, n: i64) -> (r: bool)
    ensures
        r == int_holds(op@, x, n),
{
    match op {
        Token::GreaterThan => x > n,
        Token::GreaterThanEqual => x >= n,
        Token::LessThan => x < n,
        Token::LessThanEqual => x <= n,
        _ => false,
    }
}

/// What an entry gives to a comparison with a number.
fn compare_entry_exec(obj: &Json, kv: &Json, op: &Token, peek: &Token, in_arr: bool) -> (r: Result<
    Vec<Json>,
    Failure,
>)
    ensures
        out_view(r) == compare_entry((obj@, kv@), op@, peek@, in_arr),
{
    let mut out: Vec<Json> = Vec::new();
    match peek {
        Token::Float(f, _) => match kv.as_f64_bits() {
            None => Err(fail_msg(String::from_str("Value is not Float."))),
            Some(x) => {
                if in_arr {
                    Err(Failure::Panic(PanicSite::NotArray))
                } else {
                    if float_holds_exec(op, x, *f) {
                        read_back_one_exec(obj)
                    } else {
                        assert(values_view(out@) =~= Seq::<JsonV>::empty());
                        Ok(out)
                    }
                }
            },
        },
        Token::Int(n) => match kv.as_i64() {
            None => Err(fail_msg(String::from_str("Value is not Integer."))),
            Some(x) => {
                if in_arr {
                    Err(Failure::Panic(PanicSite::NotArray))
                } else {
                    if int_holds_exec(op, x, *n) {
                        read_back_one_exec(obj)
                    } else {
                        assert(values_view(out@) =~= Seq::<JsonV>::empty());
                        Ok(out)
                    }
                }
            },
        },
        _ => Err(Failure::Error(TokenError::UnexpectedCharacter(op.to_text()))),
    }
}

/// What an entry (item, value) gives to the query `op peek`.
fn entry_out_exec(obj: &Json, kv: &Json, op: &Token, peek: &Token, in_arr: bool) -> (r: Result<
    Vec<Json>,
    Failure,
>)
    ensures
        out_view(r) == entry_out((obj@, kv@), op@, peek@, in_arr),
{
    let listed = match op {
        Token::Equal | Token::NotEqual | Token::Like | Token::NotLike => true,
        _ => false,
    };
    if !listed {
        return compare_entry_exec(obj, kv, op, peek, in_arr);
    }
    let equality = match op {
        Token::Equal | Token::NotEqual => true,
        _ => false,
    };
    let value_peek = match peek {
        Token::String(_) | Token::Float(_, _) | Token::Int(_) => true,
        _ => false,
    };
    if equality && !value_peek {
        return Err(fail_msg(String::from_str("Expected Integer, Float or String")));
    }
    if in_arr {
        match kv.as_array() {
            Some(items) => echo_exec(obj, items, op, peek, in_arr),
            None => Err(Failure::Panic(PanicSite::NotArray)),
        }
    } else {
        match item_keep_exec(op, peek, in_arr, kv) {
            Err(x) => Err(x),
            Ok(b) => {
                if b {
                    read_back_one_exec(obj)
                } else {
                    let out: Vec<Json> = Vec::new();
                    assert(values_view(out@) =~= Seq::<JsonV>::empty());
                    Ok(out)
                }
            },
        }
    }
}

/// The items that the query `op peek` keeps, entry by entry.
fn scan_exec(m: &Vec<(Json, Json)>, op: &Token, peek: &Token, in_arr: bool) -> (r: Result<
    Vec<Json>,
    Failure,
>)
    ensures
        out_view(r) == scan(pairs_view(m@), op@, peek@, in_arr),
{
    let ghost mv = pairs_view(m@);
    let mut out: Vec<Json> = Vec::new();
    let mut i: usize = 0;
    assert(mv.take(0).len() == 0);
    assert(values_view(out@) =~= Seq::<JsonV>::empty());
    while i < m.len()
        invariant
            i <= m.len(),
            mv == pairs_view(m@),
            scan(mv.take(i as int), op@, peek@, in_arr) == Ok::<Seq<JsonV>, FailV>(
                values_view(out@),
            ),
        decreases m.len() - i,
    {
        assert(mv.take(i + 1).drop_last() =~= mv.take(i as int));
        assert(mv.take(i + 1).last() == (m@[i as int].0@, m@[i as int].1@));
        match entry_out_exec(&m[i].0, &m[i].1, op, peek, in_arr) {
            Ok(mut piece) => {
                let ghost before = out@;
                let ghost pv = piece@;
                out.append(&mut piece);
                assert(values_view(out@) =~= values_view(before) + values_view(pv));
            },
            Err(e) => {
                proof {
                    lemma_scan_error(mv, i as int, op@, peek@, in_arr);
                }
                return Err(e);
            },
        }
        i = i + 1;
    }
    assert(mv.take(m.len() as int) =~= mv);
    Ok(out)
}

proof fn lemma_scan_error(mv: Seq<(JsonV, JsonV)>, i: int, op: Tok, peek: Tok, in_arr: bool)
    requires
        0 <= i < mv.len(),
        scan(mv.take(i + 1), op, peek, in_arr) is Err,
    ensures
        scan(mv, op, peek, in_arr) == scan(mv.take(i + 1), op, peek, in_arr),
    decreases mv.len() - i,
{
    if i + 1 < mv.len() {
        assert(mv.take(i + 2).drop_last() =~= mv.take(i + 1));
        lemma_scan_error(mv, i + 1, op, peek, in_arr);
    } else {
        assert(mv.take(i + 1) =~= mv);
    }
}

/// The failure a `%` or `!%` query meets before it looks at any item.
fn like_check_exec(peek: &Token) -> (r: Option<Failure>)
    ensures
        match like_check(peek@) {
            Some(e) => r matches Some(f) && f@ == e,
            None => r is None,
        },
{
    if peek.is_num() {
        return Some(fail_msg(String::from_str("Expected String.")));
    }
    match peek.as_string() {
        Some(string) => if string.as_str().unicode_len() == 0 {
            Some(fail_msg(String::from_str("Empty String.")))
        } else {
            None
        },
        None => Some(fail_msg(String::from_str("Could not get string"))),
    }
}

/// Runs the query tokens `query` on `curr_value`, which must be an array.
/// With `hashtag` the result is the array of the items the query keeps;
/// without it, the first of them. A query nested in another is given that
/// query's entries in `key_value_hashmap`; its tests then look inside the
/// array each entry holds.
pub fn parse_query(
    query: &Vec<Token>,
    curr_value: Json,
    hashtag: bool,
    key_value_hashmap: Option<Vec<(Json, Json)>>,
) -> (r: Result<Json, Failure>)
    ensures
        value_out_view(r) == query_value(
            tokens_view(query@),
            curr_value@,
            hashtag,
            key_value_hashmap is Some,
            match key_value_hashmap {
                Some(m) => pairs_view(m@),
                None => Seq::empty(),
            },
        ),
    decreases query,
{
    let in_arr_val = key_value_hashmap.is_some();
    let mut value_key_hash: Vec<(Json, Json)> = match key_value_hashmap {
        Some(m) => m,
        None => Vec::new(),
    };
    assert(pairs_view(value_key_hash@) =~= match key_value_hashmap {
        Some(m) => pairs_view(m@),
        None => Seq::empty(),
    });
    let query_arr: Vec<Json> = match curr_value {
        Json::Array(a) => a,
        _ => {
            return Err(fail_msg(String::from_str("Need Array for Query Parsing!")));
        },
    };
    let ghost qv = tokens_view(query@);
    let ghost av = values_view(query_arr@);
    let ghost m0 = pairs_view(value_key_hash@);
    proof {
        lemma_tokens_view(query@);
        lemma_items_values(query_arr@);
    }
    let mut return_raw_arr: Vec<Json> = Vec::new();
    assert(values_view(return_raw_arr@) =~= Seq::<JsonV>::empty());
    let null = Token::Null;
    let mut i: usize = 0;
    while i < query.len()
        invariant
            i <= query.len(),
            qv == tokens_view(query@),
            qv.len() == query@.len(),
            forall|j: int| 0 <= j < query@.len() ==> #[trigger] qv[j] == token_view(query@[j]),
            av == values_view(query_arr@),
            curr_value@ == JsonV::Array(av),
            in_arr_val == key_value_hashmap is Some,
            m0 == match key_value_hashmap {
                Some(m) => pairs_view(m@),
                None => Seq::empty(),
            },
            null == Token::Null,
            query_steps(qv, 0, av, in_arr_val, Seq::empty(), m0) == query_steps(
                qv,
                i as int,
                av,
                in_arr_val,
                values_view(return_raw_arr@),
                pairs_view(value_key_hash@),
            ),
        decreases query.len() - i,
    {
        let token = &query[i];
        let peek: &Token = if i + 1 < query.len() {
            &query[i + 1]
        } else {
            &null
        };
        assert(peek@ == peek_at(qv, i as int));
        assert(token@ == qv[i as int]);
        match token {
            Token::Dot | Token::Hashtag => {
                i = i + 1;
            },
            Token::QueryOnce(sub) => {
                proof {
                    lemma_tokens_view(sub@);
                }
                if sub.len() != 2 {
                    return Err(Failure::Panic(PanicSite::QueryArity));
                }
                proof {
                    assert(decreases_to!(*query => query@));
                    assert(decreases_to!(query@ => query@[i as int]));
                    assert(decreases_to!(query@[i as int] => *sub));
                    lemma_tokens_view(sub@);
                    lemma_items_values(return_raw_arr@);
                }
                let items = Json::copy_items(&return_raw_arr);
                let entries = copy_pairs(&value_key_hash);
                let nested = parse_query(sub, Json::Array(items), true, Some(entries));
                match nested {
                    Ok(Json::Array(v)) => {
                        proof {
                            lemma_items_values(v@);
                        }
                        return_raw_arr = v;
                    },
                    Ok(_) => {
                        return Err(Failure::Panic(PanicSite::NotArray));
                    },
                    Err(Failure::Error(e)) => {
                        return Err(Failure::Panic(PanicSite::NestedQuery(e)));
                    },
                    Err(p) => {
                        return Err(p);
                    },
                }
                i = i + 1;
            },
            Token::Key(key) => {
                match index_items_exec(&query_arr, key, &mut value_key_hash) {
                    Ok(()) => {},
                    Err(e) => {
                        return Err(e);
                    },
                }
                i = i + 1;
            },
            Token::Like | Token::NotLike | Token::Equal | Token::NotEqual | Token::GreaterThan
            | Token::GreaterThanEqual | Token::LessThan | Token::LessThanEqual => {
                let like = match token {
                    Token::Like | Token::NotLike => true,
                    _ => false,
                };
                let ordering = match token {
                    Token::GreaterThan | Token::GreaterThanEqual | Token::LessThan
                    | Token::LessThanEqual => true,
                    _ => false,
                };
                if like {
                    match like_check_exec(peek) {
                        Some(e) => {
                            return Err(e);
                        },
                        None => {},
                    }
                }
                if ordering && peek.is_string() {
                    return Err(fail_msg(String::from_str("Expected Float/Integer")));
                }
                let ghost i0 = i as int;
                let ghost ret0 = values_view(return_raw_arr@);
                match scan_exec(&value_key_hash, token, peek, in_arr_val) {
                    Ok(mut piece) => {
                        let ghost before = return_raw_arr@;
                        let ghost pv = piece@;
                        return_raw_arr.append(&mut piece);
                        assert(values_view(return_raw_arr@) =~= values_view(before) + values_view(
                            pv,
                        ));
                    },
                    Err(e) => {
                        return Err(e);
                    },
                }
                i = i + 1;
                if i < query.len() {
                    i = i + 1;
                }
                assert(query_steps(qv, i0 + 2, av, in_arr_val, values_view(return_raw_arr@), pairs_view(value_key_hash@))
                    == query_steps(qv, i as int, av, in_arr_val, values_view(return_raw_arr@), pairs_view(value_key_hash@)));
            },
            _ => {
                return Err(Failure::Error(TokenError::UnexpectedCharacter(token.to_text())));
            },
        }
    }
    if hashtag {
        proof {
            lemma_items_values(return_raw_arr@);
        }
        Ok(Json::Array(return_raw_arr))
    } else if return_raw_arr.len() > 0 {
        Ok(return_raw_arr.remove(0))
    } else {
        Err(fail_msg(String::from_str("Nothing to return.")))
    }
}

} // verus!
