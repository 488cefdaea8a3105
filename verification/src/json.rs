use vstd::prelude::*;
use crate::numeric::{u64_as_f64_bits, i64_as_f64_bits, u64_as_f64, i64_as_f64, number_reread, reread_number};

verus! {

/// A JSON number, kept in the three forms a JSON parser produces: a
/// non-negative integer, a negative integer, or a double, by its IEEE-754
/// bits and the text that `serde_json` writes for it.
#[derive(Debug)]
pub enum Number {
    PosInt(u64),
    NegInt(i64),
    Float(u64, String),
}

/// The mathematical model of a [`Number`].
pub enum NumV {
    PosInt(u64),
    NegInt(i64),
    Float(u64, Seq<char>),
}

impl View for Number {
    type V = NumV;

    open spec fn view(&self) -> NumV {
        match self {
            Number::PosInt(n) => NumV::PosInt(*n),
            Number::NegInt(n) => NumV::NegInt(*n),
            Number::Float(b, t) => NumV::Float(*b, t@),
        }
    }
}

impl Number {
    /// A copy of this number.
    pub fn copy(&self) -> (r: Number)
        ensures
            r@ == self@,
    {
        match self {
            Number::PosInt(n) => Number::PosInt(*n),
            Number::NegInt(n) => Number::NegInt(*n),
            Number::Float(b, t) => Number::Float(*b, t.clone()),
        }
    }

    /// Whether the two numbers are the same.
    pub fn same(&self, other: &Number) -> (r: bool)
        ensures
            r == (self@ == other@),
    {
        match (self, other) {
            (Number::PosInt(a), Number::PosInt(b)) => *a == *b,
            (Number::NegInt(a), Number::NegInt(b)) => *a == *b,
            (Number::Float(a, s), Number::Float(b, t)) => *a == *b && *s == *t,
            _ => false,
        }
    }
}

/// A JSON value. Object members keep the order they were given in.
#[derive(Debug)]
pub enum Json {
    Null,
    Bool(bool),
    Number(Number),
    String(String),
    Array(Vec<Json>),
    Object(Vec<(String, Json)>),
}

/// The mathematical model of a [`Json`] value.
pub enum JsonV {
    Null,
    Bool(bool),
    Number(NumV),
    Str(Seq<char>),
    Array(Seq<JsonV>),
    Object(Seq<(Seq<char>, JsonV)>),
}

pub open spec fn json_view(j: Json) -> JsonV
    decreases j,
{
    match j {
        Json::Null => JsonV::Null,
        Json::Bool(b) => JsonV::Bool(b),
        Json::Number(n) => JsonV::Number(n@),
        Json::String(s) => JsonV::Str(s@),
        Json::Array(v) => JsonV::Array(items_view(v@)),
        Json::Object(m) => JsonV::Object(members_view(m@)),
    }
}

pub open spec fn items_view(s: Seq<Json>) -> Seq<JsonV>
    decreases s,
{
    if s.len() == 0 {
        Seq::empty()
    } else {
        seq![json_view(s[0])] + items_view(s.drop_first())
    }
}

pub open spec fn members_view(s: Seq<(String, Json)>) -> Seq<(Seq<char>, JsonV)>
    decreases s,
{
    if s.len() == 0 {
        Seq::empty()
    } else {
        seq![(s[0].0@, json_view(s[0].1))] + members_view(s.drop_first())
    }
}

impl View for Json {
    type V = JsonV;

    open spec fn view(&self) -> JsonV {
        json_view(*self)
    }
}

pub proof fn lemma_items_view(s: Seq<Json>)
    ensures
        items_view(s).len() == s.len(),
        forall|i: int| 0 <= i < s.len() ==> #[trigger] items_view(s)[i] == json_view(s[i]),
    decreases s.len(),
{
    if s.len() > 0 {
        lemma_items_view(s.drop_first());
        assert forall|i: int| 0 <= i < s.len() implies #[trigger] items_view(s)[i] == json_view(
            s[i],
        ) by {
            if i > 0 {
                assert(s.drop_first()[i - 1] == s[i]);
            }
        }
    }
}

pub proof fn lemma_members_view(s: Seq<(String, Json)>)
    ensures
        members_view(s).len() == s.len(),
        forall|i: int|
            0 <= i < s.len() ==> #[trigger] members_view(s)[i] == (s[i].0@, json_view(s[i].1)),
    decreases s.len(),
{
    if s.len() > 0 {
        lemma_members_view(s.drop_first());
        assert forall|i: int| 0 <= i < s.len() implies #[trigger] members_view(s)[i] == (
            s[i].0@,
            json_view(s[i].1),
        ) by {
            if i > 0 {
                assert(s.drop_first()[i - 1] == s[i]);
            }
        }
    }
}

/// The models of the values in `s`, in order.
pub open spec fn values_view(s: Seq<Json>) -> Seq<JsonV> {
    s.map_values(|j: Json| j@)
}

pub proof fn lemma_items_values(s: Seq<Json>)
    ensures
        items_view(s) == values_view(s),
{
    lemma_items_view(s);
    assert(items_view(s) =~= values_view(s));
}

/// The text of a string value.
pub open spec fn str_of(v: JsonV) -> Option<Seq<char>> {
    match v {
        JsonV::Str(s) => Some(s),
        _ => None,
    }
}

/// A number value as an `i64`, where it is an integer in range (`as_i64`).
pub open spec fn i64_of(v: JsonV) -> Option<i64> {
    match v {
        JsonV::Number(NumV::PosInt(n)) => if n <= i64::MAX {
            Some(n as i64)
        } else {
            None
        },
        JsonV::Number(NumV::NegInt(n)) => Some(n),
        _ => None,
    }
}

/// A number value as a double, by its bits (`as_f64`).
pub open spec fn f64_bits_of(v: JsonV) -> Option<u64> {
    match v {
        JsonV::Number(NumV::PosInt(n)) => Some(u64_as_f64_bits(n)),
        JsonV::Number(NumV::NegInt(n)) => Some(i64_as_f64_bits(n)),
        JsonV::Number(NumV::Float(b, _)) => Some(b),
        _ => None,
    }
}

/// What `serde_json` reads back from the JSON text of `v`: the same value,
/// with each double read again from its text; nothing where a number's text
/// does not read. Object members keep their order, as `serde_json` writes
/// and reads the sorted, distinct names it holds.
pub open spec fn read_back(v: JsonV) -> Option<JsonV>
    decreases v,
{
    match v {
        JsonV::Number(NumV::Float(_, t)) => match number_reread(t) {
            Some(n) => Some(JsonV::Number(n)),
            None => None,
        },
        JsonV::Array(items) => match read_back_items(items) {
            Some(r) => Some(JsonV::Array(r)),
            None => None,
        },
        JsonV::Object(ms) => match read_back_members(ms) {
            Some(r) => Some(JsonV::Object(r)),
            None => None,
        },
        _ => Some(v),
    }
}

/// The items read back, in order; nothing where one does not read.
pub open spec fn read_back_items(s: Seq<JsonV>) -> Option<Seq<JsonV>>
    decreases s,
{
    if s.len() == 0 {
        Some(Seq::empty())
    } else {
        proof {
            assert(decreases_to!(s => s[s.len() - 1]));
        }
        match (read_back_items(s.drop_last()), read_back(s[s.len() - 1])) {
            (Some(r), Some(x)) => Some(r.push(x)),
            _ => None,
        }
    }
}

/// The members read back, in order; nothing where one does not read.
pub open spec fn read_back_members(s: Seq<(Seq<char>, JsonV)>) -> Option<Seq<(Seq<char>, JsonV)>>
    decreases s,
{
    if s.len() == 0 {
        Some(Seq::empty())
    } else {
        proof {
            assert(decreases_to!(s => s[s.len() - 1]));
            assert(decreases_to!(s[s.len() - 1] => s[s.len() - 1].1));
        }
        match (read_back_members(s.drop_last()), read_back(s[s.len() - 1].1)) {
            (Some(r), Some(x)) => Some(r.push((s[s.len() - 1].0, x))),
            _ => None,
        }
    }
}

/// The items read back are those whose every item reads, each read back.
pub proof fn lemma_read_back_items(s: Seq<JsonV>)
    ensures
        read_back_items(s) is Some <==> forall|j: int| 0 <= j < s.len() ==> #[trigger] read_back(s[j]) is Some,
        read_back_items(s) matches Some(r) ==> r.len() == s.len() && forall|j: int|
            0 <= j < s.len() ==> read_back(s[j]) == Some(#[trigger] r[j]),
    decreases s.len(),
{
    if s.len() > 0 {
        let d = s.drop_last();
        lemma_read_back_items(d);
        assert forall|j: int| 0 <= j < d.len() implies #[trigger] d[j] == s[j] by {}
        if forall|j: int| 0 <= j < s.len() ==> #[trigger] read_back(s[j]) is Some {
            assert forall|j: int| 0 <= j < d.len() implies #[trigger] read_back(d[j]) is Some by {
                assert(read_back(s[j]) is Some);
            }
            assert(read_back(s[s.len() - 1]) is Some);
        }
        if read_back_items(s) is Some {
            assert(read_back_items(d) is Some);
            assert forall|j: int| 0 <= j < s.len() implies #[trigger] read_back(s[j]) is Some by {
                if j < d.len() {
                    assert(read_back(d[j]) is Some);
                }
            }
        }
        if read_back_items(s) is None {
            if read_back_items(d) is None {
                let j = choose|j: int| 0 <= j < d.len() && !(#[trigger] read_back(d[j]) is Some);
                assert(read_back(s[j]) is None);
            } else {
                assert(read_back(s[s.len() - 1]) is None);
            }
        }
    }
}

/// The members read back are those whose every value reads, each read back.
pub proof fn lemma_read_back_members(s: Seq<(Seq<char>, JsonV)>)
    ensures
        read_back_members(s) is Some <==> forall|j: int| 0 <= j < s.len() ==> #[trigger] read_back(s[j].1) is Some,
        read_back_members(s) matches Some(r) ==> r.len() == s.len() && forall|j: int|
            0 <= j < s.len() ==> #[trigger] r[j] == (s[j].0, read_back(s[j].1)->0),
    decreases s.len(),
{
    if s.len() > 0 {
        let d = s.drop_last();
        lemma_read_back_members(d);
        assert forall|j: int| 0 <= j < d.len() implies #[trigger] d[j] == s[j] by {}
        if forall|j: int| 0 <= j < s.len() ==> #[trigger] read_back(s[j].1) is Some {
            assert forall|j: int| 0 <= j < d.len() implies #[trigger] read_back(d[j].1) is Some by {
                assert(read_back(s[j].1) is Some);
            }
            assert(read_back(s[s.len() - 1].1) is Some);
        }
        if read_back_members(s) is Some {
            assert(read_back_members(d) is Some);
            assert forall|j: int| 0 <= j < s.len() implies #[trigger] read_back(s[j].1) is Some by {
                if j < d.len() {
                    assert(read_back(d[j].1) is Some);
                }
            }
        }
        if read_back_members(s) is None {
            if read_back_members(d) is None {
                let j = choose|j: int| 0 <= j < d.len() && !(#[trigger] read_back(d[j].1) is Some);
                assert(read_back(s[j].1) is None);
            } else {
                assert(read_back(s[s.len() - 1].1) is None);
            }
        }
    }
}

/// `v` reads back from its JSON text as itself.
pub open spec fn reads_back(v: JsonV) -> bool {
    read_back(v) == Some(v)
}

/// Every item of `a` reads back from its JSON text as itself.
pub open spec fn all_read_back(a: Seq<JsonV>) -> bool {
    forall|j: int| 0 <= j < a.len() ==> #[trigger] reads_back(a[j])
}

/// `v` holds no double.
pub open spec fn has_no_double(v: JsonV) -> bool
    decreases v,
{
    match v {
        JsonV::Number(NumV::Float(_, _)) => false,
        JsonV::Array(items) => no_double_items(items),
        JsonV::Object(ms) => no_double_members(ms),
        _ => true,
    }
}

/// No item holds a double.
pub open spec fn no_double_items(s: Seq<JsonV>) -> bool
    decreases s,
{
    if s.len() == 0 {
        true
    } else {
        proof {
            assert(decreases_to!(s => s[s.len() - 1]));
        }
        no_double_items(s.drop_last()) && has_no_double(s[s.len() - 1])
    }
}

/// No member's value holds a double.
pub open spec fn no_double_members(s: Seq<(Seq<char>, JsonV)>) -> bool
    decreases s,
{
    if s.len() == 0 {
        true
    } else {
        proof {
            assert(decreases_to!(s => s[s.len() - 1]));
            assert(decreases_to!(s[s.len() - 1] => s[s.len() - 1].1));
        }
        no_double_members(s.drop_last()) && has_no_double(s[s.len() - 1].1)
    }
}

/// A value that holds no double reads back from its JSON text as itself.
pub proof fn law_read_back_without_doubles(v: JsonV)
    requires
        has_no_double(v),
    ensures
        read_back(v) == Some(v),
    decreases v, 1nat,
{
    match v {
        JsonV::Array(items) => {
            lemma_items_read_back(items);
        },
        JsonV::Object(ms) => {
            lemma_members_read_back(ms);
        },
        _ => {},
    }
}

proof fn lemma_items_read_back(s: Seq<JsonV>)
    requires
        no_double_items(s),
    ensures
        read_back_items(s) == Some(s),
    decreases s, 0nat,
{
    if s.len() > 0 {
        assert(decreases_to!(s => s[s.len() - 1]));
        lemma_items_read_back(s.drop_last());
        law_read_back_without_doubles(s[s.len() - 1]);
        assert(s.drop_last().push(s[s.len() - 1]) =~= s);
    }
}

proof fn lemma_members_read_back(s: Seq<(Seq<char>, JsonV)>)
    requires
        no_double_members(s),
    ensures
        read_back_members(s) == Some(s),
    decreases s, 0nat,
{
    if s.len() > 0 {
        assert(decreases_to!(s => s[s.len() - 1]));
        assert(decreases_to!(s[s.len() - 1] => s[s.len() - 1].1));
        lemma_members_read_back(s.drop_last());
        law_read_back_without_doubles(s[s.len() - 1].1);
        assert(s.drop_last().push((s[s.len() - 1].0, s[s.len() - 1].1)) =~= s);
    }
}

/// The value of the first member named `k`.
pub open spec fn member(ms: Seq<(Seq<char>, JsonV)>, k: Seq<char>) -> Option<JsonV>
    decreases ms.len(),
{
    if ms.len() == 0 {
        None
    } else if ms[0].0 == k {
        Some(ms[0].1)
    } else {
        member(ms.drop_first(), k)
    }
}

/// The member named `k` of an object; nothing for any other value.
pub open spec fn get_key(v: JsonV, k: Seq<char>) -> Option<JsonV> {
    match v {
        JsonV::Object(ms) => member(ms, k),
        _ => None,
    }
}

/// The size of a double's bit pattern without its sign bit.
pub open spec fn f64_magnitude(b: u64) -> int {
    (b as int) % 0x8000_0000_0000_0000
}

/// The bits are those of a NaN.
pub open spec fn f64_is_nan(b: u64) -> bool {
    f64_magnitude(b) > 0x7ff0_0000_0000_0000
}

/// An integer that orders the doubles that are not NaN as their values are
/// ordered, with both zeros at 0.
pub open spec fn f64_rank(b: u64) -> int {
    if b >= 0x8000_0000_0000_0000 {
        -f64_magnitude(b)
    } else {
        f64_magnitude(b)
    }
}

/// `a < b` on the doubles with these bits.
pub open spec fn f64_lt(a: u64, b: u64) -> bool {
    !f64_is_nan(a) && !f64_is_nan(b) && f64_rank(a) < f64_rank(b)
}

/// `a <= b` on the doubles with these bits.
pub open spec fn f64_le(a: u64, b: u64) -> bool {
    !f64_is_nan(a) && !f64_is_nan(b) && f64_rank(a) <= f64_rank(b)
}

/// `a == b` on the doubles with these bits.
pub open spec fn f64_eq(a: u64, b: u64) -> bool {
    !f64_is_nan(a) && !f64_is_nan(b) && f64_rank(a) == f64_rank(b)
}

/// `a < b` on the doubles with these bits.
pub fn f64_less(a: u64, b: u64) -> (r: bool)
    ensures
        r == f64_lt(a, b),
{
    let ma = a % 0x8000_0000_0000_0000;
    let mb = b % 0x8000_0000_0000_0000;
    if ma > 0x7ff0_0000_0000_0000 || mb > 0x7ff0_0000_0000_0000 {
        return false;
    }
    let na = a >= 0x8000_0000_0000_0000;
    let nb = b >= 0x8000_0000_0000_0000;
    if na && nb {
        mb < ma
    } else if na {
        !(ma == 0 && mb == 0)
    } else if nb {
        false
    } else {
        ma < mb
    }
}

/// `a <= b` on the doubles with these bits.
pub fn f64_less_eq(a: u64, b: u64) -> (r: bool)
    ensures
        r == f64_le(a, b),
{
    let ma = a % 0x8000_0000_0000_0000;
    let mb = b % 0x8000_0000_0000_0000;
    if ma > 0x7ff0_0000_0000_0000 || mb > 0x7ff0_0000_0000_0000 {
        return false;
    }
    let na = a >= 0x8000_0000_0000_0000;
    let nb = b >= 0x8000_0000_0000_0000;
    if na && nb {
        mb <= ma
    } else if na {
        true
    } else if nb {
        ma == 0 && mb == 0
    } else {
        ma <= mb
    }
}

/// `a == b` on the doubles with these bits.
pub fn f64_equal(a: u64, b: u64) -> (r: bool)
    ensures
        r == f64_eq(a, b),
{
    f64_less_eq(a, b) && f64_less_eq(b, a)
}

/// `a` comes before `b` in the order of their characters, as `String`s are ordered.
pub open spec fn text_lt(a: Seq<char>, b: Seq<char>) -> bool
    decreases a.len(),
{
    if a.len() == 0 {
        b.len() > 0
    } else if b.len() == 0 {
        false
    } else if a[0] != b[0] {
        a[0] < b[0]
    } else {
        text_lt(a.drop_first(), b.drop_first())
    }
}

/// The names of the members come in increasing order, so none occurs twice.
pub open spec fn names_sorted(ms: Seq<(Seq<char>, JsonV)>) -> bool {
    forall|i: int, j: int| 0 <= i < j < ms.len() ==> text_lt(#[trigger] ms[i].0, #[trigger] ms[j].0)
}

/// A well-formed value, as a JSON parser builds one: the members of every
/// object come in increasing order of their names, so no name occurs twice.
pub open spec fn json_wf(v: JsonV) -> bool
    decreases v,
{
    match v {
        JsonV::Array(items) => forall|j: int| 0 <= j < items.len() ==> #[trigger] json_wf(items[j]),
        JsonV::Object(ms) => names_sorted(ms) && forall|j: int|
            0 <= j < ms.len() ==> #[trigger] json_wf(ms[j].1),
        _ => true,
    }
}

pub proof fn lemma_text_lt_irreflexive(a: Seq<char>)
    ensures
        !text_lt(a, a),
    decreases a.len(),
{
    if a.len() > 0 {
        lemma_text_lt_irreflexive(a.drop_first());
    }
}

/// In an object whose names are sorted, the member named `k` is the one entry with that name.
pub proof fn law_member_unique(ms: Seq<(Seq<char>, JsonV)>, k: Seq<char>)
    requires
        names_sorted(ms),
    ensures
        forall|j: int| 0 <= j < ms.len() && #[trigger] ms[j].0 == k ==> member(ms, k) == Some(ms[j].1),
        member(ms, k) is None <==> forall|j: int| 0 <= j < ms.len() ==> #[trigger] ms[j].0 != k,
    decreases ms.len(),
{
    if ms.len() > 0 {
        let d = ms.drop_first();
        assert forall|i: int, j: int| 0 <= i < j < d.len() implies text_lt(#[trigger] d[i].0, #[trigger] d[j].0) by {
            assert(d[i] == ms[i + 1] && d[j] == ms[j + 1]);
            assert(text_lt(ms[i + 1].0, ms[j + 1].0));
        }
        law_member_unique(d, k);
        assert forall|j: int| 0 <= j < ms.len() && #[trigger] ms[j].0 == k implies member(ms, k) == Some(ms[j].1) by {
            if j > 0 {
                assert(d[j - 1] == ms[j]);
                if ms[0].0 == k {
                    assert(text_lt(ms[0].0, ms[j].0));
                    lemma_text_lt_irreflexive(k);
                }
            }
        }
        assert((member(ms, k) is None) ==> forall|j: int| 0 <= j < ms.len() ==> #[trigger] ms[j].0 != k) by {
            if member(ms, k) is None {
                assert forall|j: int| 0 <= j < ms.len() implies #[trigger] ms[j].0 != k by {
                    if j > 0 {
                        assert(d[j - 1] == ms[j]);
                    }
                }
            }
        }
        if forall|j: int| 0 <= j < ms.len() ==> #[trigger] ms[j].0 != k {
            assert forall|j: int| 0 <= j < d.len() implies #[trigger] d[j].0 != k by {
                assert(d[j] == ms[j + 1]);
            }
            assert(ms[0].0 != k);
        }
    }
}

impl Json {
    /// Copies of the items, in order.
    pub fn copy_items(items: &Vec<Json>) -> (r: Vec<Json>)
        ensures
            items_view(r@) == items_view(items@),
        decreases items,
    {
        let mut out: Vec<Json> = Vec::new();
        let mut i: usize = 0;
        while i < items.len()
            invariant
                i <= items.len(),
                out@.len() == i,
                forall|j: int| 0 <= j < i ==> #[trigger] out@[j]@ == items@[j]@,
            decreases items.len() - i,
        {
            proof {
                assert(decreases_to!(*items => items@));
                assert(decreases_to!(items@ => items@[i as int]));
            }
            let c = items[i].deep_copy();
            out.push(c);
            i = i + 1;
        }
        proof {
            lemma_items_view(out@);
            lemma_items_view(items@);
            assert forall|j: int| 0 <= j < items@.len() implies items_view(out@)[j] == items_view(items@)[j] by {
                assert(out@[j]@ == items@[j]@);
            }
            assert(items_view(out@) =~= items_view(items@));
        }
        out
    }

    /// Copies of the members, in order.
    fn copy_members(members: &Vec<(String, Json)>) -> (r: Vec<(String, Json)>)
        ensures
            members_view(r@) == members_view(members@),
        decreases members,
    {
        let mut out: Vec<(String, Json)> = Vec::new();
        let mut i: usize = 0;
        while i < members.len()
            invariant
                i <= members.len(),
                out@.len() == i,
                forall|j: int|
                    0 <= j < i ==> #[trigger] out@[j].0@ == members@[j].0@ && out@[j].1@
                        == members@[j].1@,
            decreases members.len() - i,
        {
            proof {
                assert(decreases_to!(*members => members@));
                assert(decreases_to!(members@ => members@[i as int]));
                assert(decreases_to!(members@[i as int] => members@[i as int].1));
            }
            let k = members[i].0.clone();
            let c = members[i].1.deep_copy();
            out.push((k, c));
            i = i + 1;
        }
        proof {
            lemma_members_view(out@);
            lemma_members_view(members@);
            assert(members_view(out@) =~= members_view(members@));
        }
        out
    }

    /// A copy of this value.
    pub fn deep_copy(&self) -> (r: Json)
        ensures
            r@ == self@,
        decreases self,
    {
        match self {
            Json::Null => Json::Null,
            Json::Bool(b) => Json::Bool(*b),
            Json::Number(n) => Json::Number(n.copy()),
            Json::String(s) => Json::String(s.clone()),
            Json::Array(items) => Json::Array(Json::copy_items(items)),
            Json::Object(members) => Json::Object(Json::copy_members(members)),
        }
    }

    /// The items read back, in order; nothing where one does not read.
    fn read_back_item_list(items: &Vec<Json>) -> (r: Option<Vec<Json>>)
        ensures
            match read_back_items(items_view(items@)) {
                Some(t) => r matches Some(v) && items_view(v@) == t,
                None => r is None,
            },
        decreases items,
    {
        let ghost iv = items_view(items@);
        proof {
            lemma_items_view(items@);
            lemma_read_back_items(iv);
        }
        let mut out: Vec<Json> = Vec::new();
        let mut i: usize = 0;
        while i < items.len()
            invariant
                i <= items.len(),
                out@.len() == i,
                iv == items_view(items@),
                iv.len() == items@.len(),
                forall|j: int| 0 <= j < items@.len() ==> #[trigger] iv[j] == json_view(items@[j]),
                forall|j: int| 0 <= j < i ==> read_back(iv[j]) == Some(#[trigger] out@[j]@),
            decreases items.len() - i,
        {
            proof {
                assert(decreases_to!(*items => items@));
                assert(decreases_to!(items@ => items@[i as int]));
            }
            match items[i].read_back() {
                Some(c) => {
                    out.push(c);
                },
                None => {
                    proof {
                        lemma_read_back_items(iv);
                        assert(read_back(iv[i as int]) is None);
                    }
                    return None;
                },
            }
            i = i + 1;
        }
        proof {
            lemma_items_view(out@);
            lemma_read_back_items(iv);
            assert forall|j: int| 0 <= j < iv.len() implies #[trigger] read_back(iv[j]) is Some by {
                assert(read_back(iv[j]) == Some(out@[j]@));
            }
            let t = read_back_items(iv)->0;
            assert forall|j: int| 0 <= j < iv.len() implies items_view(out@)[j] == #[trigger] t[j] by {
                assert(read_back(iv[j]) == Some(out@[j]@));
            }
            assert(items_view(out@) =~= t);
        }
        Some(out)
    }

    /// The members read back, in order; nothing where one does not read.
    fn read_back_member_list(members: &Vec<(String, Json)>) -> (r: Option<Vec<(String, Json)>>)
        ensures
            match read_back_members(members_view(members@)) {
                Some(t) => r matches Some(v) && members_view(v@) == t,
                None => r is None,
            },
        decreases members,
    {
        let ghost mv = members_view(members@);
        proof {
            lemma_members_view(members@);
            lemma_read_back_members(mv);
        }
        let mut out: Vec<(String, Json)> = Vec::new();
        let mut i: usize = 0;
        while i < members.len()
            invariant
                i <= members.len(),
                out@.len() == i,
                mv == members_view(members@),
                mv.len() == members@.len(),
                forall|j: int| 0 <= j < members@.len() ==> #[trigger] mv[j] == (members@[j].0@, json_view(members@[j].1)),
                forall|j: int| 0 <= j < i ==> #[trigger] out@[j].0@ == mv[j].0 && read_back(mv[j].1) == Some(out@[j].1@),
            decreases members.len() - i,
        {
            proof {
                assert(decreases_to!(*members => members@));
                assert(decreases_to!(members@ => members@[i as int]));
                assert(decreases_to!(members@[i as int] => members@[i as int].1));
            }
            match members[i].1.read_back() {
                Some(c) => {
                    let k = members[i].0.clone();
                    out.push((k, c));
                },
                None => {
                    proof {
                        lemma_read_back_members(mv);
                        assert(read_back(mv[i as int].1) is None);
                    }
                    return None;
                },
            }
            i = i + 1;
        }
        proof {
            lemma_members_view(out@);
            lemma_read_back_members(mv);
            assert forall|j: int| 0 <= j < mv.len() implies #[trigger] read_back(mv[j].1) is Some by {
                assert(out@[j].0@ == mv[j].0);
            }
            let t = read_back_members(mv)->0;
            assert forall|j: int| 0 <= j < mv.len() implies members_view(out@)[j] == #[trigger] t[j] by {
                assert(out@[j].0@ == mv[j].0);
            }
            assert(members_view(out@) =~= t);
        }
        Some(out)
    }

    /// What `serde_json` reads back from the JSON text of this value; nothing
    /// where the text of a number does not read.
    pub fn read_back(&self) -> (r: Option<Json>)
        ensures
            match read_back(self@) {
                Some(w) => r matches Some(x) && x@ == w,
                None => r is None,
            },
        decreases self,
    {
        match self {
            Json::Number(Number::Float(_, t)) => match reread_number(t.as_str()) {
                Some(n) => Some(Json::Number(n)),
                None => None,
            },
            Json::Array(items) => match Json::read_back_item_list(items) {
                Some(v) => Some(Json::Array(v)),
                None => None,
            },
            Json::Object(members) => match Json::read_back_member_list(members) {
                Some(v) => Some(Json::Object(v)),
                None => None,
            },
            _ => Some(self.deep_copy()),
        }
    }

    /// Whether the two item lists are the same.
    fn same_items(a: &Vec<Json>, b: &Vec<Json>) -> (r: bool)
        ensures
            r == (items_view(a@) == items_view(b@)),
        decreases a,
    {
        proof {
            lemma_items_view(a@);
            lemma_items_view(b@);
        }
        if a.len() != b.len() {
            return false;
        }
        let mut i: usize = 0;
        while i < a.len()
            invariant
                i <= a.len(),
                a.len() == b.len(),
                items_view(a@).len() == a@.len(),
                items_view(b@).len() == b@.len(),
                forall|j: int| 0 <= j < a@.len() ==> #[trigger] items_view(a@)[j] == json_view(a@[j]),
                forall|j: int| 0 <= j < b@.len() ==> #[trigger] items_view(b@)[j] == json_view(b@[j]),
                forall|j: int| 0 <= j < i ==> json_view(#[trigger] a@[j]) == json_view(b@[j]),
            decreases a.len() - i,
        {
            proof {
                assert(decreases_to!(*a => a@));
                assert(decreases_to!(a@ => a@[i as int]));
            }
            if !a[i].same(&b[i]) {
                assert(items_view(a@)[i as int] != items_view(b@)[i as int]);
                return false;
            }
            i = i + 1;
        }
        assert(items_view(a@) =~= items_view(b@));
        true
    }

    /// Whether the two member lists are the same.
    fn same_members(a: &Vec<(String, Json)>, b: &Vec<(String, Json)>) -> (r: bool)
        ensures
            r == (members_view(a@) == members_view(b@)),
        decreases a,
    {
        proof {
            lemma_members_view(a@);
            lemma_members_view(b@);
        }
        if a.len() != b.len() {
            return false;
        }
        let mut i: usize = 0;
        while i < a.len()
            invariant
                i <= a.len(),
                a.len() == b.len(),
                members_view(a@).len() == a@.len(),
                members_view(b@).len() == b@.len(),
                forall|j: int| 0 <= j < a@.len() ==> #[trigger] members_view(a@)[j] == (a@[j].0@, json_view(a@[j].1)),
                forall|j: int| 0 <= j < b@.len() ==> #[trigger] members_view(b@)[j] == (b@[j].0@, json_view(b@[j].1)),
                forall|j: int| 0 <= j < i ==> #[trigger] members_view(a@)[j] == members_view(b@)[j],
            decreases a.len() - i,
        {
            proof {
                assert(decreases_to!(*a => a@));
                assert(decreases_to!(a@ => a@[i as int]));
                assert(decreases_to!(a@[i as int] => a@[i as int].1));
            }
            if !(a[i].0 == b[i].0) {
                assert(members_view(a@)[i as int] != members_view(b@)[i as int]);
                return false;
            }
            if !a[i].1.same(&b[i].1) {
                assert(members_view(a@)[i as int] != members_view(b@)[i as int]);
                return false;
            }
            i = i + 1;
        }
        assert(members_view(a@) =~= members_view(b@));
        true
    }

    /// Whether the two values are the same value.
    pub fn same(&self, other: &Json) -> (r: bool)
        ensures
            r == (self@ == other@),
        decreases self,
    {
        match self {
            Json::Null => match other {
                Json::Null => true,
                _ => false,
            },
            Json::Bool(a) => match other {
                Json::Bool(b) => *a == *b,
                _ => false,
            },
            Json::Number(a) => match other {
                Json::Number(b) => a.same(b),
                _ => false,
            },
            Json::String(a) => match other {
                Json::String(b) => *a == *b,
                _ => false,
            },
            Json::Array(a) => match other {
                Json::Array(b) => Json::same_items(a, b),
                _ => false,
            },
            Json::Object(a) => match other {
                Json::Object(b) => Json::same_members(a, b),
                _ => false,
            },
        }
    }

    /// The value of the first member named `key`, where this is an object.
    pub fn get(&self, key: &str) -> (r: Option<&Json>)
        ensures
            match get_key(self@, key@) {
                Some(v) => r matches Some(x) && x@ == v,
                None => r is None,
            },
    {
        match self {
            Json::Object(members) => {
                let ghost mv = members_view(members@);
                let wanted = String::from_str(key);
                proof {
                    lemma_members_view(members@);
                    assert(mv.skip(0) =~= mv);
                }
                let mut i: usize = 0;
                while i < members.len()
                    invariant
                        i <= members.len(),
                        mv == members_view(members@),
                        *self == Json::Object(*members),
                        wanted@ == key@,
                        mv.len() == members@.len(),
                        forall|j: int| 0 <= j < members@.len() ==> #[trigger] mv[j] == (members@[j].0@, json_view(members@[j].1)),
                        member(mv, key@) == member(mv.skip(i as int), key@),
                    decreases members.len() - i,
                {
                    assert(mv.skip(i as int)[0] == mv[i as int]);
                    assert(mv[i as int] == (members@[i as int].0@, json_view(members@[i as int].1)));
                    if members[i].0 == wanted {
                        return Some(&members[i].1);
                    }
                    assert(mv.skip(i as int).drop_first() =~= mv.skip(i + 1));
                    i = i + 1;
                }
                None
            },
            _ => None,
        }
    }

    /// The items, where this is an array.
    pub fn as_array(&self) -> (r: Option<&Vec<Json>>)
        ensures
            match self@ {
                JsonV::Array(items) => r matches Some(v) && values_view(v@) == items,
                _ => r is None,
            },
    {
        match self {
            Json::Array(items) => {
                proof {
                    lemma_items_values(items@);
                }
                Some(items)
            },
            _ => None,
        }
    }

    /// The text, where this is a string.
    pub fn as_str(&self) -> (r: Option<&String>)
        ensures
            match str_of(self@) {
                Some(s) => r matches Some(t) && t@ == s,
                None => r is None,
            },
    {
        match self {
            Json::String(s) => Some(s),
            _ => None,
        }
    }

    /// The number as an `i64`, where it is an integer in range.
    pub fn as_i64(&self) -> (r: Option<i64>)
        ensures
            r == i64_of(self@),
    {
        match self {
            Json::Number(Number::PosInt(n)) => if *n <= 0x7fff_ffff_ffff_ffff {
                Some(*n as i64)
            } else {
                None
            },
            Json::Number(Number::NegInt(n)) => Some(*n),
            _ => None,
        }
    }

    /// The number as a double, by its bits.
    pub fn as_f64_bits(&self) -> (r: Option<u64>)
        ensures
            r == f64_bits_of(self@),
    {
        match self {
            Json::Number(Number::PosInt(n)) => u64_as_f64(*n),
            Json::Number(Number::NegInt(n)) => i64_as_f64(*n),
            Json::Number(Number::Float(b, _)) => Some(*b),
            _ => None,
        }
    }
}

} // verus!
