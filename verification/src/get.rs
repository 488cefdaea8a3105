//! Walking a document along a path expression.
use vstd::prelude::*;
use crate::json::{Json, JsonV, Number, NumV, values_view, lemma_items_values, member, get_key};
use crate::token::{Token, Tok, TokenError, tok_text, token_view, tokens_view, lemma_tokens_view};
use crate::query::{
    Failure, FailV, PanicSite, PanicV, msg, out_view, value_out_view, query_value, parse_query,
};
use crate::lexer::{Lexer, lex};
use crate::numeric::{debug_text, debug_string};

verus! {

/// The member `k` of every item, in order; every item must be an object that has it.
pub open spec fn pluck(items: Seq<JsonV>, k: Seq<char>) -> Result<Seq<JsonV>, FailV>
    decreases items.len(),
{
    if items.len() == 0 {
        Ok(Seq::empty())
    } else {
        match pluck(items.drop_last(), k) {
            Err(e) => Err(e),
            Ok(acc) => match items.last() {
                JsonV::Object(ms) => match member(ms, k) {
                    Some(v) => Ok(acc.push(v)),
                    None => Err(msg("Could not get key\nKey: "@ + debug_text(k))),
                },
                _ => Err(msg("Could not get Object."@)),
            },
        }
    }
}

/// Walks from `curr` along the tokens from position `i`. `in_array` is set
/// once `#` or a query for every match has turned the walk into one over the
/// items of an array: keys then apply to every item.
pub open spec fn walk(toks: Seq<Tok>, i: int, curr: JsonV, in_array: bool) -> Result<JsonV, FailV>
    decreases toks.len() - i,
{
    if i < 0 || i >= toks.len() {
        Ok(curr)
    } else {
        match toks[i] {
            Tok::Dot => walk(toks, i + 1, curr, in_array),
            Tok::Key(k) => if in_array {
                match curr {
                    JsonV::Array(items) => match pluck(items, k) {
                        Ok(vals) => walk(toks, i + 1, JsonV::Array(vals), in_array),
                        Err(e) => Err(e),
                    },
                    _ => Err(msg("Could not get array."@)),
                }
            } else {
                match get_key(curr, k) {
                    Some(v) => walk(toks, i + 1, v, in_array),
                    None => Err(FailV::Panic(PanicV::MissingKey(k))),
                }
            },
            Tok::Hashtag => match curr {
                JsonV::Array(items) => if i + 1 >= toks.len() {
                    Ok(JsonV::Number(NumV::PosInt(items.len() as u64)))
                } else {
                    walk(toks, i + 1, curr, true)
                },
                _ => Err(msg("Could not get Array"@)),
            },
            Tok::Int(n) => match curr {
                JsonV::Array(items) => if 0 <= n < items.len() {
                    walk(toks, i + 1, items[n as int], in_array)
                } else {
                    Err(FailV::Panic(PanicV::MissingIndex(n)))
                },
                _ => Err(FailV::Panic(PanicV::MissingIndex(n))),
            },
            Tok::QueryOnce(q) => match query_value(q, curr, false, false, Seq::empty()) {
                Ok(v) => walk(toks, i + 1, v, in_array),
                Err(e) => Err(e),
            },
            Tok::QueryAll(q) => match query_value(q, curr, true, false, Seq::empty()) {
                Ok(v) => walk(toks, i + 1, v, true),
                Err(e) => Err(e),
            },
            t => Err(msg(tok_text(t))),
        }
    }
}

/// What looking up the expression `expr` in `v` gives.
pub open spec fn get_outcome(v: JsonV, expr: Seq<char>) -> Result<JsonV, FailV> {
    match lex(expr) {
        Ok(toks) => walk(toks, 0, v, false),
        Err(e) => Err(FailV::Error(e)),
    }
}

/// Looking up `expr` in `v` would stop the program.
pub open spec fn halts(v: JsonV, expr: Seq<char>) -> bool {
    get_outcome(v, expr) matches Err(FailV::Panic(_))
}

/// The member `key` of every item of `arr`, in order.
fn pluck_exec(arr: &Vec<Json>, key: &String) -> (r: Result<Vec<Json>, Failure>)
    ensures
        out_view(r) == pluck(values_view(arr@), key@),
{
    let ghost av = values_view(arr@);
    let mut out: Vec<Json> = Vec::new();
    let mut i: usize = 0;
    assert(av.take(0).len() == 0);
    assert(values_view(out@) =~= Seq::<JsonV>::empty());
    while i < arr.len()
        invariant
            i <= arr.len(),
            av == values_view(arr@),
            pluck(av.take(i as int), key@) == Ok::<Seq<JsonV>, FailV>(values_view(out@)),
        decreases arr.len() - i,
    {
        assert(av.take(i + 1).drop_last() =~= av.take(i as int));
        assert(av.take(i + 1).last() == arr@[i as int]@);
        let item = &arr[i];
        match item {
            Json::Object(_) => match item.get(key.as_str()) {
                Some(value) => {
                    let ghost before = out@;
                    out.push(value.deep_copy());
                    assert(values_view(out@) =~= values_view(before).push(value@));
                },
                None => {
                    let text = String::from_str("Could not get key\nKey: ").concat(
                        debug_string(key).as_str(),
                    );
                    proof {
                        assert(pluck(av.take(i + 1), key@) == Err::<Seq<JsonV>, FailV>(
                            msg(text@),
                        ));
                        lemma_pluck_error(av, i as int, key@);
                    }
                    return Err(Failure::Error(TokenError::Msg(text)));
                },
            },
            _ => {
                let text = String::from_str("Could not get Object.");
                proof {
                    assert(pluck(av.take(i + 1), key@) == Err::<Seq<JsonV>, FailV>(msg(text@)));
                    lemma_pluck_error(av, i as int, key@);
                }
                return Err(Failure::Error(TokenError::Msg(text)));
            },
        }
        i = i + 1;
    }
    assert(av.take(arr.len() as int) =~= av);
    Ok(out)
}

proof fn lemma_pluck_error(av: Seq<JsonV>, i: int, k: Seq<char>)
    requires
        0 <= i < av.len(),
        pluck(av.take(i + 1), k) is Err,
    ensures
        pluck(av, k) == pluck(av.take(i + 1), k),
    decreases av.len() - i,
{
    if i + 1 < av.len() {
        assert(av.take(i + 2).drop_last() =~= av.take(i + 1));
        lemma_pluck_error(av, i + 1, k);
    } else {
        assert(av.take(i + 1) =~= av);
    }
}

impl Json {
    /// Looks up the path expression `expression` in this value, and says
    /// when the lookup would stop the program instead.
    pub fn evaluate(&self, expression: &str) -> (r: Result<Json, Failure>)
        ensures
            value_out_view(r) == get_outcome(self@, expression@),
    {
        let mut lexer = Lexer::new(expression);
        let tokens = match lexer.tokens() {
            Ok(t) => t,
            Err(e) => {
                return Err(Failure::Error(e));
            },
        };
        let ghost tv = tokens_view(tokens@);
        proof {
            lemma_tokens_view(tokens@);
        }
        let mut curr_value = self.deep_copy();
        let mut in_array = false;
        let mut i: usize = 0;
        while i < tokens.len()
            invariant
                i <= tokens.len(),
                tv == tokens_view(tokens@),
                tv.len() == tokens@.len(),
                forall|j: int| 0 <= j < tokens@.len() ==> #[trigger] tv[j] == token_view(tokens@[j]),
                get_outcome(self@, expression@) == walk(tv, i as int, curr_value@, in_array),
            decreases tokens.len() - i,
        {
            let token = &tokens[i];
            assert(token@ == tv[i as int]);
            match token {
                Token::Dot => {},
                Token::Key(key) => {
                    if in_array {
                        match curr_value.as_array() {
                            Some(arr) => {
                                let plucked = pluck_exec(arr, key);
                                match plucked {
                                    Ok(temp_arr) => {
                                        proof {
                                            lemma_items_values(temp_arr@);
                                        }
                                        curr_value = Json::Array(temp_arr);
                                    },
                                    Err(e) => {
                                        return Err(e);
                                    },
                                }
                            },
                            None => {
                                return Err(
                                    Failure::Error(
                                        TokenError::Msg(String::from_str("Could not get array.")),
                                    ),
                                );
                            },
                        }
                    } else {
                        let next = match curr_value.get(key.as_str()) {
                            Some(v) => v.deep_copy(),
                            None => {
                                return Err(Failure::Panic(PanicSite::MissingKey(key.clone())));
                            },
                        };
                        curr_value = next;
                    }
                },
                Token::Hashtag => {
                    match curr_value.as_array() {
                        Some(vec) => {
                            if i + 1 >= tokens.len() {
                                return Ok(Json::Number(Number::PosInt(vec.len() as u64)));
                            }
                            in_array = true;
                        },
                        None => {
                            return Err(
                                Failure::Error(
                                    TokenError::Msg(String::from_str("Could not get Array")),
                                ),
                            );
                        },
                    }
                },
                Token::Int(integer) => {
                    let next = match curr_value.as_array() {
                        Some(arr) => {
                            if *integer >= 0 && (*integer as u64) < (arr.len() as u64) {
                                arr[*integer as usize].deep_copy()
                            } else {
                                return Err(Failure::Panic(PanicSite::MissingIndex(*integer)));
                            }
                        },
                        None => {
                            return Err(Failure::Panic(PanicSite::MissingIndex(*integer)));
                        },
                    };
                    curr_value = next;
                },
                Token::QueryOnce(query) => {
                    proof {
                        lemma_tokens_view(query@);
                    }
                    match parse_query(query, curr_value.deep_copy(), false, None) {
                        Ok(v) => {
                            curr_value = v;
                        },
                        Err(e) => {
                            return Err(e);
                        },
                    }
                },
                Token::QueryAll(query) => {
                    in_array = true;
                    match parse_query(query, curr_value.deep_copy(), true, None) {
                        Ok(v) => {
                            curr_value = v;
                        },
                        Err(e) => {
                            return Err(e);
                        },
                    }
                },
                _ => {
                    return Err(Failure::Error(TokenError::Msg(token.to_text())));
                },
            }
            i = i + 1;
        }
        Ok(curr_value)
    }

    /// Looks up the path expression `expression` in this value: a key takes
    /// an object's member, an integer an array's item, `#` the items of an
    /// array (or, last, their number), and `#(...)` / `#(...)#` the first /
    /// every item that a query keeps.
    pub fn rjson_get(&self, expression: &str) -> (r: Result<Json, TokenError>)
        requires
            !halts(self@, expression@),
        ensures
            match get_outcome(self@, expression@) {
                Ok(v) => r matches Ok(x) && x@ == v,
                Err(FailV::Error(e)) => r matches Err(x) && x@ == e,
                Err(FailV::Panic(_)) => false,
            },
    {
        match self.evaluate(expression) {
            Ok(v) => Ok(v),
            Err(Failure::Error(e)) => Err(e),
            Err(Failure::Panic(_)) => {
                proof {
                    assert(false);
                }
                Err(TokenError::UnexpectedEOF)
            },
        }
    }
}

impl Json {
    /// Looks up `expression` where that does not stop the program, and gives
    /// nothing where it would.
    pub fn rjson_get_checked(&self, expression: &str) -> (r: Option<Result<Json, TokenError>>)
        ensures
            r is None <==> halts(self@, expression@),
            r matches Some(x) ==> match get_outcome(self@, expression@) {
                Ok(v) => x matches Ok(j) && j@ == v,
                Err(FailV::Error(e)) => x matches Err(y) && y@ == e,
                Err(FailV::Panic(_)) => false,
            },
    {
        match self.evaluate(expression) {
            Err(Failure::Panic(_)) => None,
            _ => Some(self.rjson_get(expression)),
        }
    }
}

} // verus!
