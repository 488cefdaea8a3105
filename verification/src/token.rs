//! Tokens of a path expression, and the errors met while reading or running one.
use vstd::prelude::*;
use crate::numeric::{i64_text, i64_to_text};

verus! {

/// One token of a path expression.
#[derive(Debug)]
pub enum Token {
    Key(String),
    Dot,
    Hashtag,
    Equal,
    NotEqual,
    GreaterThan,
    GreaterThanEqual,
    LessThan,
    LessThanEqual,
    Like,
    NotLike,
    String(String),
    Int(i64),
    /// A decimal with a fraction: the bits of its double and that double's text.
    Float(u64, String),
    QueryOnce(Vec<Token>),
    QueryAll(Vec<Token>),
    Null,
}

/// The mathematical model of a [`Token`].
pub enum Tok {
    Key(Seq<char>),
    Dot,
    Hashtag,
    Equal,
    NotEqual,
    GreaterThan,
    GreaterThanEqual,
    LessThan,
    LessThanEqual,
    Like,
    NotLike,
    Str(Seq<char>),
    Int(i64),
    Float(u64, Seq<char>),
    QueryOnce(Seq<Tok>),
    QueryAll(Seq<Tok>),
    Null,
}

pub open spec fn token_view(t: Token) -> Tok
    decreases t,
{
    match t {
        Token::Key(k) => Tok::Key(k@),
        Token::Dot => Tok::Dot,
        Token::Hashtag => Tok::Hashtag,
        Token::Equal => Tok::Equal,
        Token::NotEqual => Tok::NotEqual,
        Token::GreaterThan => Tok::GreaterThan,
        Token::GreaterThanEqual => Tok::GreaterThanEqual,
        Token::LessThan => Tok::LessThan,
        Token::LessThanEqual => Tok::LessThanEqual,
        Token::Like => Tok::Like,
        Token::NotLike => Tok::NotLike,
        Token::String(s) => Tok::Str(s@),
        Token::Int(i) => Tok::Int(i),
        Token::Float(b, t) => Tok::Float(b, t@),
        Token::QueryOnce(q) => Tok::QueryOnce(tokens_view(q@)),
        Token::QueryAll(q) => Tok::QueryAll(tokens_view(q@)),
        Token::Null => Tok::Null,
    }
}

pub open spec fn tokens_view(s: Seq<Token>) -> Seq<Tok>
    decreases s,
{
    if s.len() == 0 {
        Seq::empty()
    } else {
        seq![token_view(s[0])] + tokens_view(s.drop_first())
    }
}

impl View for Token {
    type V = Tok;

    open spec fn view(&self) -> Tok {
        token_view(*self)
    }
}

pub proof fn lemma_tokens_view(s: Seq<Token>)
    ensures
        tokens_view(s).len() == s.len(),
        forall|i: int| 0 <= i < s.len() ==> #[trigger] tokens_view(s)[i] == token_view(s[i]),
    decreases s.len(),
{
    if s.len() > 0 {
        lemma_tokens_view(s.drop_first());
        assert forall|i: int| 0 <= i < s.len() implies #[trigger] tokens_view(s)[i] == token_view(
            s[i],
        ) by {
            if i > 0 {
                assert(s.drop_first()[i - 1] == s[i]);
            }
        }
    }
}

/// The text a token shows in messages.
pub open spec fn tok_text(t: Tok) -> Seq<char>
    decreases t,
{
    match t {
        Tok::Key(k) => "Key: "@ + k,
        Tok::Dot => "."@,
        Tok::Hashtag => "#"@,
        Tok::Equal => "=="@,
        Tok::NotEqual => "!="@,
        Tok::GreaterThan => ">"@,
        Tok::GreaterThanEqual => ">="@,
        Tok::LessThan => "<"@,
        Tok::LessThanEqual => "<="@,
        Tok::Like => "%"@,
        Tok::NotLike => "!%"@,
        Tok::Str(s) => "String: "@ + s,
        Tok::Int(i) => "Integer: "@ + i64_text(i),
        Tok::Float(_, t) => "Float: "@ + t,
        Tok::QueryOnce(q) => "Query: "@ + toks_text(q),
        Tok::QueryAll(q) => "Query: "@ + toks_text(q),
        Tok::Null => "NULL"@,
    }
}

/// The texts of the tokens, one after another.
pub open spec fn toks_text(q: Seq<Tok>) -> Seq<char>
    decreases q,
{
    if q.len() == 0 {
        Seq::empty()
    } else {
        toks_text(q.drop_last()) + tok_text(q.last())
    }
}

impl Token {
    pub fn is_string(&self) -> (r: bool)
        ensures
            r == (self@ is Str),
    {
        match self {
            Token::String(_) => true,
            _ => false,
        }
    }

    pub fn is_num(&self) -> (r: bool)
        ensures
            r == (self@ is Float || self@ is Int),
    {
        match self {
            Token::Float(_, _) | Token::Int(_) => true,
            _ => false,
        }
    }

    pub fn as_string(&self) -> (r: Option<String>)
        ensures
            match self@ {
                Tok::Str(s) => r matches Some(t) && t@ == s,
                _ => r is None,
            },
    {
        match self {
            Token::String(string) => Some(string.clone()),
            _ => None,
        }
    }

    /// The texts of the tokens, one after another.
    fn texts(query: &Vec<Token>) -> (r: String)
        ensures
            r@ == toks_text(tokens_view(query@)),
        decreases query,
    {
        let mut out = String::new();
        let ghost qv = tokens_view(query@);
        proof {
            lemma_tokens_view(query@);
        }
        let mut i: usize = 0;
        while i < query.len()
            invariant
                i <= query.len(),
                qv == tokens_view(query@),
                qv.len() == query@.len(),
                forall|j: int| 0 <= j < query@.len() ==> #[trigger] qv[j] == token_view(query@[j]),
                out@ == toks_text(qv.take(i as int)),
            decreases query.len() - i,
        {
            proof {
                assert(decreases_to!(*query => query@));
                assert(decreases_to!(query@ => query@[i as int]));
            }
            let piece = query[i].to_text();
            out.append(piece.as_str());
            proof {
                assert(qv.take(i + 1).drop_last() == qv.take(i as int));
            }
            i = i + 1;
        }
        proof {
            assert(qv.take(query.len() as int) == qv);
        }
        out
    }

    /// The text this token shows in messages.
    pub fn to_text(&self) -> (r: String)
        ensures
            r@ == tok_text(self@),
        decreases self,
    {
        match self {
            Token::Key(key) => String::from_str("Key: ").concat(key.as_str()),
            Token::Dot => String::from_str("."),
            Token::Hashtag => String::from_str("#"),
            Token::Equal => String::from_str("=="),
            Token::NotEqual => String::from_str("!="),
            Token::GreaterThan => String::from_str(">"),
            Token::GreaterThanEqual => String::from_str(">="),
            Token::LessThan => String::from_str("<"),
            Token::LessThanEqual => String::from_str("<="),
            Token::Like => String::from_str("%"),
            Token::NotLike => String::from_str("!%"),
            Token::String(string) => String::from_str("String: ").concat(string.as_str()),
            Token::Int(n) => String::from_str("Integer: ").concat(i64_to_text(*n).as_str()),
            Token::Float(_, text) => String::from_str("Float: ").concat(text.as_str()),
            Token::QueryAll(query) => String::from_str("Query: ").concat(
                Token::texts(query).as_str(),
            ),
            Token::QueryOnce(query) => String::from_str("Query: ").concat(
                Token::texts(query).as_str(),
            ),
            Token::Null => String::from_str("NULL"),
        }
    }
}

/// What can go wrong while reading a path expression or running it.
#[derive(Debug)]
pub enum TokenError {
    UnexpectedEOF,
    UnexpectedCharacter(String),
    Msg(String),
}

/// The mathematical model of a [`TokenError`].
pub enum ErrV {
    Eof,
    Unexpected(Seq<char>),
    Msg(Seq<char>),
}

impl View for TokenError {
    type V = ErrV;

    open spec fn view(&self) -> ErrV {
        match self {
            TokenError::UnexpectedEOF => ErrV::Eof,
            TokenError::UnexpectedCharacter(s) => ErrV::Unexpected(s@),
            TokenError::Msg(s) => ErrV::Msg(s@),
        }
    }
}

/// The text that describes an error to a reader.
pub open spec fn error_text(e: ErrV) -> Seq<char> {
    match e {
        ErrV::Eof => "Unexpected End of File!"@,
        ErrV::Unexpected(s) => "Unexpected Character! ~"@ + s + "~"@,
        ErrV::Msg(s) => "Error Message: ~"@ + s + "~"@,
    }
}

impl TokenError {
    /// The text that describes this error to a reader.
    pub fn message(&self) -> (r: String)
        ensures
            r@ == error_text(self@),
    {
        match self {
            TokenError::UnexpectedEOF => String::from_str("Unexpected End of File!"),
            TokenError::UnexpectedCharacter(unexpected) => String::from_str(
                "Unexpected Character! ~",
            ).concat(unexpected.as_str()).concat("~"),
            TokenError::Msg(msg) => String::from_str("Error Message: ~").concat(msg.as_str()).concat(
                "~",
            ),
        }
    }
}

} // verus!
