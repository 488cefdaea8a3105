//! Reading a path expression into tokens.
//!
//! Outside a query, an expression holds keys (`name`), indexes (`2`), dots,
//! `#` (every item of an array, or its length at the end) and queries. A
//! query `( ... )` holds keys, numbers, quoted strings and the operators
//! `==`, `!=`, `<`, `<=`, `>`, `>=`, `%` and `!%`; `#` inside it starts a
//! nested query, and a `#` right after its `)` asks for every match.
use vstd::prelude::*;
use crate::numeric::{dot_count, i64_from_str, double_from_str, parse_i64, parse_double, string_of};
use crate::token::{Token, Tok, TokenError, ErrV, tokens_view, lemma_tokens_view};

verus! {

pub open spec fn is_letter(c: char) -> bool {
    ('a' <= c <= 'z') || ('A' <= c <= 'Z')
}

pub open spec fn is_digit(c: char) -> bool {
    '0' <= c <= '9'
}

/// The bits of positive infinity.
pub open spec fn infinity_bits() -> u64 {
    0x7ff0_0000_0000_0000
}

/// Where a key that goes on at position `i` ends: keys go on with letters and `*`.
pub open spec fn key_end(s: Seq<char>, i: int) -> int
    decreases s.len() - i,
{
    if 0 <= i < s.len() && (is_letter(s[i]) || s[i] == '*') {
        key_end(s, i + 1)
    } else {
        i
    }
}

/// Where a number that goes on at position `i` ends: numbers go on with digits and dots.
pub open spec fn number_end(s: Seq<char>, i: int) -> int
    decreases s.len() - i,
{
    if 0 <= i < s.len() && (is_digit(s[i]) || s[i] == '.') {
        number_end(s, i + 1)
    } else {
        i
    }
}

/// The token of a number's text: an integer, or a double when it holds a dot.
pub open spec fn number_token(text: Seq<char>) -> Result<Tok, ErrV> {
    if dot_count(text) > 0 {
        match double_from_str(text) {
            Ok((b, t)) => Ok(
                Tok::Float(
                    match b {
                        Some(x) => x,
                        None => infinity_bits(),
                    },
                    t,
                ),
            ),
            Err(m) => Err(ErrV::Msg("Could not parse float.\nReason: "@ + m)),
        }
    } else {
        match i64_from_str(text) {
            Ok(v) => Ok(Tok::Int(v)),
            Err(m) => Err(ErrV::Msg("Could not parse int.\nReason: "@ + m)),
        }
    }
}

/// Reads the rest of a quoted string from position `i`: the text and the
/// position after the closing quote. A backslash is kept, and after one a
/// quote is kept too instead of closing the string.
pub open spec fn lex_string(s: Seq<char>, i: int, acc: Seq<char>, slash: bool) -> Result<
    (Seq<char>, int),
    ErrV,
>
    decreases s.len() - i,
{
    if i < 0 || i >= s.len() {
        Err(ErrV::Eof)
    } else if s[i] == '\\' {
        lex_string(s, i + 1, acc.push('\\'), true)
    } else if s[i] == '"' {
        if slash {
            lex_string(s, i + 1, acc.push('"'), false)
        } else {
            Ok((acc, i + 1))
        }
    } else {
        lex_string(s, i + 1, acc.push(s[i]), slash)
    }
}

/// Reads the rest of a query from position `i`, with the tokens read so far:
/// the query token and the position after it.
pub open spec fn lex_query(s: Seq<char>, i: int, acc: Seq<Tok>) -> Result<(Tok, int), ErrV>
    decreases s.len() - i,
{
    if i < 0 || i >= s.len() {
        Ok((Tok::QueryOnce(acc), i))
    } else {
        let c = s[i];
        if c == '.' || c == '(' {
            lex_query(s, i + 1, acc)
        } else if c == '#' {
            match lex_query(s, i + 1, Seq::empty()) {
                Ok((t, j)) => if i < j <= s.len() {
                    lex_query(s, j, acc.push(t))
                } else {
                    Err(ErrV::Eof)
                },
                Err(e) => Err(e),
            }
        } else if c == ')' {
            if i + 1 < s.len() && s[i + 1] == '#' {
                Ok((Tok::QueryAll(acc), i + 2))
            } else {
                Ok((Tok::QueryOnce(acc), i + 1))
            }
        } else if is_letter(c) {
            let e = key_end(s, i + 1);
            if i < e <= s.len() {
                lex_query(s, e, acc.push(Tok::Key(s.subrange(i, e))))
            } else {
                Err(ErrV::Eof)
            }
        } else if is_digit(c) {
            let e = number_end(s, i + 1);
            match number_token(s.subrange(i, e)) {
                Ok(t) => if i < e <= s.len() {
                    lex_query(s, e, acc.push(t))
                } else {
                    Err(ErrV::Eof)
                },
                Err(x) => Err(x),
            }
        } else if c == '"' {
            match lex_string(s, i + 1, Seq::empty(), false) {
                Ok((text, e)) => if i < e <= s.len() {
                    lex_query(s, e, acc.push(Tok::Str(text)))
                } else {
                    Err(ErrV::Eof)
                },
                Err(x) => Err(x),
            }
        } else if c == '%' {
            lex_query(s, i + 1, acc.push(Tok::Like))
        } else if c == '=' {
            if i + 1 >= s.len() {
                Err(ErrV::Eof)
            } else if s[i + 1] == '=' {
                lex_query(s, i + 2, acc.push(Tok::Equal))
            } else {
                Err(ErrV::Unexpected(seq!['=', s[i + 1]]))
            }
        } else if c == '!' {
            if i + 1 >= s.len() {
                Err(ErrV::Eof)
            } else if s[i + 1] == '=' {
                lex_query(s, i + 2, acc.push(Tok::NotEqual))
            } else if s[i + 1] == '%' {
                lex_query(s, i + 2, acc.push(Tok::NotLike))
            } else {
                Err(ErrV::Unexpected(seq!['!', s[i + 1]]))
            }
        } else if c == '<' {
            if i + 1 >= s.len() {
                Err(ErrV::Eof)
            } else if s[i + 1] == '=' {
                lex_query(s, i + 2, acc.push(Tok::LessThanEqual))
            } else {
                lex_query(s, i + 1, acc.push(Tok::LessThan))
            }
        } else if c == '>' {
            if i + 1 >= s.len() {
                Err(ErrV::Eof)
            } else if s[i + 1] == '=' {
                lex_query(s, i + 2, acc.push(Tok::GreaterThanEqual))
            } else {
                lex_query(s, i + 1, acc.push(Tok::GreaterThan))
            }
        } else {
            Err(ErrV::Unexpected(seq![c]))
        }
    }
}

/// Reads the tokens of an expression from position `i`, after those read so far.
pub open spec fn lex_tokens(s: Seq<char>, i: int, acc: Seq<Tok>) -> Result<Seq<Tok>, ErrV>
    decreases s.len() - i,
{
    if i < 0 || i >= s.len() {
        Ok(acc)
    } else {
        let c = s[i];
        if c == '.' {
            lex_tokens(s, i + 1, acc.push(Tok::Dot))
        } else if c == '#' {
            if i + 1 >= s.len() {
                lex_tokens(s, i + 1, acc.push(Tok::Hashtag))
            } else if s[i + 1] == '(' {
                lex_tokens(s, i + 1, acc)
            } else if s[i + 1] == '.' {
                lex_tokens(s, i + 1, acc.push(Tok::Hashtag))
            } else {
                Err(ErrV::Unexpected(seq![s[i + 1]]))
            }
        } else if c == '(' {
            match lex_query(s, i + 1, Seq::empty()) {
                Ok((t, j)) => if i < j <= s.len() {
                    lex_tokens(s, j, acc.push(t))
                } else {
                    Err(ErrV::Eof)
                },
                Err(e) => Err(e),
            }
        } else if is_letter(c) {
            let e = key_end(s, i + 1);
            if i < e <= s.len() {
                lex_tokens(s, e, acc.push(Tok::Key(s.subrange(i, e))))
            } else {
                Err(ErrV::Eof)
            }
        } else if is_digit(c) {
            let e = number_end(s, i + 1);
            match number_token(s.subrange(i, e)) {
                Ok(t) => if i < e <= s.len() {
                    lex_tokens(s, e, acc.push(t))
                } else {
                    Err(ErrV::Eof)
                },
                Err(x) => Err(x),
            }
        } else {
            Err(ErrV::Unexpected(seq![c]))
        }
    }
}

/// The tokens of the expression `s`.
pub open spec fn lex(s: Seq<char>) -> Result<Seq<Tok>, ErrV> {
    lex_tokens(s, 0, Seq::empty())
}

/// Each character is a digit or a dot; with no dot they are all digits.
proof fn lemma_no_dot_digits(t: Seq<char>)
    requires
        forall|k: int| 0 <= k < t.len() ==> (is_digit(#[trigger] t[k]) || t[k] == '.'),
        dot_count(t) == 0,
    ensures
        forall|k: int| 0 <= k < t.len() ==> is_digit(#[trigger] t[k]),
    decreases t.len(),
{
    if t.len() > 0 {
        assert forall|k: int| 0 <= k < t.drop_last().len() implies (is_digit(
            #[trigger] t.drop_last()[k],
        ) || t.drop_last()[k] == '.') by {
            assert(t.drop_last()[k] == t[k]);
        }
        lemma_no_dot_digits(t.drop_last());
        assert forall|k: int| 0 <= k < t.len() implies is_digit(#[trigger] t[k]) by {
            if k < t.len() - 1 {
                assert(t.drop_last()[k] == t[k]);
            }
        }
    }
}

pub proof fn lemma_tokens_view_push(s: Seq<Token>, t: Token)
    ensures
        tokens_view(s.push(t)) == tokens_view(s).push(t@),
{
    lemma_tokens_view(s);
    lemma_tokens_view(s.push(t));
    assert(tokens_view(s.push(t)) =~= tokens_view(s).push(t@));
}

fn is_letter_exec(c: char) -> (r: bool)
    ensures
        r == is_letter(c),
{
    ('a' <= c && c <= 'z') || ('A' <= c && c <= 'Z')
}

fn is_digit_exec(c: char) -> (r: bool)
    ensures
        r == is_digit(c),
{
    '0' <= c && c <= '9'
}

/// The text of one or two characters.
fn text_of(a: char, b: Option<char>) -> (r: String)
    ensures
        r@ == match b {
            Some(c) => seq![a, c],
            None => seq![a],
        },
{
    let mut v: Vec<char> = Vec::new();
    v.push(a);
    match b {
        Some(c) => v.push(c),
        None => {},
    }
    assert(v@ =~= match b {
        Some(c) => seq![a, c],
        None => seq![a],
    });
    string_of(&v)
}

/// A cursor over the characters of an expression.
pub struct Lexer {
    chars: Vec<char>,
    pos: usize,
}

impl Lexer {
    /// The characters being read.
    pub closed spec fn text(&self) -> Seq<char> {
        self.chars@
    }

    /// The position of the next character to read.
    pub closed spec fn at(&self) -> int {
        self.pos as int
    }

    /// The position lies within the text, or just past its end.
    #[verifier::type_invariant]
    spec fn wf(&self) -> bool {
        self.pos <= self.chars.len()
    }

    /// A cursor at the start of `expression`.
    pub fn new(expression: &str) -> (r: Lexer)
        ensures
            r.text() == expression@,
            r.at() == 0,
    {
        Lexer { chars: crate::numeric::chars_of(expression), pos: 0 }
    }

    fn peek(&self) -> (r: Option<char>)
        ensures
            r == if self.at() < self.text().len() {
                Some(self.text()[self.at()])
            } else {
                None::<char>
            },
    {
        proof {
            use_type_invariant(self);
        }
        if self.pos < self.chars.len() {
            Some(self.chars[self.pos])
        } else {
            None
        }
    }

    fn next(&mut self) -> (r: Option<char>)
        ensures
            final(self).text() == old(self).text(),
            if old(self).at() < old(self).text().len() {
                r == Some(old(self).text()[old(self).at()]) && final(self).at() == old(self).at() + 1
            } else {
                r is None && final(self).at() == old(self).at()
            },
    {
        proof {
            use_type_invariant(&*self);
        }
        if self.pos < self.chars.len() {
            let c = self.chars[self.pos];
            self.pos = self.pos + 1;
            Some(c)
        } else {
            None
        }
    }

    /// Reads the rest of a key whose first character, already read, is `first_char`.
    pub fn tokenize_key(&mut self, first_char: char) -> (r: Result<Token, TokenError>)
        ensures
            final(self).text() == old(self).text(),
            final(self).at() == key_end(old(self).text(), old(self).at()),
            old(self).at() <= final(self).at() <= final(self).text().len(),
            r matches Ok(t) && t@ == Tok::Key(
                seq![first_char] + old(self).text().subrange(old(self).at(), final(self).at()),
            ),
    {
        proof {
            use_type_invariant(&*self);
        }
        let ghost start = self.pos as int;
        let mut key: Vec<char> = Vec::new();
        key.push(first_char);
        while self.pos < self.chars.len() && (is_letter_exec(self.chars[self.pos])
            || self.chars[self.pos] == '*')
            invariant
                start <= self.pos <= self.chars@.len(),
                self.chars@ == old(self).chars@,
                start == old(self).pos,
                key_end(self.chars@, start) == key_end(self.chars@, self.pos as int),
                key@ == seq![first_char] + self.chars@.subrange(start, self.pos as int),
            decreases self.chars.len() - self.pos,
        {
            let c = self.chars[self.pos];
            key.push(c);
            self.pos = self.pos + 1;
            assert(key@ =~= seq![first_char] + self.chars@.subrange(start, self.pos as int));
        }
        Ok(Token::Key(string_of(&key)))
    }

    /// Reads the rest of a number whose first digit, already read, is `first_char`.
    pub fn tokenize_number(&mut self, first_char: char) -> (r: Result<Token, TokenError>)
        requires
            is_digit(first_char),
        ensures
            final(self).text() == old(self).text(),
            final(self).at() == number_end(old(self).text(), old(self).at()),
            old(self).at() <= final(self).at() <= final(self).text().len(),
            match number_token(
                seq![first_char] + old(self).text().subrange(old(self).at(), final(self).at()),
            ) {
                Ok(t) => r matches Ok(x) && x@ == t,
                Err(e) => r matches Err(x) && x@ == e,
            },
    {
        proof {
            use_type_invariant(&*self);
        }
        let ghost start = self.pos as int;
        let mut number: Vec<char> = Vec::new();
        number.push(first_char);
        let mut float = false;
        assert(dot_count(number@) == 0) by {
            assert(number@.drop_last().len() == 0);
            assert(dot_count(number@.drop_last()) == 0);
        }
        while self.pos < self.chars.len() && (is_digit_exec(self.chars[self.pos])
            || self.chars[self.pos] == '.')
            invariant
                start <= self.pos <= self.chars@.len(),
                self.chars@ == old(self).chars@,
                start == old(self).pos,
                number_end(self.chars@, start) == number_end(self.chars@, self.pos as int),
                number@ == seq![first_char] + self.chars@.subrange(start, self.pos as int),
                float == (dot_count(number@) > 0),
                is_digit(number@[0]),
                forall|k: int|
                    0 <= k < number@.len() ==> (is_digit(#[trigger] number@[k]) || number@[k]
                        == '.'),
            decreases self.chars.len() - self.pos,
        {
            let c = self.chars[self.pos];
            let ghost before = number@;
            number.push(c);
            if c == '.' {
                float = true;
            }
            assert(number@.drop_last() == before);
            self.pos = self.pos + 1;
            assert(number@ =~= seq![first_char] + self.chars@.subrange(start, self.pos as int));
        }
        let text = string_of(&number);
        if float {
            match parse_double(text.as_str()) {
                Ok((bits, shown)) => {
                    let b = match bits {
                        Some(x) => x,
                        None => 0x7ff0_0000_0000_0000,
                    };
                    Ok(Token::Float(b, shown))
                },
                Err(reason) => Err(
                    TokenError::Msg(
                        String::from_str("Could not parse float.\nReason: ").concat(
                            reason.as_str(),
                        ),
                    ),
                ),
            }
        } else {
            proof {
                lemma_no_dot_digits(number@);
            }
            match parse_i64(text.as_str()) {
                Ok(integer) => Ok(Token::Int(integer)),
                Err(reason) => Err(
                    TokenError::Msg(
                        String::from_str("Could not parse int.\nReason: ").concat(reason.as_str()),
                    ),
                ),
            }
        }
    }

    /// Reads the rest of a quoted string, after its opening quote.
    pub fn tokenize_string(&mut self) -> (r: Result<Token, TokenError>)
        ensures
            final(self).text() == old(self).text(),
            old(self).at() <= final(self).at() <= final(self).text().len(),
            match lex_string(old(self).text(), old(self).at(), Seq::empty(), false) {
                Ok((t, e)) => r matches Ok(x) && x@ == Tok::Str(t) && final(self).at() == e,
                Err(e) => r matches Err(x) && x@ == e && final(self).at() == final(self).text().len(),
            },
    {
        proof {
            use_type_invariant(&*self);
        }
        let ghost start = self.pos as int;
        let mut string: Vec<char> = Vec::new();
        let mut slash = false;
        loop
            invariant_except_break
                lex_string(self.chars@, start, Seq::empty(), false) == lex_string(
                    self.chars@,
                    self.pos as int,
                    string@,
                    slash,
                ),
            invariant
                start <= self.pos <= self.chars@.len(),
                self.chars@ == old(self).chars@,
                start == old(self).pos,
            ensures
                lex_string(self.chars@, start, Seq::empty(), false) == Ok::<(Seq<char>, int), ErrV>(
                    (string@, self.pos as int),
                ),
            decreases self.chars.len() - self.pos,
        {
            match self.next() {
                Some(string_char) => {
                    if string_char == '\\' {
                        string.push(string_char);
                        slash = true;
                    } else if string_char == '"' {
                        if slash {
                            slash = false;
                            string.push('"');
                        } else {
                            break;
                        }
                    } else {
                        string.push(string_char);
                    }
                },
                None => {
                    return Err(TokenError::UnexpectedEOF);
                },
            }
        }
        Ok(Token::String(string_of(&string)))
    }
}

impl Lexer {
    /// Reads the rest of a query, after its opening `(` or the `#` of a nested query.
    pub fn tokenize_query(&mut self) -> (r: Result<Token, TokenError>)
        ensures
            final(self).text() == old(self).text(),
            old(self).at() <= final(self).at() <= final(self).text().len(),
            match lex_query(old(self).text(), old(self).at(), Seq::empty()) {
                Ok((t, e)) => r matches Ok(x) && x@ == t && final(self).at() == e,
                Err(e) => r matches Err(x) && x@ == e,
            },
        decreases old(self).text().len() - old(self).at(),
    {
        proof {
            use_type_invariant(&*self);
        }
        let ghost start = self.pos as int;
        let mut all_match = false;
        let mut query: Vec<Token> = Vec::new();
        assert(tokens_view(query@) =~= Seq::<Tok>::empty());
        loop
            invariant_except_break
                lex_query(self.chars@, start, Seq::empty()) == lex_query(
                    self.chars@,
                    self.pos as int,
                    tokens_view(query@),
                ),
                !all_match,
            invariant
                start <= self.pos <= self.chars@.len(),
                self.chars@ == old(self).chars@,
                start == old(self).pos,
            ensures
                lex_query(self.chars@, start, Seq::empty()) == Ok::<(Tok, int), ErrV>(
                    (
                        if all_match {
                            Tok::QueryAll(tokens_view(query@))
                        } else {
                            Tok::QueryOnce(tokens_view(query@))
                        },
                        self.pos as int,
                    ),
                ),
            decreases self.chars.len() - self.pos,
        {
            let ghost i = self.pos as int;
            let ghost acc = tokens_view(query@);
            let character = match self.next() {
                Some(c) => c,
                None => {
                    break;
                },
            };
            if character == '.' || character == '(' {
                continue;
            }
            if character == '#' {
                match self.tokenize_query() {
                    Ok(t) => {
                        proof {
                            lemma_tokens_view_push(query@, t);
                        }
                        query.push(t);
                    },
                    Err(e) => {
                        return Err(e);
                    },
                }
            } else if character == ')' {
                match self.peek() {
                    Some(c) => {
                        if c == '#' {
                            all_match = true;
                            self.next();
                        }
                    },
                    None => {},
                }
                break;
            } else if is_letter_exec(character) {
                let t = self.tokenize_key(character);
                match t {
                    Ok(t) => {
                        assert(seq![character] + self.chars@.subrange(i + 1, self.pos as int)
                            =~= self.chars@.subrange(i, self.pos as int));
                        proof {
                            lemma_tokens_view_push(query@, t);
                        }
                        query.push(t);
                    },
                    Err(e) => {
                        return Err(e);
                    },
                }
            } else if is_digit_exec(character) {
                let t = self.tokenize_number(character);
                assert(seq![character] + self.chars@.subrange(i + 1, self.pos as int)
                    =~= self.chars@.subrange(i, self.pos as int));
                match t {
                    Ok(t) => {
                        proof {
                            lemma_tokens_view_push(query@, t);
                        }
                        query.push(t);
                    },
                    Err(e) => {
                        return Err(e);
                    },
                }
            } else if character == '"' {
                match self.tokenize_string() {
                    Ok(t) => {
                        proof {
                            lemma_tokens_view_push(query@, t);
                        }
                        query.push(t);
                    },
                    Err(e) => {
                        return Err(e);
                    },
                }
            } else if character == '%' {
                proof {
                    lemma_tokens_view_push(query@, Token::Like);
                }
                query.push(Token::Like);
            } else if character == '=' {
                match self.peek() {
                    Some(peek_char) => {
                        if peek_char == '=' {
                            proof {
                                lemma_tokens_view_push(query@, Token::Equal);
                            }
                            query.push(Token::Equal);
                            self.next();
                        } else {
                            return Err(
                                TokenError::UnexpectedCharacter(text_of('=', Some(peek_char))),
                            );
                        }
                    },
                    None => {
                        return Err(TokenError::UnexpectedEOF);
                    },
                }
            } else if character == '!' {
                match self.peek() {
                    Some(peek_char) => {
                        if peek_char == '=' {
                            proof {
                                lemma_tokens_view_push(query@, Token::NotEqual);
                            }
                            query.push(Token::NotEqual);
                        } else if peek_char == '%' {
                            proof {
                                lemma_tokens_view_push(query@, Token::NotLike);
                            }
                            query.push(Token::NotLike);
                        } else {
                            return Err(
                                TokenError::UnexpectedCharacter(text_of('!', Some(peek_char))),
                            );
                        }
                    },
                    None => {
                        return Err(TokenError::UnexpectedEOF);
                    },
                }
                self.next();
            } else if character == '<' {
                match self.peek() {
                    Some(peek_char) => {
                        if peek_char == '=' {
                            proof {
                                lemma_tokens_view_push(query@, Token::LessThanEqual);
                            }
                            query.push(Token::LessThanEqual);
                            self.next();
                        } else {
                            proof {
                                lemma_tokens_view_push(query@, Token::LessThan);
                            }
                            query.push(Token::LessThan);
                        }
                    },
                    None => {
                        return Err(TokenError::UnexpectedEOF);
                    },
                }
            } else if character == '>' {
                match self.peek() {
                    Some(peek_char) => {
                        if peek_char == '=' {
                            proof {
                                lemma_tokens_view_push(query@, Token::GreaterThanEqual);
                            }
                            query.push(Token::GreaterThanEqual);
                            self.next();
                        } else {
                            proof {
                                lemma_tokens_view_push(query@, Token::GreaterThan);
                            }
                            query.push(Token::GreaterThan);
                        }
                    },
                    None => {
                        return Err(TokenError::UnexpectedEOF);
                    },
                }
            } else {
                return Err(TokenError::UnexpectedCharacter(text_of(character, None)));
            }
        }
        if all_match {
            Ok(Token::QueryAll(query))
        } else {
            Ok(Token::QueryOnce(query))
        }
    }

    /// Reads the tokens of the rest of the expression.
    pub fn tokens(&mut self) -> (r: Result<Vec<Token>, TokenError>)
        ensures
            final(self).text() == old(self).text(),
            match lex_tokens(old(self).text(), old(self).at(), Seq::empty()) {
                Ok(ts) => r matches Ok(v) && tokens_view(v@) == ts && final(self).at()
                    == final(self).text().len(),
                Err(e) => r matches Err(x) && x@ == e,
            },
    {
        proof {
            use_type_invariant(&*self);
        }
        let ghost start = self.pos as int;
        let mut tokens: Vec<Token> = Vec::new();
        assert(tokens_view(tokens@) =~= Seq::<Tok>::empty());
        loop
            invariant_except_break
                lex_tokens(self.chars@, start, Seq::empty()) == lex_tokens(
                    self.chars@,
                    self.pos as int,
                    tokens_view(tokens@),
                ),
            invariant
                start <= self.pos <= self.chars@.len(),
                self.chars@ == old(self).chars@,
                start == old(self).pos,
            ensures
                lex_tokens(self.chars@, start, Seq::empty()) == Ok::<Seq<Tok>, ErrV>(
                    tokens_view(tokens@),
                ),
                self.pos == self.chars.len(),
            decreases self.chars.len() - self.pos,
        {
            let ghost i = self.pos as int;
            let character = match self.next() {
                Some(c) => c,
                None => {
                    break;
                },
            };
            if character == '.' {
                proof {
                    lemma_tokens_view_push(tokens@, Token::Dot);
                }
                tokens.push(Token::Dot);
            } else if character == '#' {
                match self.peek() {
                    Some(c) => {
                        if c == '(' {
                            continue;
                        } else if c == '.' {
                            proof {
                                lemma_tokens_view_push(tokens@, Token::Hashtag);
                            }
                            tokens.push(Token::Hashtag);
                        } else {
                            return Err(TokenError::UnexpectedCharacter(text_of(c, None)));
                        }
                    },
                    None => {
                        proof {
                            lemma_tokens_view_push(tokens@, Token::Hashtag);
                        }
                        tokens.push(Token::Hashtag);
                    },
                }
            } else if character == '(' {
                match self.tokenize_query() {
                    Ok(t) => {
                        proof {
                            lemma_tokens_view_push(tokens@, t);
                        }
                        tokens.push(t);
                    },
                    Err(e) => {
                        return Err(e);
                    },
                }
            } else if is_letter_exec(character) {
                let t = self.tokenize_key(character);
                match t {
                    Ok(t) => {
                        assert(seq![character] + self.chars@.subrange(i + 1, self.pos as int)
                            =~= self.chars@.subrange(i, self.pos as int));
                        proof {
                            lemma_tokens_view_push(tokens@, t);
                        }
                        tokens.push(t);
                    },
                    Err(e) => {
                        return Err(e);
                    },
                }
            } else if is_digit_exec(character) {
                let t = self.tokenize_number(character);
                assert(seq![character] + self.chars@.subrange(i + 1, self.pos as int)
                    =~= self.chars@.subrange(i, self.pos as int));
                match t {
                    Ok(t) => {
                        proof {
                            lemma_tokens_view_push(tokens@, t);
                        }
                        tokens.push(t);
                    },
                    Err(e) => {
                        return Err(e);
                    },
                }
            } else {
                return Err(TokenError::UnexpectedCharacter(text_of(character, None)));
            }
        }
        Ok(tokens)
    }
}

} // verus!
