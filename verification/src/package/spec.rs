//! Option strings, such as `+static`, `num=123` or `name="text"`, cut into
//! tokens.
//!
//! The strings are read byte by byte. A number is handed out as it is
//! written; what it is worth is for the reader of the tokens to tell.

use vstd::prelude::*;
use vstd::string::StringSliceAdditionalSpecFns;

verus! {

pub const SPACE: u8 = 32;

pub const DOUBLE_QUOTE: u8 = 34;

pub const SINGLE_QUOTE: u8 = 39;

pub const PLUS: u8 = 43;

pub const COMMA: u8 = 44;

pub const MINUS: u8 = 45;

pub const DOT: u8 = 46;

pub const EQUAL: u8 = 61;

pub const OPEN_SQUARE: u8 = 91;

pub const BACKSLASH: u8 = 92;

pub const CLOSE_SQUARE: u8 = 93;

pub const UNDERSCORE: u8 = 95;

pub const TILDE: u8 = 126;

/// A piece of an option string.
#[derive(Debug, Clone, PartialEq, Eq)]
pub enum OptionToken {
    Space,
    Plus,
    Minus,
    Tilde,
    Equal,
    OpenSquare,
    CloseSquare,
    Comma,
    /// `true` or `false`, in small or capital letters.
    Bool(bool),
    /// A number as it is written: digits, `.`, `_`, `e`, `+` and `-`, a
    /// digit first.
    Number(String),
    /// A text between quotes, without the quotes and with its escapes
    /// read.
    Str(String),
    /// A name: letters, digits, `_` and `-`.
    Named(String),
}

/// What an [`OptionToken`] is, as a value of mathematics.
pub enum TokenView {
    Space,
    Plus,
    Minus,
    Tilde,
    Equal,
    OpenSquare,
    CloseSquare,
    Comma,
    Bool(bool),
    Number(Seq<char>),
    Str(Seq<char>),
    Named(Seq<char>),
}

impl View for OptionToken {
    type V = TokenView;

    open spec fn view(&self) -> TokenView {
        match self {
            OptionToken::Space => TokenView::Space,
            OptionToken::Plus => TokenView::Plus,
            OptionToken::Minus => TokenView::Minus,
            OptionToken::Tilde => TokenView::Tilde,
            OptionToken::Equal => TokenView::Equal,
            OptionToken::OpenSquare => TokenView::OpenSquare,
            OptionToken::CloseSquare => TokenView::CloseSquare,
            OptionToken::Comma => TokenView::Comma,
            OptionToken::Bool(b) => TokenView::Bool(*b),
            OptionToken::Number(s) => TokenView::Number(s@),
            OptionToken::Str(s) => TokenView::Str(s@),
            OptionToken::Named(s) => TokenView::Named(s@),
        }
    }
}

/// Why an option string cannot be cut into tokens.
#[derive(Debug, Clone, Copy, PartialEq, Eq, Structural)]
pub enum TokenError {
    /// The string ends inside a quoted text.
    UnexpectedEnd,
    /// In a quoted text a backslash stands before a byte that it cannot
    /// stand before.
    InvalidEscape(u8),
    /// At place `at` stands a byte with which no token starts.
    UnexpectedByte { at: usize, byte: u8 },
}

/// The views of the tokens.
pub open spec fn token_views(tokens: Seq<OptionToken>) -> Seq<TokenView> {
    tokens.map_values(|t: OptionToken| t@)
}

/// The bytes as a text, each byte a character.
pub open spec fn text_of(bytes: Seq<u8>) -> Seq<char> {
    bytes.map_values(|b: u8| b as char)
}

/// Whether `b` is an ASCII digit.
pub open spec fn is_digit_byte(b: u8) -> bool {
    48 <= b <= 57
}

/// Whether `b` can stand in a number: a digit, `.`, `_`, `e`, `+` or `-`.
pub open spec fn is_number_byte(b: u8) -> bool {
    is_digit_byte(b) || b == DOT || b == UNDERSCORE || b == 101 || b == PLUS || b == MINUS
}

/// Whether `b` can stand in a name: an ASCII letter or digit, `_` or `-`.
pub open spec fn is_name_byte(b: u8) -> bool {
    is_digit_byte(b) || 65 <= b <= 90 || 97 <= b <= 122 || b == UNDERSCORE || b == MINUS
}

/// The small letter for a capital ASCII letter, else the byte itself.
pub open spec fn small(b: u8) -> u8 {
    if 65 <= b <= 90 {
        (b + 32) as u8
    } else {
        b
    }
}

/// Whether the word `word`, given in small letters, stands at place `at`,
/// in small or capital letters.
pub open spec fn word_at(bytes: Seq<u8>, at: int, word: Seq<u8>) -> bool {
    &&& 0 <= at
    &&& at + word.len() <= bytes.len()
    &&& forall|k: int| 0 <= k < word.len() ==> small(bytes[at + k]) == #[trigger] word[k]
}

/// The word `true`.
pub open spec fn word_true() -> Seq<u8> {
    seq![116u8, 114u8, 117u8, 101u8]
}

/// The word `false`.
pub open spec fn word_false() -> Seq<u8> {
    seq![102u8, 97u8, 108u8, 115u8, 101u8]
}

/// The place behind the run of number bytes that starts at `i`.
pub open spec fn number_end(bytes: Seq<u8>, i: int) -> int
    decreases bytes.len() - i,
{
    if 0 <= i < bytes.len() && is_number_byte(bytes[i]) {
        number_end(bytes, i + 1)
    } else {
        i
    }
}

/// The place behind the run of name bytes that starts at `i`.
pub open spec fn name_end(bytes: Seq<u8>, i: int) -> int
    decreases bytes.len() - i,
{
    if 0 <= i < bytes.len() && is_name_byte(bytes[i]) {
        name_end(bytes, i + 1)
    } else {
        i
    }
}

/// The character that a backslash and `b` stand for in a quoted text.
pub open spec fn unescaped(b: u8) -> Option<char> {
    if b == BACKSLASH {
        Some('\\')
    } else if b == SINGLE_QUOTE {
        Some('\'')
    } else if b == DOUBLE_QUOTE {
        Some('"')
    } else if b == 116 {
        Some('\t')
    } else if b == 110 {
        Some('\n')
    } else {
        None
    }
}

/// The rest of a quoted text from place `i` on, behind what `done` holds
/// of it: the text, and the place of the quote that ends it.
pub open spec fn quoted_from(bytes: Seq<u8>, i: int, quote: u8, done: Seq<char>) -> Result<
    (Seq<char>, int),
    TokenError,
>
    decreases bytes.len() - i,
{
    if i < 0 || i >= bytes.len() {
        Err(TokenError::UnexpectedEnd)
    } else if bytes[i] == BACKSLASH {
        if i + 1 >= bytes.len() {
            Err(TokenError::UnexpectedEnd)
        } else {
            match unescaped(bytes[i + 1]) {
                Some(c) => quoted_from(bytes, i + 2, quote, done.push(c)),
                None => Err(TokenError::InvalidEscape(bytes[i + 1])),
            }
        }
    } else if bytes[i] == quote {
        Ok((done, i))
    } else {
        quoted_from(bytes, i + 1, quote, done.push(bytes[i] as char))
    }
}

/// The token for a byte that is a token by itself.
pub open spec fn sign_token(b: u8) -> Option<TokenView> {
    if b == SPACE {
        Some(TokenView::Space)
    } else if b == PLUS {
        Some(TokenView::Plus)
    } else if b == MINUS {
        Some(TokenView::Minus)
    } else if b == TILDE {
        Some(TokenView::Tilde)
    } else if b == EQUAL {
        Some(TokenView::Equal)
    } else if b == OPEN_SQUARE {
        Some(TokenView::OpenSquare)
    } else if b == CLOSE_SQUARE {
        Some(TokenView::CloseSquare)
    } else if b == COMMA {
        Some(TokenView::Comma)
    } else {
        None
    }
}

/// The token that starts at place `i`, and the place behind it.
///
/// A sign is a token by itself. A quote opens a text that runs to the
/// next quote of its kind. Then come `true` and `false`, then a number
/// where a digit stands, and a name elsewhere.
pub open spec fn token_at(bytes: Seq<u8>, i: int) -> Result<(TokenView, int), TokenError>
    recommends
        0 <= i < bytes.len(),
{
    let b = bytes[i];
    if sign_token(b) is Some {
        Ok((sign_token(b)->0, i + 1))
    } else if b == SINGLE_QUOTE || b == DOUBLE_QUOTE {
        match quoted_from(bytes, i + 1, b, Seq::empty()) {
            Ok((text, close)) => Ok((TokenView::Str(text), close + 1)),
            Err(e) => Err(e),
        }
    } else if word_at(bytes, i, word_true()) {
        Ok((TokenView::Bool(true), i + 4))
    } else if word_at(bytes, i, word_false()) {
        Ok((TokenView::Bool(false), i + 5))
    } else if is_digit_byte(b) {
        Ok(
            (
                TokenView::Number(text_of(bytes.subrange(i, number_end(bytes, i)))),
                number_end(bytes, i),
            ),
        )
    } else if name_end(bytes, i) > i {
        Ok((TokenView::Named(text_of(bytes.subrange(i, name_end(bytes, i)))), name_end(bytes, i)))
    } else {
        Err(TokenError::UnexpectedByte { at: i as usize, byte: b })
    }
}

/// The tokens from place `i` on, behind the tokens `done`. Each token is
/// followed by the next until the string ends; that a token ends behind its
/// start and within the string, [`lemma_token_advances`] says.
pub open spec fn tokens_from(bytes: Seq<u8>, i: int, done: Seq<TokenView>) -> Result<
    Seq<TokenView>,
    TokenError,
>
    decreases bytes.len() - i,
{
    if i < 0 || i >= bytes.len() {
        Ok(done)
    } else if token_at(bytes, i) is Err {
        Err(token_at(bytes, i)->Err_0)
    } else {
        let token = token_at(bytes, i)->Ok_0.0;
        let next = token_at(bytes, i)->Ok_0.1;
        if next <= i || next > bytes.len() {
            Ok(done)
        } else {
            tokens_from(bytes, next, done.push(token))
        }
    }
}

/// The tokens that the bytes of an option string come to, or why they
/// come to none.
pub open spec fn tokens_of(bytes: Seq<u8>) -> Result<Seq<TokenView>, TokenError> {
    tokens_from(bytes, 0, Seq::empty())
}

/// A run of number bytes ends at or behind the place where it starts,
/// and within the string.
pub proof fn lemma_number_end(bytes: Seq<u8>, i: int)
    ensures
        i <= number_end(bytes, i),
        i <= bytes.len() ==> number_end(bytes, i) <= bytes.len(),
    decreases bytes.len() - i,
{
    if 0 <= i < bytes.len() && is_number_byte(bytes[i]) {
        lemma_number_end(bytes, i + 1);
    }
}

/// A run of name bytes ends at or behind the place where it starts, and
/// within the string.
pub proof fn lemma_name_end(bytes: Seq<u8>, i: int)
    ensures
        i <= name_end(bytes, i),
        i <= bytes.len() ==> name_end(bytes, i) <= bytes.len(),
    decreases bytes.len() - i,
{
    if 0 <= i < bytes.len() && is_name_byte(bytes[i]) {
        lemma_name_end(bytes, i + 1);
    }
}

/// A token ends behind the place where it starts, and within the string:
/// the tokens of a string are read one behind the other until the string
/// ends.
pub proof fn lemma_token_advances(bytes: Seq<u8>, i: int)
    requires
        0 <= i < bytes.len(),
    ensures
        token_at(bytes, i) matches Ok((_, next)) ==> i < next <= bytes.len(),
{
    let b = bytes[i];
    lemma_quoted_from_ends(bytes, i + 1, b, Seq::empty());
    lemma_number_end(bytes, i + 1);
    lemma_number_end(bytes, i);
    lemma_name_end(bytes, i);
}

/// A quoted text ends at or behind the place where it is looked for.
pub proof fn lemma_quoted_from_ends(bytes: Seq<u8>, i: int, quote: u8, done: Seq<char>)
    requires
        0 <= i,
    ensures
        quoted_from(bytes, i, quote, done) matches Ok((_, close)) ==> i <= close < bytes.len(),
    decreases bytes.len() - i,
{
    if i < bytes.len() {
        if bytes[i] == BACKSLASH {
            if i + 1 < bytes.len() && unescaped(bytes[i + 1]) is Some {
                lemma_quoted_from_ends(bytes, i + 2, quote, done.push(unescaped(bytes[i + 1])->0));
            }
        } else if bytes[i] != quote {
            lemma_quoted_from_ends(bytes, i + 1, quote, done.push(bytes[i] as char));
        }
    }
}

fn sign_of(b: u8) -> (t: Option<OptionToken>)
    ensures
        match t {
            Some(token) => sign_token(b) == Some(token@),
            None => sign_token(b) is None,
        },
{
    if b == SPACE {
        Some(OptionToken::Space)
    } else if b == PLUS {
        Some(OptionToken::Plus)
    } else if b == MINUS {
        Some(OptionToken::Minus)
    } else if b == TILDE {
        Some(OptionToken::Tilde)
    } else if b == EQUAL {
        Some(OptionToken::Equal)
    } else if b == OPEN_SQUARE {
        Some(OptionToken::OpenSquare)
    } else if b == CLOSE_SQUARE {
        Some(OptionToken::CloseSquare)
    } else if b == COMMA {
        Some(OptionToken::Comma)
    } else {
        None
    }
}

fn digit_byte(b: u8) -> (r: bool)
    ensures
        r == is_digit_byte(b),
{
    48 <= b && b <= 57
}

fn number_byte(b: u8) -> (r: bool)
    ensures
        r == is_number_byte(b),
{
    digit_byte(b) || b == DOT || b == UNDERSCORE || b == 101 || b == PLUS || b == MINUS
}

fn name_byte(b: u8) -> (r: bool)
    ensures
        r == is_name_byte(b),
{
    digit_byte(b) || (65 <= b && b <= 90) || (97 <= b && b <= 122) || b == UNDERSCORE || b == MINUS
}

fn small_of(b: u8) -> (r: u8)
    ensures
        r == small(b),
{
    if 65 <= b && b <= 90 {
        b + 32
    } else {
        b
    }
}

fn unescape(b: u8) -> (c: Option<char>)
    ensures
        c == unescaped(b),
{
    if b == BACKSLASH {
        Some('\\')
    } else if b == SINGLE_QUOTE {
        Some('\'')
    } else if b == DOUBLE_QUOTE {
        Some('"')
    } else if b == 116 {
        Some('\t')
    } else if b == 110 {
        Some('\n')
    } else {
        None
    }
}

fn stands_at(bytes: &[u8], at: usize, word: &Vec<u8>) -> (r: bool)
    requires
        at <= bytes@.len(),
    ensures
        r == word_at(bytes@, at as int, word@),
{
    let n = bytes.len();
    if word.len() > n - at {
        return false;
    }
    let mut k: usize = 0;
    while k < word.len()
        invariant
            k <= word.len(),
            n == bytes@.len(),
            at + word@.len() <= n,
            forall|j: int| 0 <= j < k ==> small(bytes@[at + j]) == #[trigger] word@[j],
        decreases word.len() - k,
    {
        if small_of(bytes[at + k]) != word[k] {
            return false;
        }
        k = k + 1;
    }
    true
}

fn text_between(bytes: &[u8], from: usize, to: usize) -> (s: String)
    requires
        from <= to <= bytes@.len(),
    ensures
        s@ == text_of(bytes@.subrange(from as int, to as int)),
{
    let mut s = String::new();
    let mut i: usize = from;
    assert(s@ =~= text_of(bytes@.subrange(from as int, from as int)));
    while i < to
        invariant
            from <= i <= to <= bytes@.len(),
            s@ == text_of(bytes@.subrange(from as int, i as int)),
        decreases to - i,
    {
        s.push(bytes[i] as char);
        assert(s@ =~= text_of(bytes@.subrange(from as int, i + 1)));
        i = i + 1;
    }
    s
}

fn read_quoted(bytes: &[u8], start: usize, quote: u8) -> (r: Result<(String, usize), TokenError>)
    requires
        start <= bytes@.len(),
    ensures
        match r {
            Ok((text, close)) => quoted_from(bytes@, start as int, quote, Seq::empty()) == Ok::<
                (Seq<char>, int),
                TokenError,
            >((text@, close as int)) && start <= close < bytes@.len(),
            Err(e) => quoted_from(bytes@, start as int, quote, Seq::empty()) == Err::<
                (Seq<char>, int),
                TokenError,
            >(e),
        },
{
    let n = bytes.len();
    let mut text = String::new();
    let mut i: usize = start;
    assert(text@ =~= Seq::<char>::empty());
    loop
        invariant
            n == bytes@.len(),
            start <= i <= n,
            quoted_from(bytes@, start as int, quote, Seq::empty()) == quoted_from(
                bytes@,
                i as int,
                quote,
                text@,
            ),
        decreases n - i,
    {
        if i >= n {
            return Err(TokenError::UnexpectedEnd);
        }
        let b = bytes[i];
        if b == BACKSLASH {
            if i + 1 >= n {
                return Err(TokenError::UnexpectedEnd);
            }
            match unescape(bytes[i + 1]) {
                Some(c) => {
                    text.push(c);
                    i = i + 2;
                },
                None => {
                    return Err(TokenError::InvalidEscape(bytes[i + 1]));
                },
            }
        } else if b == quote {
            return Ok((text, i));
        } else {
            text.push(b as char);
            i = i + 1;
        }
    }
}

fn number_run(bytes: &[u8], start: usize) -> (end: usize)
    requires
        start <= bytes@.len(),
    ensures
        end == number_end(bytes@, start as int),
        start <= end <= bytes@.len(),
{
    let mut end: usize = start;
    while end < bytes.len() && number_byte(bytes[end])
        invariant
            start <= end <= bytes@.len(),
            number_end(bytes@, start as int) == number_end(bytes@, end as int),
        decreases bytes.len() - end,
    {
        end = end + 1;
    }
    end
}

fn name_run(bytes: &[u8], start: usize) -> (end: usize)
    requires
        start <= bytes@.len(),
    ensures
        end == name_end(bytes@, start as int),
        start <= end <= bytes@.len(),
{
    let mut end: usize = start;
    while end < bytes.len() && name_byte(bytes[end])
        invariant
            start <= end <= bytes@.len(),
            name_end(bytes@, start as int) == name_end(bytes@, end as int),
        decreases bytes.len() - end,
    {
        end = end + 1;
    }
    end
}

/// Reads the token that starts at place `i`.
fn read_token(bytes: &[u8], i: usize) -> (r: Result<(OptionToken, usize), TokenError>)
    requires
        i < bytes@.len(),
    ensures
        match r {
            Ok((token, next)) => token_at(bytes@, i as int) == Ok::<(TokenView, int), TokenError>(
                (token@, next as int),
            ) && i < next <= bytes@.len(),
            Err(e) => token_at(bytes@, i as int) == Err::<(TokenView, int), TokenError>(e),
        },
{
    let b = bytes[i];
    match sign_of(b) {
        Some(token) => {
            return Ok((token, i + 1));
        },
        None => {},
    }
    if b == SINGLE_QUOTE || b == DOUBLE_QUOTE {
        return match read_quoted(bytes, i + 1, b) {
            Ok((text, close)) => Ok((OptionToken::Str(text), close + 1)),
            Err(e) => Err(e),
        };
    }
    let yes: Vec<u8> = vec![116u8, 114u8, 117u8, 101u8];
    let no: Vec<u8> = vec![102u8, 97u8, 108u8, 115u8, 101u8];
    assert(yes@ =~= word_true());
    assert(no@ =~= word_false());
    if stands_at(bytes, i, &yes) {
        return Ok((OptionToken::Bool(true), i + 4));
    }
    if stands_at(bytes, i, &no) {
        return Ok((OptionToken::Bool(false), i + 5));
    }
    if digit_byte(b) {
        let end = number_run(bytes, i);
        proof {
            lemma_number_end(bytes@, i + 1);
        }
        return Ok((OptionToken::Number(text_between(bytes, i, end)), end));
    }
    let end = name_run(bytes, i);
    if end > i {
        Ok((OptionToken::Named(text_between(bytes, i, end)), end))
    } else {
        Err(TokenError::UnexpectedByte { at: i, byte: b })
    }
}

/// Cuts an option string into its tokens.
pub fn tokenize_option(opt: &str) -> (r: Result<Vec<OptionToken>, TokenError>)
    ensures
        match r {
            Ok(tokens) => tokens_of(opt.spec_bytes()) == Ok::<Seq<TokenView>, TokenError>(
                token_views(tokens@),
            ),
            Err(e) => tokens_of(opt.spec_bytes()) == Err::<Seq<TokenView>, TokenError>(e),
        },
{
    let bytes = opt.as_bytes();
    let mut tokens: Vec<OptionToken> = Vec::new();
    let mut i: usize = 0;
    assert(token_views(tokens@) =~= Seq::<TokenView>::empty());
    while i < bytes.len()
        invariant
            bytes@ == opt.spec_bytes(),
            i <= bytes@.len(),
            tokens_of(bytes@) == tokens_from(bytes@, i as int, token_views(tokens@)),
        decreases bytes.len() - i,
    {
        match read_token(bytes, i) {
            Err(e) => {
                return Err(e);
            },
            Ok((token, next)) => {
                let ghost before = token_views(tokens@);
                tokens.push(token);
                assert(token_views(tokens@) =~= before.push(token@));
                i = next;
            },
        }
    }
    Ok(tokens)
}

} // verus!
