use vstd::prelude::*;
use vstd::std_specs::iter::IteratorSpec;

verus! {

broadcast use vstd::string::group_string_axioms;

/// A lexical unit of the source text.
#[derive(Debug, PartialEq, Eq)]
pub enum Token {
    Add,
    Sub,
    Mul,
    Div,
    Lparen,
    Rparen,
    Int(i32),
    Semicolon,
    Assign,
    Identifier(String),
}

/// The mathematical value of a `Token`.
pub enum TokenModel {
    Add,
    Sub,
    Mul,
    Div,
    Lparen,
    Rparen,
    Int(i32),
    Semicolon,
    Assign,
    Identifier(Seq<char>),
}

impl View for Token {
    type V = TokenModel;

    open spec fn view(&self) -> TokenModel {
        match self {
            Token::Add => TokenModel::Add,
            Token::Sub => TokenModel::Sub,
            Token::Mul => TokenModel::Mul,
            Token::Div => TokenModel::Div,
            Token::Lparen => TokenModel::Lparen,
            Token::Rparen => TokenModel::Rparen,
            Token::Int(n) => TokenModel::Int(*n),
            Token::Semicolon => TokenModel::Semicolon,
            Token::Assign => TokenModel::Assign,
            Token::Identifier(name) => TokenModel::Identifier(name@),
        }
    }
}

/// Why the text could not be split into tokens.
#[derive(Debug, PartialEq, Eq, Clone, Copy)]
pub enum LexError {
    /// A character that starts no token and is not whitespace, with its
    /// position (counted in characters from zero).
    UnknownCharacter(char, usize),
    /// A run of digits whose value exceeds `i32::MAX`, with the position of
    /// its first digit.
    IntegerOutOfRange(usize),
}

/// The models of a sequence of tokens, in order.
pub open spec fn token_models(ts: Seq<Token>) -> Seq<TokenModel> {
    ts.map_values(|t: Token| t@)
}

/// The model of a lexer result.
pub open spec fn lex_result_model(r: Result<Vec<Token>, LexError>) -> Result<
    Seq<TokenModel>,
    LexError,
> {
    match r {
        Ok(ts) => Ok(token_models(ts@)),
        Err(e) => Err(e),
    }
}

/// Whether `c` has Unicode's White_Space property: the 25 code points
/// U+0009..U+000D, U+0020, U+0085, U+00A0, U+1680, U+2000..U+200A, U+2028,
/// U+2029, U+202F, U+205F and U+3000.
pub open spec fn white_space(c: char) -> bool {
    ||| '\u{9}' <= c <= '\u{d}'
    ||| c == ' '
    ||| c == '\u{85}'
    ||| c == '\u{a0}'
    ||| c == '\u{1680}'
    ||| '\u{2000}' <= c <= '\u{200a}'
    ||| c == '\u{2028}'
    ||| c == '\u{2029}'
    ||| c == '\u{202f}'
    ||| c == '\u{205f}'
    ||| c == '\u{3000}'
}

/// Whether `c` has Unicode's Alphabetic property, as `char::is_alphabetic`
/// decides it.
pub uninterp spec fn alphabetic(c: char) -> bool;

/// Whether `c` is alphabetic or numeric, as `char::is_alphanumeric` decides
/// it.
pub uninterp spec fn alphanumeric(c: char) -> bool;

/// Relies on `char::is_whitespace`: true exactly for the characters with
/// Unicode's White_Space property.
#[verifier::external_body]
fn is_space(c: char) -> (r: bool)
    ensures
        r == white_space(c),
{
    c.is_whitespace()
}

/// Relies on `char::is_alphabetic`: the result depends on the character
/// alone.
#[verifier::external_body]
fn is_alpha(c: char) -> (r: bool)
    ensures
        r == alphabetic(c),
{
    c.is_alphabetic()
}

/// Relies on `char::is_alphanumeric`: the result depends on the character
/// alone.
#[verifier::external_body]
fn is_alnum(c: char) -> (r: bool)
    ensures
        r == alphanumeric(c),
{
    c.is_alphanumeric()
}

/// Relies on `String::push`: appends one character at the end.
#[verifier::external_body]
pub(crate) fn push_char(s: &mut String, c: char)
    ensures
        final(s)@ == old(s)@.push(c),
{
    s.push(c)
}

/// What the lexer needs to know of one character beyond its value: whether
/// it is whitespace, alphabetic, and alphanumeric.
#[derive(Debug, Clone, Copy, PartialEq, Eq)]
pub struct CharClass {
    pub space: bool,
    pub alphabetic: bool,
    pub alphanumeric: bool,
}

/// The class of each character of a text.
pub open spec fn classes_of(s: Seq<char>) -> Seq<CharClass> {
    Seq::new(
        s.len(),
        |k: int|
            CharClass {
                space: white_space(s[k]),
                alphabetic: alphabetic(s[k]),
                alphanumeric: alphanumeric(s[k]),
            },
    )
}

pub open spec fn is_digit(c: char) -> bool {
    '0' <= c <= '9'
}

/// Whether `s[k]`, of class `cls[k]`, may begin a name: an alphabetic
/// character or `_`.
pub open spec fn is_word_start(s: Seq<char>, cls: Seq<CharClass>, k: int) -> bool {
    0 <= k < s.len() && (s[k] == '_' || (k < cls.len() && cls[k].alphabetic))
}

/// Whether `s[k]`, of class `cls[k]`, may continue a name: an alphanumeric
/// character or `_`.
pub open spec fn is_word_char(s: Seq<char>, cls: Seq<CharClass>, k: int) -> bool {
    0 <= k < s.len() && (s[k] == '_' || (k < cls.len() && cls[k].alphanumeric))
}

/// The token that a single character stands for, if any.
pub open spec fn symbol_token(c: char) -> Option<TokenModel> {
    if c == '+' {
        Some(TokenModel::Add)
    } else if c == '-' {
        Some(TokenModel::Sub)
    } else if c == '*' {
        Some(TokenModel::Mul)
    } else if c == '/' {
        Some(TokenModel::Div)
    } else if c == '(' {
        Some(TokenModel::Lparen)
    } else if c == ')' {
        Some(TokenModel::Rparen)
    } else if c == ';' {
        Some(TokenModel::Semicolon)
    } else if c == '=' {
        Some(TokenModel::Assign)
    } else {
        None
    }
}

/// The end of the maximal run of digits in `s` that starts at `i`.
pub open spec fn digit_run_end(s: Seq<char>, i: int) -> int
    decreases s.len() - i,
{
    if 0 <= i < s.len() && is_digit(s[i]) {
        digit_run_end(s, i + 1)
    } else {
        i
    }
}

/// The end of the maximal run of name characters in `s` that starts at `i`.
pub open spec fn word_run_end(s: Seq<char>, cls: Seq<CharClass>, i: int) -> int
    decreases s.len() - i,
{
    if is_word_char(s, cls, i) {
        word_run_end(s, cls, i + 1)
    } else {
        i
    }
}

pub open spec fn digit_value(c: char) -> nat {
    (c as nat - '0' as nat) as nat
}

/// The value of a sequence of decimal digits, most significant first.
pub open spec fn digits_value(d: Seq<char>) -> nat
    decreases d.len(),
{
    if d.len() == 0 {
        0
    } else {
        digits_value(d.drop_last()) * 10 + digit_value(d.last())
    }
}

/// Puts `p` in front of the tokens of a lexer result; an error stays.
pub open spec fn prefix_tokens(p: Seq<TokenModel>, r: Result<Seq<TokenModel>, LexError>) -> Result<
    Seq<TokenModel>,
    LexError,
> {
    match r {
        Ok(ts) => Ok(p + ts),
        Err(e) => Err(e),
    }
}

/// The tokens of `s` from position `i` on, where `cls[k]` is the class of
/// `s[k]`. Whitespace is skipped; then come symbols, maximal runs of ASCII
/// digits, and names: an alphabetic character or `_`, followed by a maximal
/// run of alphanumeric characters or `_`. Any other character is an error.
pub open spec fn lex_from(s: Seq<char>, cls: Seq<CharClass>, i: int) -> Result<
    Seq<TokenModel>,
    LexError,
>
    decreases s.len() - i,
{
    if i < 0 || i >= s.len() {
        Ok(seq![])
    } else {
        let c = s[i];
        if i < cls.len() && cls[i].space {
            lex_from(s, cls, i + 1)
        } else if symbol_token(c) is Some {
            prefix_tokens(seq![symbol_token(c)->0], lex_from(s, cls, i + 1))
        } else if is_digit(c) {
            let e = digit_run_end(s, i);
            proof {
                lemma_digit_run_end(s, i);
            }
            let v = digits_value(s.subrange(i, e));
            if v > i32::MAX {
                Err(LexError::IntegerOutOfRange(i as usize))
            } else {
                prefix_tokens(seq![TokenModel::Int(v as i32)], lex_from(s, cls, e))
            }
        } else if is_word_start(s, cls, i) {
            let e = word_run_end(s, cls, i + 1);
            proof {
                lemma_word_run_end(s, cls, i + 1);
            }
            prefix_tokens(seq![TokenModel::Identifier(s.subrange(i, e))], lex_from(s, cls, e))
        } else {
            Err(LexError::UnknownCharacter(c, i as usize))
        }
    }
}

/// The tokens of `s`, where `cls[k]` is the class of `s[k]`.
pub open spec fn lex_classified(s: Seq<char>, cls: Seq<CharClass>) -> Result<
    Seq<TokenModel>,
    LexError,
> {
    lex_from(s, cls, 0)
}

/// The tokens of the text `s`.
pub open spec fn lex(s: Seq<char>) -> Result<Seq<TokenModel>, LexError> {
    lex_classified(s, classes_of(s))
}

pub proof fn lemma_digit_run_end(s: Seq<char>, i: int)
    ensures
        i <= digit_run_end(s, i),
        0 <= i <= s.len() ==> digit_run_end(s, i) <= s.len(),
        0 <= i < s.len() && is_digit(s[i]) ==> i < digit_run_end(s, i),
    decreases s.len() - i,
{
    if 0 <= i < s.len() && is_digit(s[i]) {
        lemma_digit_run_end(s, i + 1);
    }
}

pub proof fn lemma_word_run_end(s: Seq<char>, cls: Seq<CharClass>, i: int)
    ensures
        i <= word_run_end(s, cls, i),
        0 <= i <= s.len() ==> word_run_end(s, cls, i) <= s.len(),
        is_word_char(s, cls, i) ==> i < word_run_end(s, cls, i),
    decreases s.len() - i,
{
    if is_word_char(s, cls, i) {
        lemma_word_run_end(s, cls, i + 1);
    }
}

/// A run of digits from `j` up to `i` goes on where the run from `i` ends.
pub proof fn lemma_digit_run_ends_at(s: Seq<char>, j: int, i: int)
    requires
        0 <= j <= i <= s.len(),
        forall|k: int| j <= k < i ==> is_digit(#[trigger] s[k]),
    ensures
        digit_run_end(s, j) == digit_run_end(s, i),
    decreases i - j,
{
    if j < i {
        lemma_digit_run_ends_at(s, j + 1, i);
    }
}

/// A run of name characters from `j` up to `i` goes on where the run from
/// `i` ends.
pub proof fn lemma_word_run_ends_at(s: Seq<char>, cls: Seq<CharClass>, j: int, i: int)
    requires
        0 <= j <= i <= s.len(),
        forall|k: int| j <= k < i ==> #[trigger] is_word_char(s, cls, k),
    ensures
        word_run_end(s, cls, j) == word_run_end(s, cls, i),
    decreases i - j,
{
    if j < i {
        lemma_word_run_ends_at(s, cls, j + 1, i);
    }
}

/// Appending a digit never lowers the value of a run of digits.
proof fn lemma_digits_value_grows(s: Seq<char>, j: int, k: int, e: int)
    requires
        0 <= j <= k <= e <= s.len(),
    ensures
        digits_value(s.subrange(j, k)) <= digits_value(s.subrange(j, e)),
    decreases e - k,
{
    if k < e {
        assert(s.subrange(j, k + 1).drop_last() =~= s.subrange(j, k));
        lemma_digits_value_grows(s, j, k + 1, e);
    }
}

proof fn lemma_prefix_push(p: Seq<TokenModel>, t: TokenModel, x: Result<Seq<TokenModel>, LexError>)
    ensures
        prefix_tokens(p, prefix_tokens(seq![t], x)) == prefix_tokens(p.push(t), x),
{
    if let Ok(ts) = x {
        assert(p + (seq![t] + ts) =~= p.push(t) + ts);
    }
}

proof fn lemma_models_push(ts: Seq<Token>, t: Token)
    ensures
        token_models(ts.push(t)) == token_models(ts).push(t@),
{
    assert(token_models(ts.push(t)) =~= token_models(ts).push(t@));
}

fn digit_char(c: char) -> (r: bool)
    ensures
        r == is_digit(c),
{
    '0' <= c && c <= '9'
}

/// The token that the character `c` stands for alone, if any.
fn symbol(c: char) -> (r: Option<Token>)
    ensures
        match r {
            Some(t) => symbol_token(c) == Some(t@),
            None => symbol_token(c) is None,
        },
{
    match c {
        '+' => Some(Token::Add),
        '-' => Some(Token::Sub),
        '*' => Some(Token::Mul),
        '/' => Some(Token::Div),
        '(' => Some(Token::Lparen),
        ')' => Some(Token::Rparen),
        ';' => Some(Token::Semicolon),
        '=' => Some(Token::Assign),
        _ => None,
    }
}

/// The characters of a text, in order.
fn chars_of(s: &str) -> (r: Vec<char>)
    ensures
        r@ == s@,
{
    let mut it = s.chars();
    let mut out: Vec<char> = Vec::new();
    loop
        invariant
            out@ + it.remaining() == s@,
        ensures
            out@ == s@,
        decreases s@.len() - out.len(),
    {
        match it.next() {
            Some(c) => {
                proof {
                    assert(out@.push(c) + it.remaining() =~= s@);
                }
                out.push(c);
            },
            None => {
                proof {
                    assert(out@ =~= out@ + it.remaining());
                }
                break;
            },
        }
    }
    out
}

/// Splits `chars` into tokens, where `classes[k]` is the class of
/// `chars[k]`. Whitespace separates tokens and is dropped; the first
/// character that starts no token and is not whitespace is reported with
/// its position.
pub fn tokenize_chars(chars: &Vec<char>, classes: &Vec<CharClass>) -> (r: Result<
    Vec<Token>,
    LexError,
>)
    requires
        chars.len() == classes.len(),
    ensures
        lex_result_model(r) == lex_classified(chars@, classes@),
{
    let n = chars.len();
    let ghost cls = classes@;
    let mut tokens: Vec<Token> = Vec::new();
    let mut i: usize = 0;
    while i < n
        invariant
            i <= n,
            n == chars.len(),
            n == classes.len(),
            cls == classes@,
            lex_classified(chars@, cls) == prefix_tokens(
                token_models(tokens@),
                lex_from(chars@, cls, i as int),
            ),
        decreases n - i,
    {
        let ghost s = chars@;
        let ghost before = tokens@;
        let c = chars[i];
        if classes[i].space {
            i = i + 1;
        } else if let Some(t) = symbol(c) {
            proof {
                lemma_prefix_push(token_models(before), t@, lex_from(s, cls, i + 1));
                lemma_models_push(before, t);
            }
            tokens.push(t);
            i = i + 1;
        } else if digit_char(c) {
            let start = i;
            let mut value: u64 = 0;
            while i < n && digit_char(chars[i])
                invariant
                    start < n,
                    start <= i <= n,
                    n == chars.len(),
                    n == classes.len(),
                    s == chars@,
                    cls == classes@,
                    tokens@ == before,
                    lex_classified(s, cls) == prefix_tokens(
                        token_models(before),
                        lex_from(s, cls, start as int),
                    ),
                    !cls[start as int].space,
                    is_digit(s[start as int]),
                    forall|k: int| start <= k < i ==> is_digit(#[trigger] s[k]),
                    value == digits_value(s.subrange(start as int, i as int)),
                    value <= i32::MAX,
                decreases n - i,
            {
                let d = chars[i];
                proof {
                    assert(s.subrange(start as int, i + 1).drop_last() =~= s.subrange(
                        start as int,
                        i as int,
                    ));
                }
                value = value * 10 + ((d as u32) - ('0' as u32)) as u64;
                i = i + 1;
                if value > i32::MAX as u64 {
                    proof {
                        let e = digit_run_end(s, start as int);
                        lemma_digit_run_ends_at(s, start as int, i as int);
                        lemma_digit_run_end(s, i as int);
                        lemma_digits_value_grows(s, start as int, i as int, e);
                    }
                    return Err(LexError::IntegerOutOfRange(start));
                }
            }
            proof {
                lemma_digit_run_ends_at(s, start as int, i as int);
                let t = TokenModel::Int(value as i32);
                lemma_prefix_push(token_models(before), t, lex_from(s, cls, i as int));
                lemma_models_push(before, Token::Int(value as i32));
            }
            tokens.push(Token::Int(value as i32));
        } else if c == '_' || classes[i].alphabetic {
            let start = i;
            let mut name = String::new();
            push_char(&mut name, c);
            i = i + 1;
            proof {
                assert(name@ =~= s.subrange(start as int, i as int));
            }
            while i < n && (chars[i] == '_' || classes[i].alphanumeric)
                invariant
                    start < n,
                    start <= i <= n,
                    n == chars.len(),
                    n == classes.len(),
                    s == chars@,
                    cls == classes@,
                    tokens@ == before,
                    lex_classified(s, cls) == prefix_tokens(
                        token_models(before),
                        lex_from(s, cls, start as int),
                    ),
                    start < i,
                    is_word_start(s, cls, start as int),
                    !cls[start as int].space,
                    forall|k: int| start < k < i ==> #[trigger] is_word_char(s, cls, k),
                    name@ == s.subrange(start as int, i as int),
                decreases n - i,
            {
                push_char(&mut name, chars[i]);
                proof {
                    assert(name@ =~= s.subrange(start as int, i + 1));
                }
                i = i + 1;
            }
            proof {
                lemma_word_run_ends_at(s, cls, start + 1, i as int);
                let t = TokenModel::Identifier(name@);
                lemma_prefix_push(token_models(before), t, lex_from(s, cls, i as int));
            }
            let tok = Token::Identifier(name);
            proof {
                lemma_models_push(before, tok);
            }
            tokens.push(tok);
        } else {
            return Err(LexError::UnknownCharacter(c, i));
        }
    }
    proof {
        assert(token_models(tokens@) + seq![] =~= token_models(tokens@));
    }
    Ok(tokens)
}

/// Splits a text into tokens. Whitespace separates tokens and is dropped;
/// the first character that starts no token and is not whitespace is
/// reported with its position.
pub fn tokenize(input: &str) -> (r: Result<Vec<Token>, LexError>)
    ensures
        lex_result_model(r) == lex(input@),
{
    let chars = chars_of(input);
    let mut classes: Vec<CharClass> = Vec::new();
    let mut j: usize = 0;
    while j < chars.len()
        invariant
            j <= chars.len(),
            chars@ == input@,
            classes@ == classes_of(input@).take(j as int),
        decreases chars.len() - j,
    {
        let c = chars[j];
        let class = CharClass { space: is_space(c), alphabetic: is_alpha(c), alphanumeric: is_alnum(c) };
        proof {
            assert(classes@.push(class) =~= classes_of(input@).take(j + 1));
        }
        classes.push(class);
        j = j + 1;
    }
    proof {
        assert(classes@ =~= classes_of(input@));
    }
    tokenize_chars(&chars, &classes)
}

} // verus!
