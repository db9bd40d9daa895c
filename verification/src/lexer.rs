//! The lexer: turns the full source text into an ordered token list in one
//! pass, failing fast on the first illegal character or malformed literal.
//! The token list always ends with exactly one end-of-input marker.
use vstd::prelude::*;
use crate::scanner::Scanner;
use crate::push_char;

verus! {

broadcast use vstd::seq::group_seq_axioms;

/// The closed set of reserved words. Only a few are consumed by the statement
/// grammar; the rest are reserved and must still lex correctly.
#[derive(Debug, Clone, Copy, PartialEq, Eq, Structural)]
pub enum BuiltinKeyword {
    Let,
    Const,
    If,
    Else,
    Func,
    Return,
    Break,
    Continue,
    While,
    Do,
    In,
    For,
    Has,
    True,
    False,
}

/// A numeric literal. Hexadecimal literals are parsed here to their integer
/// value; decimal literals keep their validated text, and decoding that text
/// to a floating-point value is left to the embedding program, since this
/// library holds no floating-point values.
#[derive(Debug, PartialEq)]
pub enum NumberLit {
    /// A hexadecimal literal's non-negative integer value.
    Hex(i64),
    /// A decimal literal's text, checked against the decimal-literal grammar.
    Dec(String),
}

/// A classified lexical unit.
#[derive(Debug, PartialEq)]
pub enum Token {
    Identifier(String),
    Keyword(BuiltinKeyword),
    Paren(char),
    Symbol(String),
    Number(NumberLit),
    Str(String),
    Semi,
    EOF,
}

/// Mathematical model of a numeric literal.
pub enum NumberLitModel {
    Hex(i64),
    Dec(Seq<char>),
}

/// Mathematical model of a token: text is a character sequence.
pub enum TokenModel {
    Identifier(Seq<char>),
    Keyword(BuiltinKeyword),
    Paren(char),
    Symbol(Seq<char>),
    Number(NumberLitModel),
    Str(Seq<char>),
    Semi,
    EOF,
}

impl View for NumberLit {
    type V = NumberLitModel;

    open spec fn view(&self) -> NumberLitModel {
        match self {
            NumberLit::Hex(n) => NumberLitModel::Hex(*n),
            NumberLit::Dec(s) => NumberLitModel::Dec(s@),
        }
    }
}

impl View for Token {
    type V = TokenModel;

    open spec fn view(&self) -> TokenModel {
        match self {
            Token::Identifier(s) => TokenModel::Identifier(s@),
            Token::Keyword(k) => TokenModel::Keyword(*k),
            Token::Paren(c) => TokenModel::Paren(*c),
            Token::Symbol(s) => TokenModel::Symbol(s@),
            Token::Number(n) => TokenModel::Number(n@),
            Token::Str(s) => TokenModel::Str(s@),
            Token::Semi => TokenModel::Semi,
            Token::EOF => TokenModel::EOF,
        }
    }
}

impl Clone for NumberLit {
    fn clone(&self) -> (r: Self)
        ensures
            r == *self,
    {
        match self {
            NumberLit::Hex(n) => NumberLit::Hex(*n),
            NumberLit::Dec(s) => NumberLit::Dec(s.clone()),
        }
    }
}

impl Clone for Token {
    fn clone(&self) -> (r: Self)
        ensures
            r == *self,
    {
        match self {
            Token::Identifier(s) => Token::Identifier(s.clone()),
            Token::Keyword(k) => Token::Keyword(*k),
            Token::Paren(c) => Token::Paren(*c),
            Token::Symbol(s) => Token::Symbol(s.clone()),
            Token::Number(n) => Token::Number(n.clone()),
            Token::Str(s) => Token::Str(s.clone()),
            Token::Semi => Token::Semi,
            Token::EOF => Token::EOF,
        }
    }
}

/// A lexing failure.
#[derive(Debug, PartialEq)]
pub enum LexError {
    /// A numeric run that is neither a valid hexadecimal nor a valid decimal
    /// literal, carrying the offending text.
    InvalidNumericLiteral(String),
    /// A backslash escape with an unrecognized escape character.
    UnknownEscapeSequence(char),
    /// End of input reached inside a string literal.
    UnterminatedString,
    /// A character that starts no token, with its position.
    UnexpectedCharacter(char, usize),
}

/// Mathematical model of a lexing failure.
pub enum LexErrorModel {
    InvalidNumericLiteral(Seq<char>),
    UnknownEscapeSequence(char),
    UnterminatedString,
    UnexpectedCharacter(char, int),
}

impl View for LexError {
    type V = LexErrorModel;

    open spec fn view(&self) -> LexErrorModel {
        match self {
            LexError::InvalidNumericLiteral(s) => LexErrorModel::InvalidNumericLiteral(s@),
            LexError::UnknownEscapeSequence(c) => LexErrorModel::UnknownEscapeSequence(*c),
            LexError::UnterminatedString => LexErrorModel::UnterminatedString,
            LexError::UnexpectedCharacter(c, p) => LexErrorModel::UnexpectedCharacter(
                *c,
                *p as int,
            ),
        }
    }
}

// ---------------------------------------------------------------------------
// Character classes
// ---------------------------------------------------------------------------
/// An ASCII decimal digit.
pub open spec fn is_digit(c: char) -> bool {
    48 <= c as u32 <= 57
}

/// A hexadecimal letter, either case.
pub open spec fn is_hex_letter(c: char) -> bool {
    (97 <= c as u32 <= 102) || (65 <= c as u32 <= 70)
}

/// A character that may continue a numeric run: digits, `.`, the
/// hexadecimal letters, and the base marker `x`/`X` (included
/// unconditionally, so a decimal adjacent to such letters absorbs them; the
/// literal is then checked as a whole).
pub open spec fn is_num_char(c: char) -> bool {
    is_digit(c) || c == '.' || is_hex_letter(c) || c == 'x' || c == 'X'
}

/// A character that starts a numeric run.
pub open spec fn is_num_start(c: char) -> bool {
    is_digit(c) || c == '.'
}

/// What `char::is_alphabetic` returns: membership in Unicode's Alphabetic
/// class, a function of the character alone.
pub uninterp spec fn is_alpha_char(c: char) -> bool;

/// Relies on `char::is_alphabetic`: the Unicode Alphabetic classification of
/// the character. The ASCII letters are documented members of that class,
/// and no other ASCII character is.
pub assume_specification[ char::is_alphabetic ](c: char) -> (b: bool)
    ensures
        b == is_alpha_char(c),
        (97 <= c as u32 <= 122) || (65 <= c as u32 <= 90) ==> b,
        ((c as u32) < 128 && !(97 <= c as u32 <= 122) && !(65 <= c as u32 <= 90)) ==> !b,
;

/// A character that may continue an identifier.
pub open spec fn is_ident_char(c: char) -> bool {
    is_alpha_char(c) || is_digit(c) || c == '_'
}

/// A character that starts an identifier: an ASCII letter or underscore.
pub open spec fn is_ident_start(c: char) -> bool {
    (97 <= c as u32 <= 122) || (65 <= c as u32 <= 90) || c == '_'
}

/// A bracket character, lexed as a single-character token.
pub open spec fn is_paren_char(c: char) -> bool {
    c == '(' || c == ')' || c == '[' || c == ']' || c == '{' || c == '}'
}

/// An operator character; a maximal run of these forms one symbol token.
pub open spec fn is_op_char(c: char) -> bool {
    c == '+' || c == '-' || c == '*' || c == '/' || c == '=' || c == '^' || c == '|' || c == '&'
        || c == '~' || c == ':' || c == '%' || c == '<' || c == '>' || c == '?'
}

/// A whitespace character, consumed and discarded.
pub open spec fn is_ws(c: char) -> bool {
    c == ' ' || c == '\n' || c == '\r' || c == '\t'
}

fn ch_is_digit(c: char) -> (b: bool)
    ensures
        b == is_digit(c),
{
    let u = c as u32;
    48 <= u && u <= 57
}

fn ch_is_hex_letter(c: char) -> (b: bool)
    ensures
        b == is_hex_letter(c),
{
    let u = c as u32;
    (97 <= u && u <= 102) || (65 <= u && u <= 70)
}

fn ch_is_num(c: char) -> (b: bool)
    ensures
        b == is_num_char(c),
{
    ch_is_digit(c) || c == '.' || ch_is_hex_letter(c) || c == 'x' || c == 'X'
}

fn ch_is_num_start(c: char) -> (b: bool)
    ensures
        b == is_num_start(c),
{
    ch_is_digit(c) || c == '.'
}

fn ch_is_ident_start(c: char) -> (b: bool)
    ensures
        b == is_ident_start(c),
{
    let u = c as u32;
    (97 <= u && u <= 122) || (65 <= u && u <= 90) || c == '_'
}

fn ch_is_paren(c: char) -> (b: bool)
    ensures
        b == is_paren_char(c),
{
    c == '(' || c == ')' || c == '[' || c == ']' || c == '{' || c == '}'
}

fn ch_is_op(c: char) -> (b: bool)
    ensures
        b == is_op_char(c),
{
    c == '+' || c == '-' || c == '*' || c == '/' || c == '=' || c == '^' || c == '|' || c == '&'
        || c == '~' || c == ':' || c == '%' || c == '<' || c == '>' || c == '?'
}

fn ch_is_ws(c: char) -> (b: bool)
    ensures
        b == is_ws(c),
{
    c == ' ' || c == '\n' || c == '\r' || c == '\t'
}

// ---------------------------------------------------------------------------
// Maximal runs
// ---------------------------------------------------------------------------
/// End of the maximal run of numeric characters starting at `i`.
pub open spec fn num_run_end(s: Seq<char>, i: int) -> int
    decreases s.len() - i,
{
    if 0 <= i < s.len() && is_num_char(s[i]) {
        num_run_end(s, i + 1)
    } else {
        i
    }
}

/// End of the maximal run of identifier characters starting at `i`.
pub open spec fn ident_run_end(s: Seq<char>, i: int) -> int
    decreases s.len() - i,
{
    if 0 <= i < s.len() && is_ident_char(s[i]) {
        ident_run_end(s, i + 1)
    } else {
        i
    }
}

/// End of the maximal run of operator characters starting at `i`.
pub open spec fn op_run_end(s: Seq<char>, i: int) -> int
    decreases s.len() - i,
{
    if 0 <= i < s.len() && is_op_char(s[i]) {
        op_run_end(s, i + 1)
    } else {
        i
    }
}

/// Position of the next line feed at or after `i`, or the end of the text.
pub open spec fn comment_end(s: Seq<char>, i: int) -> int
    decreases s.len() - i,
{
    if 0 <= i < s.len() && s[i] != '\n' {
        comment_end(s, i + 1)
    } else {
        i
    }
}

/// End of the maximal run of decimal digits starting at `i`.
pub open spec fn digit_run_end(s: Seq<char>, i: int) -> int
    decreases s.len() - i,
{
    if 0 <= i < s.len() && is_digit(s[i]) {
        digit_run_end(s, i + 1)
    } else {
        i
    }
}

proof fn lemma_num_run_end(s: Seq<char>, i: int, j: int)
    requires
        0 <= i <= j <= s.len(),
        forall|k: int| i <= k < j ==> is_num_char(s[k]),
        j == s.len() || !is_num_char(s[j]),
    ensures
        num_run_end(s, i) == j,
    decreases j - i,
{
    if i < j {
        lemma_num_run_end(s, i + 1, j);
    }
}

proof fn lemma_ident_run_end(s: Seq<char>, i: int, j: int)
    requires
        0 <= i <= j <= s.len(),
        forall|k: int| i <= k < j ==> is_ident_char(s[k]),
        j == s.len() || !is_ident_char(s[j]),
    ensures
        ident_run_end(s, i) == j,
    decreases j - i,
{
    if i < j {
        lemma_ident_run_end(s, i + 1, j);
    }
}

proof fn lemma_op_run_end(s: Seq<char>, i: int, j: int)
    requires
        0 <= i <= j <= s.len(),
        forall|k: int| i <= k < j ==> is_op_char(s[k]),
        j == s.len() || !is_op_char(s[j]),
    ensures
        op_run_end(s, i) == j,
    decreases j - i,
{
    if i < j {
        lemma_op_run_end(s, i + 1, j);
    }
}

proof fn lemma_comment_end(s: Seq<char>, i: int, j: int)
    requires
        0 <= i <= j <= s.len(),
        forall|k: int| i <= k < j ==> s[k] != '\n',
        j == s.len() || s[j] == '\n',
    ensures
        comment_end(s, i) == j,
    decreases j - i,
{
    if i < j {
        lemma_comment_end(s, i + 1, j);
    }
}

proof fn lemma_digit_run_end(s: Seq<char>, i: int, j: int)
    requires
        0 <= i <= j <= s.len(),
        forall|k: int| i <= k < j ==> is_digit(s[k]),
        j == s.len() || !is_digit(s[j]),
    ensures
        digit_run_end(s, i) == j,
    decreases j - i,
{
    if i < j {
        lemma_digit_run_end(s, i + 1, j);
    }
}

// ---------------------------------------------------------------------------
// Keywords
// ---------------------------------------------------------------------------
/// The keyword named by the given text, if any.
pub open spec fn spec_keyword_of(s: Seq<char>) -> Option<BuiltinKeyword> {
    if s == "let"@ {
        Some(BuiltinKeyword::Let)
    } else if s == "const"@ {
        Some(BuiltinKeyword::Const)
    } else if s == "if"@ {
        Some(BuiltinKeyword::If)
    } else if s == "else"@ {
        Some(BuiltinKeyword::Else)
    } else if s == "func"@ {
        Some(BuiltinKeyword::Func)
    } else if s == "return"@ {
        Some(BuiltinKeyword::Return)
    } else if s == "break"@ {
        Some(BuiltinKeyword::Break)
    } else if s == "continue"@ {
        Some(BuiltinKeyword::Continue)
    } else if s == "while"@ {
        Some(BuiltinKeyword::While)
    } else if s == "do"@ {
        Some(BuiltinKeyword::Do)
    } else if s == "in"@ {
        Some(BuiltinKeyword::In)
    } else if s == "for"@ {
        Some(BuiltinKeyword::For)
    } else if s == "has"@ {
        Some(BuiltinKeyword::Has)
    } else if s == "true"@ {
        Some(BuiltinKeyword::True)
    } else if s == "false"@ {
        Some(BuiltinKeyword::False)
    } else {
        None
    }
}

pub(crate) fn str_eq(a: &String, b: &str) -> (r: bool)
    ensures
        r == (a@ == b@),
{
    let bs: String = b.to_owned();
    *a == bs
}

fn keyword_of(s: &String) -> (r: Option<BuiltinKeyword>)
    ensures
        r == spec_keyword_of(s@),
{
    if str_eq(s, "let") {
        Some(BuiltinKeyword::Let)
    } else if str_eq(s, "const") {
        Some(BuiltinKeyword::Const)
    } else if str_eq(s, "if") {
        Some(BuiltinKeyword::If)
    } else if str_eq(s, "else") {
        Some(BuiltinKeyword::Else)
    } else if str_eq(s, "func") {
        Some(BuiltinKeyword::Func)
    } else if str_eq(s, "return") {
        Some(BuiltinKeyword::Return)
    } else if str_eq(s, "break") {
        Some(BuiltinKeyword::Break)
    } else if str_eq(s, "continue") {
        Some(BuiltinKeyword::Continue)
    } else if str_eq(s, "while") {
        Some(BuiltinKeyword::While)
    } else if str_eq(s, "do") {
        Some(BuiltinKeyword::Do)
    } else if str_eq(s, "in") {
        Some(BuiltinKeyword::In)
    } else if str_eq(s, "for") {
        Some(BuiltinKeyword::For)
    } else if str_eq(s, "has") {
        Some(BuiltinKeyword::Has)
    } else if str_eq(s, "true") {
        Some(BuiltinKeyword::True)
    } else if str_eq(s, "false") {
        Some(BuiltinKeyword::False)
    } else {
        None
    }
}

// ---------------------------------------------------------------------------
// Hexadecimal literals
// ---------------------------------------------------------------------------
/// A hexadecimal digit, either case.
pub open spec fn is_hex_digit(c: char) -> bool {
    is_digit(c) || is_hex_letter(c)
}

/// The value of a hexadecimal digit (0 for characters outside the class).
pub open spec fn hex_digit_val(c: char) -> int {
    if is_digit(c) {
        c as u32 - 48
    } else if 97 <= c as u32 <= 102 {
        c as u32 - 87
    } else if 65 <= c as u32 <= 70 {
        c as u32 - 55
    } else {
        0
    }
}

/// Whether every character of `s` is a hexadecimal digit.
pub open spec fn all_hex_digits(s: Seq<char>) -> bool {
    forall|k: int| 0 <= k < s.len() ==> is_hex_digit(s[k])
}

/// The base-16 value of `s`, reading digit values left to right.
pub open spec fn hex_num(s: Seq<char>) -> int
    decreases s.len(),
{
    if s.len() == 0 {
        0
    } else {
        16 * hex_num(s.drop_last()) + hex_digit_val(s.last())
    }
}

/// The integer a hexadecimal digit run denotes: defined when the run is
/// non-empty, all digits, and the value fits in an `i64`.
pub open spec fn spec_hex_value(s: Seq<char>) -> Option<i64> {
    if s.len() > 0 && all_hex_digits(s) && hex_num(s) <= i64::MAX {
        Some(hex_num(s) as i64)
    } else {
        None
    }
}

proof fn lemma_hex_num_nonneg(s: Seq<char>)
    ensures
        hex_num(s) >= 0,
    decreases s.len(),
{
    if s.len() > 0 {
        lemma_hex_num_nonneg(s.drop_last());
    }
}

/// One step of the left-to-right base-16 accumulation.
proof fn lemma_hex_num_step(s: Seq<char>, i: int)
    requires
        0 <= i < s.len(),
    ensures
        hex_num(s.subrange(0, i + 1)) == 16 * hex_num(s.subrange(0, i)) + hex_digit_val(s[i]),
{
    assert(s.subrange(0, i + 1).drop_last() =~= s.subrange(0, i));
    assert(s.subrange(0, i + 1).last() == s[i]);
}

/// The value of a prefix never exceeds the value of the whole run.
proof fn lemma_hex_num_prefix_le(s: Seq<char>, i: int)
    requires
        0 <= i <= s.len(),
    ensures
        hex_num(s.subrange(0, i)) <= hex_num(s),
    decreases s.len() - i,
{
    if i == s.len() {
        assert(s.subrange(0, i) =~= s);
    } else {
        lemma_hex_num_step(s, i);
        lemma_hex_num_nonneg(s.subrange(0, i));
        lemma_hex_num_prefix_le(s, i + 1);
    }
}

fn hex_digit_of(c: char) -> (r: Option<i64>)
    ensures
        match r {
            Some(d) => is_hex_digit(c) && d == hex_digit_val(c) && 0 <= d <= 15,
            None => !is_hex_digit(c),
        },
{
    let u = c as u32;
    if 48 <= u && u <= 57 {
        Some((u - 48) as i64)
    } else if 97 <= u && u <= 102 {
        Some((u - 87) as i64)
    } else if 65 <= u && u <= 70 {
        Some((u - 55) as i64)
    } else {
        None
    }
}

/// Reads the base-16 run of `t` starting at character `from`, returning its
/// value exactly when the run is a non-empty all-digit run whose value fits.
fn parse_hex_from(t: &str, from: usize) -> (r: Option<i64>)
    requires
        from as int <= t@.len(),
    ensures
        r == spec_hex_value(t@.subrange(from as int, t@.len() as int)),
{
    let ghost h: Seq<char> = t@.subrange(from as int, t@.len() as int);
    let n: usize = t.unicode_len();
    if from >= n {
        return None;
    }
    let mut acc: i64 = 0;
    let mut j: usize = from;
    proof {
        assert(h.subrange(0, 0) =~= Seq::<char>::empty());
    }
    while j < n
        invariant
            from <= j <= n,
            n == t@.len(),
            h == t@.subrange(from as int, n as int),
            from < n,
            all_hex_digits(h.subrange(0, j - from)),
            acc == hex_num(h.subrange(0, j - from)),
            0 <= acc,
        decreases n - j,
    {
        let c = t.get_char(j);
        proof {
            assert(h[j - from] == c);
        }
        match hex_digit_of(c) {
            None => {
                proof {
                    assert(!all_hex_digits(h));
                }
                return None;
            },
            Some(d) => {
                let lim: i64 = (i64::MAX - d) / 16;
                if acc > lim {
                    proof {
                        lemma_hex_num_step(h, j - from);
                        assert(16 * acc + d > i64::MAX) by {
                            assert(acc >= lim + 1);
                            assert(16 * acc >= 16 * (lim + 1)) by (nonlinear_arith)
                                requires
                                    acc >= lim + 1,
                            ;
                            assert(16 * ((i64::MAX - d) / 16) + 15 >= i64::MAX - d) by {
                                vstd::arithmetic::div_mod::lemma_fundamental_div_mod(
                                    i64::MAX - d,
                                    16,
                                );
                            }
                        }
                        lemma_hex_num_prefix_le(h, j - from + 1);
                        lemma_hex_num_nonneg(h);
                    }
                    return None;
                }
                proof {
                    assert(16 * acc + d <= i64::MAX) by {
                        assert(16 * acc <= 16 * lim) by (nonlinear_arith)
                            requires
                                acc <= lim,
                        ;
                        assert(16 * ((i64::MAX - d) / 16) <= i64::MAX - d) by {
                            vstd::arithmetic::div_mod::lemma_fundamental_div_mod(i64::MAX - d, 16);
                        }
                    }
                    lemma_hex_num_step(h, j - from);
                    lemma_hex_num_nonneg(h.subrange(0, j - from));
                }
                acc = acc * 16 + d;
                j += 1;
            },
        }
    }
    proof {
        assert(h.subrange(0, n - from) =~= h);
        assert(spec_hex_value(h) == Some(acc));
    }
    Some(acc)
}

// ---------------------------------------------------------------------------
// Decimal literals
// ---------------------------------------------------------------------------
/// Whether position `i` of `s` starts a valid literal tail: either the end of
/// the text or an exponent marker followed by a non-empty digit run reaching
/// the end.
pub open spec fn spec_exp_ok(s: Seq<char>, i: int) -> bool {
    if i == s.len() {
        true
    } else if 0 <= i < s.len() && (s[i] == 'e' || s[i] == 'E') {
        digit_run_end(s, i + 1) == s.len() && s.len() > i + 1
    } else {
        false
    }
}

/// Whether `s` is a well-formed decimal literal: a digit run, optionally a
/// point with a digit run (at least one digit on one side), optionally an
/// exponent part; nothing else.
pub open spec fn spec_is_valid_decimal(s: Seq<char>) -> bool {
    let d1 = digit_run_end(s, 0);
    if d1 == s.len() {
        d1 > 0
    } else if s[d1] == '.' {
        let d2 = digit_run_end(s, d1 + 1);
        (d1 > 0 || d2 > d1 + 1) && spec_exp_ok(s, d2)
    } else {
        d1 > 0 && spec_exp_ok(s, d1)
    }
}

proof fn lemma_digit_run_bounds(s: Seq<char>, i: int)
    requires
        0 <= i <= s.len(),
    ensures
        i <= digit_run_end(s, i) <= s.len(),
        digit_run_end(s, i) < s.len() ==> !is_digit(s[digit_run_end(s, i)]),
        forall|k: int| i <= k < digit_run_end(s, i) ==> is_digit(s[k]),
    decreases s.len() - i,
{
    if i < s.len() && is_digit(s[i]) {
        lemma_digit_run_bounds(s, i + 1);
    }
}

fn digit_run_from(t: &str, i: usize, n: usize) -> (j: usize)
    requires
        i <= n,
        n == t@.len(),
    ensures
        i <= j <= n,
        j as int == digit_run_end(t@, i as int),
{
    let mut j: usize = i;
    loop
        invariant
            i <= j <= n,
            n == t@.len(),
            forall|k: int| i <= k < j ==> is_digit(t@[k]),
        ensures
            i <= j <= n,
            forall|k: int| i <= k < j ==> is_digit(t@[k]),
            j == n || !is_digit(t@[j as int]),
        decreases n - j,
    {
        if j >= n {
            break;
        }
        if !ch_is_digit(t.get_char(j)) {
            break;
        }
        j += 1;
    }
    proof {
        lemma_digit_run_end(t@, i as int, j as int);
    }
    j
}

fn exp_ok_from(t: &str, i: usize, n: usize) -> (b: bool)
    requires
        i <= n,
        n == t@.len(),
    ensures
        b == spec_exp_ok(t@, i as int),
{
    if i == n {
        return true;
    }
    let c = t.get_char(i);
    if c == 'e' || c == 'E' {
        let d3 = digit_run_from(t, i + 1, n);
        d3 == n && n > i + 1
    } else {
        false
    }
}

/// Whether the text is a well-formed decimal literal.
fn is_valid_decimal(t: &String) -> (b: bool)
    ensures
        b == spec_is_valid_decimal(t@),
{
    let st: &str = t.as_str();
    let n: usize = st.unicode_len();
    let d1 = digit_run_from(st, 0, n);
    if d1 == n {
        return d1 > 0;
    }
    let c = st.get_char(d1);
    if c == '.' {
        let d2 = digit_run_from(st, d1 + 1, n);
        if !(d1 > 0 || d2 > d1 + 1) {
            return false;
        }
        exp_ok_from(st, d2, n)
    } else {
        if d1 == 0 {
            return false;
        }
        exp_ok_from(st, d1, n)
    }
}

// ---------------------------------------------------------------------------
// String literals
// ---------------------------------------------------------------------------
/// The character a backslash escape decodes to, if the escape is known.
pub open spec fn spec_escape_char(c: char) -> Option<char> {
    if c == 'n' {
        Some('\n')
    } else if c == 't' {
        Some('\t')
    } else if c == 'r' {
        Some('\r')
    } else if c == '\'' {
        Some('\'')
    } else if c == '"' {
        Some('"')
    } else if c == '\\' {
        Some('\\')
    } else {
        None
    }
}

fn escape_of(c: char) -> (r: Option<char>)
    ensures
        r == spec_escape_char(c),
{
    if c == 'n' {
        Some('\n')
    } else if c == 't' {
        Some('\t')
    } else if c == 'r' {
        Some('\r')
    } else if c == '\'' {
        Some('\'')
    } else if c == '"' {
        Some('"')
    } else if c == '\\' {
        Some('\\')
    } else {
        None
    }
}

/// Scans a string literal's body starting just after the opening quote:
/// the decoded contents and the position just past the closing quote, or the
/// lexing failure. A backslash with no character after it, like a missing
/// closing quote, means the input ended inside the literal.
pub open spec fn spec_scan_string(s: Seq<char>, i: int) -> Result<(Seq<char>, int), LexErrorModel>
    decreases s.len() - i,
{
    if i < 0 || i >= s.len() {
        Err(LexErrorModel::UnterminatedString)
    } else if s[i] == '"' {
        Ok((Seq::empty(), i + 1))
    } else if s[i] == '\\' {
        if i + 1 >= s.len() {
            Err(LexErrorModel::UnterminatedString)
        } else {
            match spec_escape_char(s[i + 1]) {
                Some(e) => match spec_scan_string(s, i + 2) {
                    Ok(p) => Ok((seq![e] + p.0, p.1)),
                    Err(er) => Err(er),
                },
                None => Err(LexErrorModel::UnknownEscapeSequence(s[i + 1])),
            }
        }
    } else {
        match spec_scan_string(s, i + 1) {
            Ok(p) => Ok((seq![s[i]] + p.0, p.1)),
            Err(er) => Err(er),
        }
    }
}

proof fn lemma_scan_string_bounds(s: Seq<char>, i: int)
    ensures
        spec_scan_string(s, i) matches Ok(p) ==> i < p.1 <= s.len(),
    decreases s.len() - i,
{
    if 0 <= i < s.len() {
        if s[i] == '"' {
        } else if s[i] == '\\' {
            if i + 1 < s.len() && spec_escape_char(s[i + 1]) is Some {
                lemma_scan_string_bounds(s, i + 2);
            }
        } else {
            lemma_scan_string_bounds(s, i + 1);
        }
    }
}

/// Decoded contents so far, combined with what the rest of the scan gives.
pub open spec fn combine_scan(v: Seq<char>, r: Result<(Seq<char>, int), LexErrorModel>) -> Result<
    (Seq<char>, int),
    LexErrorModel,
> {
    match r {
        Ok(p) => Ok((v + p.0, p.1)),
        Err(e) => Err(e),
    }
}

proof fn lemma_combine_scan_push(
    v: Seq<char>,
    c: char,
    rest: Result<(Seq<char>, int), LexErrorModel>,
)
    ensures
        combine_scan(
            v,
            match rest {
                Ok(p) => Ok((seq![c] + p.0, p.1)),
                Err(e) => Err(e),
            },
        ) == combine_scan(v.push(c), rest),
{
    match rest {
        Ok(p) => {
            assert(v + (seq![c] + p.0) =~= v.push(c) + p.0);
        },
        Err(_) => {},
    }
}

/// Whether the result of scanning a string body matches the model's answer,
/// with `endpos` the cursor position after the scan.
pub open spec fn scan_result_matches(
    r: Result<String, LexError>,
    m: Result<(Seq<char>, int), LexErrorModel>,
    endpos: int,
) -> bool {
    match (r, m) {
        (Ok(v), Ok(p)) => v@ == p.0 && endpos == p.1,
        (Err(e), Err(em)) => e@ == em,
        _ => false,
    }
}

/// Consumes a string literal's body after the opening quote, decoding each
/// escape, through the closing quote.
fn lex_string_body(sc: &mut Scanner) -> (r: Result<String, LexError>)
    requires
        old(sc).wf(),
    ensures
        final(sc).wf(),
        final(sc).text() == old(sc).text(),
        old(sc).at() <= final(sc).at() <= final(sc).text().len(),
        scan_result_matches(r, spec_scan_string(old(sc).text(), old(sc).at()), final(sc).at()),
{
    let ghost s: Seq<char> = sc.text();
    let ghost start: int = sc.at();
    let mut val = String::new();
    proof {
        assert(val@ =~= Seq::<char>::empty());
    }
    loop
        invariant
            sc.wf(),
            sc.text() == s,
            s == old(sc).text(),
            start == old(sc).at(),
            0 <= start <= sc.at() <= s.len(),
            combine_scan(val@, spec_scan_string(s, sc.at())) == spec_scan_string(s, start),
        decreases s.len() - sc.at(),
    {
        if !sc.has_next() {
            return Err(LexError::UnterminatedString);
        }
        let c = sc.current();
        let ghost i: int = sc.at();
        if c == '"' {
            sc.eat();
            proof {
                assert(val@ + Seq::<char>::empty() =~= val@);
            }
            return Ok(val);
        }
        sc.eat();
        if c == '\\' {
            match sc.eat() {
                None => {
                    return Err(LexError::UnterminatedString);
                },
                Some(k) => {
                    match escape_of(k) {
                        Some(e) => {
                            let ghost v0 = val@;
                            push_char(&mut val, e);
                            proof {
                                lemma_combine_scan_push(v0, e, spec_scan_string(s, sc.at()));
                            }
                        },
                        None => {
                            return Err(LexError::UnknownEscapeSequence(k));
                        },
                    }
                },
            }
        } else {
            let ghost v0 = val@;
            push_char(&mut val, c);
            proof {
                lemma_combine_scan_push(v0, c, spec_scan_string(s, sc.at()));
            }
        }
    }
}

// ---------------------------------------------------------------------------
// The lexer itself
// ---------------------------------------------------------------------------
/// Whether numeric-run text carries the case-insensitive `0x` prefix.
pub open spec fn spec_hex_prefixed(t: Seq<char>) -> bool {
    t.len() >= 2 && t[0] == '0' && (t[1] == 'x' || t[1] == 'X')
}

/// One token followed by whatever the rest of the lex gives.
pub open spec fn cons_tok(t: TokenModel, rest: Result<Seq<TokenModel>, LexErrorModel>) -> Result<
    Seq<TokenModel>,
    LexErrorModel,
> {
    match rest {
        Ok(r) => Ok(seq![t] + r),
        Err(e) => Err(e),
    }
}

/// The token list the text from position `i` onward lexes to, ending with the
/// end-of-input marker, or the first lexing failure.
pub open spec fn spec_lex_from(s: Seq<char>, i: int) -> Result<Seq<TokenModel>, LexErrorModel>
    decreases s.len() - i,
        via spec_lex_from_dec
{
    if !(0 <= i < s.len()) {
        Ok(seq![TokenModel::EOF])
    } else {
        let c = s[i];
        if is_num_start(c) {
            let j = num_run_end(s, i);
            let t = s.subrange(i, j);
            if spec_hex_prefixed(t) {
                match spec_hex_value(t.subrange(2, t.len() as int)) {
                    Some(v) => cons_tok(
                        TokenModel::Number(NumberLitModel::Hex(v)),
                        spec_lex_from(s, j),
                    ),
                    None => Err(LexErrorModel::InvalidNumericLiteral(t)),
                }
            } else if spec_is_valid_decimal(t) {
                cons_tok(TokenModel::Number(NumberLitModel::Dec(t)), spec_lex_from(s, j))
            } else {
                Err(LexErrorModel::InvalidNumericLiteral(t))
            }
        } else if is_ident_start(c) {
            let j0 = ident_run_end(s, i);
            let j = if j0 < i + 1 {
                i + 1
            } else {
                j0
            };
            let t = s.subrange(i, j);
            match spec_keyword_of(t) {
                Some(k) => cons_tok(TokenModel::Keyword(k), spec_lex_from(s, j)),
                None => cons_tok(TokenModel::Identifier(t), spec_lex_from(s, j)),
            }
        } else if is_paren_char(c) {
            cons_tok(TokenModel::Paren(c), spec_lex_from(s, i + 1))
        } else if c == ',' {
            cons_tok(TokenModel::Symbol(","@), spec_lex_from(s, i + 1))
        } else if is_op_char(c) {
            let j = op_run_end(s, i);
            cons_tok(TokenModel::Symbol(s.subrange(i, j)), spec_lex_from(s, j))
        } else if c == ';' {
            cons_tok(TokenModel::Semi, spec_lex_from(s, i + 1))
        } else if c == '"' {
            match spec_scan_string(s, i + 1) {
                Ok(p) => cons_tok(TokenModel::Str(p.0), spec_lex_from(s, p.1)),
                Err(e) => Err(e),
            }
        } else if is_ws(c) {
            spec_lex_from(s, i + 1)
        } else if c == '#' {
            spec_lex_from(s, comment_end(s, i))
        } else {
            Err(LexErrorModel::UnexpectedCharacter(c, i))
        }
    }
}

proof fn lemma_num_run_bounds(s: Seq<char>, i: int)
    requires
        0 <= i <= s.len(),
    ensures
        i <= num_run_end(s, i) <= s.len(),
    decreases s.len() - i,
{
    if i < s.len() && is_num_char(s[i]) {
        lemma_num_run_bounds(s, i + 1);
    }
}

proof fn lemma_ident_run_bounds(s: Seq<char>, i: int)
    requires
        0 <= i <= s.len(),
    ensures
        i <= ident_run_end(s, i) <= s.len(),
    decreases s.len() - i,
{
    if i < s.len() && is_ident_char(s[i]) {
        lemma_ident_run_bounds(s, i + 1);
    }
}

proof fn lemma_op_run_bounds(s: Seq<char>, i: int)
    requires
        0 <= i <= s.len(),
    ensures
        i <= op_run_end(s, i) <= s.len(),
    decreases s.len() - i,
{
    if i < s.len() && is_op_char(s[i]) {
        lemma_op_run_bounds(s, i + 1);
    }
}

proof fn lemma_comment_end_bounds(s: Seq<char>, i: int)
    requires
        0 <= i <= s.len(),
    ensures
        i <= comment_end(s, i) <= s.len(),
    decreases s.len() - i,
{
    if i < s.len() && s[i] != '\n' {
        lemma_comment_end_bounds(s, i + 1);
    }
}

#[via_fn]
proof fn spec_lex_from_dec(s: Seq<char>, i: int) {
    if 0 <= i < s.len() {
        lemma_num_run_bounds(s, i + 1);
        lemma_ident_run_bounds(s, i + 1);
        lemma_op_run_bounds(s, i + 1);
        lemma_comment_end_bounds(s, i + 1);
        lemma_scan_string_bounds(s, i + 1);
        if is_num_char(s[i]) {
            assert(num_run_end(s, i) == num_run_end(s, i + 1));
        }
        if is_ident_char(s[i]) {
            assert(ident_run_end(s, i) == ident_run_end(s, i + 1));
        }
        if is_op_char(s[i]) {
            assert(op_run_end(s, i) == op_run_end(s, i + 1));
        }
        if s[i] != '\n' {
            assert(comment_end(s, i) == comment_end(s, i + 1));
        }
    }
}

/// The token list the whole text lexes to, or the first lexing failure.
pub open spec fn spec_lex(s: Seq<char>) -> Result<Seq<TokenModel>, LexErrorModel> {
    spec_lex_from(s, 0)
}

/// The models of a sequence of tokens.
pub open spec fn toks_view(ts: Seq<Token>) -> Seq<TokenModel> {
    Seq::new(ts.len(), |k: int| ts[k]@)
}

/// Tokens already emitted, followed by whatever the rest of the lex gives.
pub open spec fn combine_lex(
    done: Seq<TokenModel>,
    rest: Result<Seq<TokenModel>, LexErrorModel>,
) -> Result<Seq<TokenModel>, LexErrorModel> {
    match rest {
        Ok(r) => Ok(done + r),
        Err(e) => Err(e),
    }
}

/// Whether the lexer's answer matches the model's answer.
pub open spec fn lex_result_matches(
    r: Result<Vec<Token>, LexError>,
    m: Result<Seq<TokenModel>, LexErrorModel>,
) -> bool {
    match (r, m) {
        (Ok(v), Ok(ts)) => toks_view(v@) == ts,
        (Err(e), Err(em)) => e@ == em,
        _ => false,
    }
}

proof fn lemma_lex_step(
    done: Seq<TokenModel>,
    tv: TokenModel,
    rest: Result<Seq<TokenModel>, LexErrorModel>,
)
    ensures
        combine_lex(done, cons_tok(tv, rest)) == combine_lex(done.push(tv), rest),
{
    match rest {
        Ok(r) => {
            assert(done + (seq![tv] + r) =~= done.push(tv) + r);
        },
        Err(_) => {},
    }
}

proof fn lemma_toks_view_push(ts: Seq<Token>, t: Token)
    ensures
        toks_view(ts.push(t)) == toks_view(ts).push(t@),
{
    assert(toks_view(ts.push(t)) =~= toks_view(ts).push(t@));
}

/// The lexer: holds the source text and produces its token list.
pub struct Lexer {
    input: String,
}

impl Lexer {
    /// The source text being lexed.
    pub closed spec fn src(&self) -> Seq<char> {
        self.input@
    }

    pub fn new(input: String) -> (l: Lexer)
        ensures
            l.src() == input@,
    {
        Lexer { input }
    }

    /// Turns the whole source text into its token list, ended by exactly one
    /// end-of-input token, or reports the first lexing failure.
    pub fn lex(&mut self) -> (r: Result<Vec<Token>, LexError>)
        ensures
            *final(self) == *old(self),
            lex_result_matches(r, spec_lex(old(self).src())),
    {
        let mut res: Vec<Token> = Vec::new();
        let mut sc = Scanner::from_str(self.input.as_str());
        let ghost s: Seq<char> = self.input@;
        proof {
            assert(toks_view(res@) =~= Seq::<TokenModel>::empty());
            assert(Seq::<TokenModel>::empty() + spec_lex_from(s, 0)->Ok_0 =~= spec_lex_from(
                s,
                0,
            )->Ok_0) by {
                if spec_lex_from(s, 0) is Ok {
                }
            }
        }
        loop
            invariant
                *self == *old(self),
                s == old(self).src(),
                sc.wf(),
                sc.text() == s,
                combine_lex(toks_view(res@), spec_lex_from(s, sc.at())) == spec_lex_from(s, 0),
            ensures
                sc.at() == s.len(),
            decreases s.len() - sc.at(),
        {
            if !sc.has_next() {
                break;
            }
            let c = sc.current();
            let ghost i: int = sc.at();
            let ghost done0: Seq<TokenModel> = toks_view(res@);
            if ch_is_num_start(c) {
                let cond = (|ch: char| -> (b: bool) ensures b == !is_num_char(ch) { !ch_is_num(ch) });
                let t = sc.eat_until_cond(cond);
                proof {
                    assert forall|k: int| i <= k < sc.at() implies is_num_char(s[k]) by {
                        assert(call_ensures(cond, (s[k],), false));
                    }
                    lemma_num_run_end(s, i, sc.at());
                }
                let ghost j: int = sc.at();
                let tn: usize = t.as_str().unicode_len();
                let mut hexp: bool = false;
                if tn >= 2 {
                    let c0 = t.as_str().get_char(0);
                    let c1 = t.as_str().get_char(1);
                    hexp = c0 == '0' && (c1 == 'x' || c1 == 'X');
                }
                proof {
                    assert(hexp == spec_hex_prefixed(t@));
                }
                if hexp {
                    match parse_hex_from(t.as_str(), 2) {
                        Some(v) => {
                            let tok = Token::Number(NumberLit::Hex(v));
                            let ghost tv = tok@;
                            let ghost res0 = res@;
                            res.push(tok);
                            proof {
                                lemma_toks_view_push(res0, Token::Number(NumberLit::Hex(v)));
                                lemma_lex_step(done0, tv, spec_lex_from(s, j));
                            }
                        },
                        None => {
                            return Err(LexError::InvalidNumericLiteral(t));
                        },
                    }
                } else {
                    if is_valid_decimal(&t) {
                        let ghost tv = TokenModel::Number(NumberLitModel::Dec(t@));
                        let ghost res0 = res@;
                        let tok = Token::Number(NumberLit::Dec(t));
                        proof {
                            assert(tok@ == tv);
                        }
                        res.push(tok);
                        proof {
                            assert(toks_view(res@) =~= done0.push(tv));
                            lemma_lex_step(done0, tv, spec_lex_from(s, j));
                        }
                    } else {
                        return Err(LexError::InvalidNumericLiteral(t));
                    }
                }
            } else if ch_is_ident_start(c) {
                let cond = (|ch: char| -> (b: bool) ensures (b == !is_ident_char(ch)) && (is_ident_start(ch) ==> !b) { !(ch.is_alphabetic() || ch_is_digit(ch) || ch == '_') });
                let t = sc.eat_until_cond(cond);
                proof {
                    assert forall|k: int| i <= k < sc.at() implies is_ident_char(s[k]) by {
                        assert(call_ensures(cond, (s[k],), false));
                    }
                    if sc.at() < s.len() {
                        assert(call_ensures(cond, (s[sc.at()],), true));
                    }
                    assert(sc.at() > i);
                    lemma_ident_run_end(s, i, sc.at());
                }
                let ghost j: int = sc.at();
                let ghost res0 = res@;
                let ghost tvid = TokenModel::Identifier(t@);
                match keyword_of(&t) {
                    Some(k) => {
                        let tok = Token::Keyword(k);
                        let ghost tv = tok@;
                        res.push(tok);
                        proof {
                            lemma_toks_view_push(res0, Token::Keyword(k));
                            lemma_lex_step(done0, tv, spec_lex_from(s, j));
                        }
                    },
                    None => {
                        let tok = Token::Identifier(t);
                        proof {
                            assert(tok@ == tvid);
                        }
                        res.push(tok);
                        proof {
                            assert(toks_view(res@) =~= done0.push(tvid));
                            lemma_lex_step(done0, tvid, spec_lex_from(s, j));
                        }
                    },
                }
            } else if ch_is_paren(c) {
                sc.eat();
                let tok = Token::Paren(c);
                let ghost tv = tok@;
                let ghost res0 = res@;
                res.push(tok);
                proof {
                    lemma_toks_view_push(res0, Token::Paren(c));
                    lemma_lex_step(done0, tv, spec_lex_from(s, i + 1));
                }
            } else if c == ',' {
                sc.eat();
                let tok = Token::Symbol(",".to_owned());
                let ghost tv = tok@;
                let ghost res0 = res@;
                proof {
                    assert(tv == TokenModel::Symbol(","@));
                }
                res.push(tok);
                proof {
                    assert(toks_view(res@) =~= done0.push(tv));
                    lemma_lex_step(done0, tv, spec_lex_from(s, i + 1));
                }
            } else if ch_is_op(c) {
                let cond = (|ch: char| -> (b: bool) ensures b == !is_op_char(ch) { !ch_is_op(ch) });
                let t = sc.eat_until_cond(cond);
                proof {
                    assert forall|k: int| i <= k < sc.at() implies is_op_char(s[k]) by {
                        assert(call_ensures(cond, (s[k],), false));
                    }
                    lemma_op_run_end(s, i, sc.at());
                }
                let ghost j: int = sc.at();
                let ghost res0 = res@;
                let ghost tv = TokenModel::Symbol(t@);
                let tok = Token::Symbol(t);
                proof {
                    assert(tok@ == tv);
                }
                res.push(tok);
                proof {
                    assert(toks_view(res@) =~= done0.push(tv));
                    lemma_lex_step(done0, tv, spec_lex_from(s, j));
                }
            } else if c == ';' {
                sc.eat();
                let tok = Token::Semi;
                let ghost tv = tok@;
                let ghost res0 = res@;
                res.push(tok);
                proof {
                    lemma_toks_view_push(res0, Token::Semi);
                    lemma_lex_step(done0, tv, spec_lex_from(s, i + 1));
                }
            } else if c == '"' {
                sc.eat();
                match lex_string_body(&mut sc) {
                    Ok(v) => {
                        let ghost j: int = sc.at();
                        let ghost res0 = res@;
                        let ghost tv = TokenModel::Str(v@);
                        let tok = Token::Str(v);
                        proof {
                            assert(tok@ == tv);
                        }
                        res.push(tok);
                        proof {
                            assert(toks_view(res@) =~= done0.push(tv));
                            lemma_lex_step(done0, tv, spec_lex_from(s, j));
                            lemma_scan_string_bounds(s, i + 1);
                        }
                    },
                    Err(e) => {
                        return Err(e);
                    },
                }
            } else if ch_is_ws(c) {
                sc.eat();
            } else if c == '#' {
                sc.eat_until('\n');
                proof {
                    lemma_comment_end(s, i, sc.at());
                }
            } else {
                let p = sc.pos();
                return Err(LexError::UnexpectedCharacter(c, p));
            }
        }
        let ghost res0 = res@;
        res.push(Token::EOF);
        proof {
            lemma_toks_view_push(res0, Token::EOF);
            assert(spec_lex_from(s, sc.at()) == Ok::<Seq<TokenModel>, LexErrorModel>(
                seq![TokenModel::EOF],
            ));
            assert(toks_view(res0) + seq![TokenModel::EOF] =~= toks_view(res0).push(
                TokenModel::EOF,
            ));
        }
        Ok(res)
    }
}

/// Whether two lexer answers are the same outcome: equal token models on
/// success, equal failures otherwise.
pub open spec fn same_lex_outcome(
    r1: Result<Vec<Token>, LexError>,
    r2: Result<Vec<Token>, LexError>,
) -> bool {
    match (r1, r2) {
        (Ok(v1), Ok(v2)) => toks_view(v1@) == toks_view(v2@),
        (Err(e1), Err(e2)) => e1@ == e2@,
        _ => false,
    }
}

/// Lexing is deterministic and idempotent: any two runs of the lexer over the
/// same text give the same token sequence, or the same failure, since the
/// answer is a function of the text alone.
pub proof fn lemma_lex_deterministic(
    r1: Result<Vec<Token>, LexError>,
    r2: Result<Vec<Token>, LexError>,
    s: Seq<char>,
)
    requires
        lex_result_matches(r1, spec_lex(s)),
        lex_result_matches(r2, spec_lex(s)),
    ensures
        same_lex_outcome(r1, r2),
{
}

proof fn lemma_lex_tokens_wf(s: Seq<char>, i: int)
    ensures
        spec_lex_from(s, i) matches Ok(r) ==> r.len() >= 1 && r[r.len() - 1] == TokenModel::EOF
            && (forall|k: int| 0 <= k < r.len() - 1 ==> r[k] != TokenModel::EOF),
    decreases s.len() - i,
{
    if 0 <= i < s.len() {
        let c = s[i];
        lemma_num_run_bounds(s, i + 1);
        lemma_ident_run_bounds(s, i + 1);
        lemma_op_run_bounds(s, i + 1);
        lemma_comment_end_bounds(s, i + 1);
        lemma_scan_string_bounds(s, i + 1);
        if is_num_char(c) {
            assert(num_run_end(s, i) == num_run_end(s, i + 1));
        }
        if is_ident_char(c) {
            assert(ident_run_end(s, i) == ident_run_end(s, i + 1));
        }
        if is_op_char(c) {
            assert(op_run_end(s, i) == op_run_end(s, i + 1));
        }
        if c != '\n' {
            assert(comment_end(s, i) == comment_end(s, i + 1));
        }
        if is_num_start(c) {
            lemma_lex_tokens_wf(s, num_run_end(s, i));
        } else if is_ident_start(c) {
            let j0 = ident_run_end(s, i);
            let j = if j0 < i + 1 {
                i + 1
            } else {
                j0
            };
            lemma_lex_tokens_wf(s, j);
        } else if is_paren_char(c) || c == ',' || c == ';' {
            lemma_lex_tokens_wf(s, i + 1);
        } else if is_op_char(c) {
            lemma_lex_tokens_wf(s, op_run_end(s, i));
        } else if c == '"' {
            match spec_scan_string(s, i + 1) {
                Ok(p) => {
                    lemma_lex_tokens_wf(s, p.1);
                },
                Err(_) => {},
            }
        } else if is_ws(c) {
            lemma_lex_tokens_wf(s, i + 1);
        } else if c == '#' {
            lemma_lex_tokens_wf(s, comment_end(s, i));
        }
    }
}

/// A successful lex gives a non-empty token list that ends with the
/// end-of-input marker, and holds that marker nowhere else: the parser can
/// rely on exactly one such token, at the end.
pub proof fn lemma_lex_ends_with_eof(r: Result<Vec<Token>, LexError>, s: Seq<char>)
    requires
        lex_result_matches(r, spec_lex(s)),
    ensures
        r matches Ok(v) ==> toks_view(v@).len() >= 1 && toks_view(v@)[toks_view(v@).len() - 1]
            == TokenModel::EOF && (forall|k: int|
            0 <= k < toks_view(v@).len() - 1 ==> toks_view(v@)[k] != TokenModel::EOF),
{
    lemma_lex_tokens_wf(s, 0);
}

} // verus!
