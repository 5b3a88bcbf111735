//! Lexical analysis: turns a byte buffer of source text into a flat token
//! stream under a leftmost, greedy, fixed-priority rule alternation, with
//! whitespace as a discarded separator.
//!
//! The scanner recognises, at each position and in this order: the one-byte
//! operators `=` `+` `-`; identifier/keyword runs `(letter|_)(letter|digit|_)*`
//! with `let` reserved; decimal integer runs parsed as 64-bit signed values;
//! and the punctuation `;` `,` `.`. The byte classes of the rules are
//! disjoint, so the order never changes the outcome. Scanning stops cleanly
//! at the first byte no rule matches; the unconsumed remainder is reported so
//! a caller can diagnose it.

use vstd::prelude::*;

verus! {

// ---------------------------------------------------------------------------
// Byte classification
// ---------------------------------------------------------------------------

/// Whitespace bytes discarded between tokens: space, tab, newline, carriage
/// return.
pub open spec fn is_ws(b: u8) -> bool {
    b == 32 || b == 9 || b == 10 || b == 13
}

/// ASCII decimal digit.
pub open spec fn is_digit(b: u8) -> bool {
    48 <= b && b <= 57
}

/// ASCII letter.
pub open spec fn is_alpha(b: u8) -> bool {
    (65 <= b && b <= 90) || (97 <= b && b <= 122)
}

/// A byte that may begin an identifier: a letter or an underscore.
pub open spec fn is_ident_start(b: u8) -> bool {
    is_alpha(b) || b == 95
}

/// A byte that may continue an identifier: a letter, a digit or an
/// underscore.
pub open spec fn is_ident_cont(b: u8) -> bool {
    is_alpha(b) || is_digit(b) || b == 95
}

// ---------------------------------------------------------------------------
// Run ends: where a whitespace, identifier or digit run stops
// ---------------------------------------------------------------------------

/// First position at or after `i` holding a non-whitespace byte (or the end
/// of the buffer).
pub open spec fn ws_end(s: Seq<u8>, i: nat) -> nat
    decreases s.len() - i,
        when i <= s.len()
{
    if i < s.len() && is_ws(s[i as int]) {
        ws_end(s, i + 1)
    } else {
        i
    }
}

/// First position at or after `i` holding a byte that cannot continue an
/// identifier (or the end of the buffer).
pub open spec fn ident_end(s: Seq<u8>, i: nat) -> nat
    decreases s.len() - i,
        when i <= s.len()
{
    if i < s.len() && is_ident_cont(s[i as int]) {
        ident_end(s, i + 1)
    } else {
        i
    }
}

/// First position at or after `i` holding a non-digit byte (or the end of
/// the buffer).
pub open spec fn digit_end(s: Seq<u8>, i: nat) -> nat
    decreases s.len() - i,
        when i <= s.len()
{
    if i < s.len() && is_digit(s[i as int]) {
        digit_end(s, i + 1)
    } else {
        i
    }
}

/// The value of the decimal digit run `s[i .. j)`.
pub open spec fn digits_value(s: Seq<u8>, i: nat, j: nat) -> int
    decreases j - i,
        when i <= j <= s.len()
{
    if i < j {
        digits_value(s, i, (j - 1) as nat) * 10 + (s[j - 1] - 48)
    } else {
        0
    }
}

/// The bytes `s[i .. j)` as characters (all runs the lexer classifies are
/// ASCII, so the byte-to-character map is one to one).
pub open spec fn chars_of(s: Seq<u8>, i: int, j: int) -> Seq<char> {
    s.subrange(i, j).map_values(|b: u8| b as char)
}

/// Whether `s[i .. j)` spells the reserved word `let`.
pub open spec fn is_let_kw(s: Seq<u8>, i: nat, j: nat) -> bool {
    j == i + 3 && s[i as int] == 108 && s[i as int + 1] == 101 && s[i as int + 2] == 116
}

// ---------------------------------------------------------------------------
// Tokens and errors
// ---------------------------------------------------------------------------

/// An atomic lexical unit of the surface language.
///
/// `Equals` and `StringLiteal` are reserved for future rules and are never
/// produced by the current scanner; `EOF` is the sentinel the public entry
/// point appends, exactly once and always last.
#[derive(PartialEq, Debug, Clone)]
pub enum Tokens {
    LParen,
    RParen,
    Let,
    Assign,
    SemiColon,
    Plus,
    Minus,
    Equals,
    IntegerLiteral(i64),
    StringLiteal(String),
    Identifier(String),
    Comma,
    Dot,
    EOF,
}

/// Why a tokenization failed. The only failure the scanner can hit on a
/// complete in-memory buffer is a digit run whose value does not fit a
/// 64-bit signed integer: an unmatchable byte stops the scan cleanly
/// instead, with the remainder reported to the caller.
#[derive(PartialEq, Eq, Debug, Clone, Copy)]
pub enum LexError {
    NumericOverflow,
}

/// The mathematical shape of a token: text as a character sequence, the
/// integer value unbounded. `Tokens` views to this.
pub enum SpecToken {
    LParen,
    RParen,
    Let,
    Assign,
    SemiColon,
    Plus,
    Minus,
    Equals,
    IntegerLiteral(int),
    StringLiteal(Seq<char>),
    Identifier(Seq<char>),
    Comma,
    Dot,
    EOF,
}

impl View for Tokens {
    type V = SpecToken;

    open spec fn view(&self) -> SpecToken {
        match self {
            Tokens::LParen => SpecToken::LParen,
            Tokens::RParen => SpecToken::RParen,
            Tokens::Let => SpecToken::Let,
            Tokens::Assign => SpecToken::Assign,
            Tokens::SemiColon => SpecToken::SemiColon,
            Tokens::Plus => SpecToken::Plus,
            Tokens::Minus => SpecToken::Minus,
            Tokens::Equals => SpecToken::Equals,
            Tokens::IntegerLiteral(v) => SpecToken::IntegerLiteral(*v as int),
            Tokens::StringLiteal(t) => SpecToken::StringLiteal(t@),
            Tokens::Identifier(t) => SpecToken::Identifier(t@),
            Tokens::Comma => SpecToken::Comma,
            Tokens::Dot => SpecToken::Dot,
            Tokens::EOF => SpecToken::EOF,
        }
    }
}

/// The views of a sequence of executable tokens.
pub open spec fn toks_view(ts: Seq<Tokens>) -> Seq<SpecToken> {
    ts.map_values(|t: Tokens| t@)
}

// ---------------------------------------------------------------------------
// The scan, in specification form
// ---------------------------------------------------------------------------

/// What the rule alternation does at one scan position: produce a token and
/// the position after it, stop because no rule matches, or fail.
pub enum SpecStep {
    Tok(SpecToken, nat),
    Stop,
    Fail(LexError),
}

/// One step of the rule alternation at position `i` (a non-whitespace
/// position inside the buffer). Operators, identifiers/keywords, integers
/// and punctuation are tried in that order; their leading byte classes are
/// disjoint, so the order carries no ambiguity.
pub open spec fn step_at(s: Seq<u8>, i: nat) -> SpecStep
    recommends
        i < s.len(),
{
    let b = s[i as int];
    if b == 61 {  // '='
        SpecStep::Tok(SpecToken::Assign, i + 1)
    } else if b == 43 {  // '+'
        SpecStep::Tok(SpecToken::Plus, i + 1)
    } else if b == 45 {  // '-'
        SpecStep::Tok(SpecToken::Minus, i + 1)
    } else if is_ident_start(b) {
        let j = ident_end(s, i + 1);
        if is_let_kw(s, i, j) {
            SpecStep::Tok(SpecToken::Let, j)
        } else {
            SpecStep::Tok(SpecToken::Identifier(chars_of(s, i as int, j as int)), j)
        }
    } else if is_digit(b) {
        let j = digit_end(s, i);
        let v = digits_value(s, i, j);
        if v > i64::MAX {
            SpecStep::Fail(LexError::NumericOverflow)
        } else {
            SpecStep::Tok(SpecToken::IntegerLiteral(v), j)
        }
    } else if b == 59 {  // ';'
        SpecStep::Tok(SpecToken::SemiColon, i + 1)
    } else if b == 44 {  // ','
        SpecStep::Tok(SpecToken::Comma, i + 1)
    } else if b == 46 {  // '.'
        SpecStep::Tok(SpecToken::Dot, i + 1)
    } else {
        SpecStep::Stop
    }
}

/// Bounds of the run-end functions: they never move backwards and never
/// pass the end of the buffer.
pub proof fn lemma_run_end_bounds(s: Seq<u8>, i: nat)
    requires
        i <= s.len(),
    ensures
        i <= ws_end(s, i) <= s.len(),
        i <= ident_end(s, i) <= s.len(),
        i <= digit_end(s, i) <= s.len(),
    decreases s.len() - i,
{
    if i < s.len() {
        lemma_run_end_bounds(s, i + 1);
    }
}

/// A produced token always consumes at least one byte and stays inside the
/// buffer.
pub proof fn lemma_step_bounds(s: Seq<u8>, i: nat)
    requires
        i < s.len(),
    ensures
        step_at(s, i) matches SpecStep::Tok(_, k) ==> i < k <= s.len(),
{
    lemma_run_end_bounds(s, i + 1);
    lemma_run_end_bounds(s, i);
}

/// The token sequence and remainder position that scanning yields from
/// position `i` on: skip whitespace, stop cleanly at the buffer's end or at
/// a byte no rule matches, otherwise take one token and continue after it.
pub open spec fn lex_from(s: Seq<u8>, i: nat) -> Result<(Seq<SpecToken>, nat), LexError>
    decreases s.len() - i,
        when i <= s.len()
        via lex_from_dec
{
    let j = ws_end(s, i);
    if j >= s.len() {
        Ok((Seq::empty(), j))
    } else {
        match step_at(s, j) {
            SpecStep::Stop => Ok((Seq::empty(), j)),
            SpecStep::Fail(e) => Err(e),
            SpecStep::Tok(t, k) => match lex_from(s, k) {
                Ok((rest, r)) => Ok((seq![t] + rest, r)),
                Err(e) => Err(e),
            },
        }
    }
}

#[via_fn]
proof fn lex_from_dec(s: Seq<u8>, i: nat) {
    lemma_run_end_bounds(s, i);
    let j = ws_end(s, i);
    if j < s.len() {
        lemma_step_bounds(s, j);
    }
}

/// The whole scan: the token sequence (without the `EOF` sentinel) and the
/// position of the unconsumed remainder, or the classified failure.
pub open spec fn spec_lex(s: Seq<u8>) -> Result<(Seq<SpecToken>, nat), LexError> {
    lex_from(s, 0)
}

// ---------------------------------------------------------------------------
// The scan, executable
// ---------------------------------------------------------------------------

/// Advance past the whitespace run starting at `i`.
fn skip_ws(input: &[u8], i: usize) -> (r: usize)
    requires
        i <= input@.len(),
    ensures
        r == ws_end(input@, i as nat),
        i <= r <= input@.len(),
    decreases input@.len() - i,
{
    proof {
        lemma_run_end_bounds(input@, i as nat);
    }
    if i < input.len() {
        let b = input[i];
        if b == 32 || b == 9 || b == 10 || b == 13 {
            return skip_ws(input, i + 1);
        }
    }
    i
}

/// The operator rule: `=`, `+` or `-` at position `i`, one byte each.
fn lex_operator(input: &[u8], i: usize) -> (r: Option<(Tokens, usize)>)
    requires
        i < input@.len(),
    ensures
        match r {
            Some((t, k)) => step_at(input@, i as nat) == SpecStep::Tok(t@, k as nat),
            None => !(input@[i as int] == 61 || input@[i as int] == 43 || input@[i as int]
                == 45),
        },
{
    let b = input[i];
    if b == 61 {
        Some((Tokens::Assign, i + 1))
    } else if b == 43 {
        Some((Tokens::Plus, i + 1))
    } else if b == 45 {
        Some((Tokens::Minus, i + 1))
    } else {
        None
    }
}

/// The punctuation rule: `;`, `,` or `.` at position `i`, one byte each.
/// Its byte class is disjoint from every other rule's, so trying it last
/// changes nothing.
fn lex_punctuations(input: &[u8], i: usize) -> (r: Option<(Tokens, usize)>)
    requires
        i < input@.len(),
        !(input@[i as int] == 61 || input@[i as int] == 43 || input@[i as int] == 45),
        !is_ident_start(input@[i as int]),
        !is_digit(input@[i as int]),
    ensures
        match r {
            Some((t, k)) => step_at(input@, i as nat) == SpecStep::Tok(t@, k as nat),
            None => step_at(input@, i as nat) is Stop,
        },
{
    let b = input[i];
    if b == 59 {
        Some((Tokens::SemiColon, i + 1))
    } else if b == 44 {
        Some((Tokens::Comma, i + 1))
    } else if b == 46 {
        Some((Tokens::Dot, i + 1))
    } else {
        None
    }
}

/// Relies on `String::push` of std, which vstd leaves unspecified: it
/// appends the given character to the end of the string, so the view grows
/// by exactly that character.
pub assume_specification[ String::push ](s: &mut String, ch: char)
    ensures
        final(s)@ == old(s)@.push(ch),
;

/// Executable mirror of `is_digit`.
fn byte_is_digit(b: u8) -> (r: bool)
    ensures
        r == is_digit(b),
{
    48 <= b && b <= 57
}

/// Executable mirror of `is_ident_start`.
fn byte_is_ident_start(b: u8) -> (r: bool)
    ensures
        r == is_ident_start(b),
{
    (65 <= b && b <= 90) || (97 <= b && b <= 122) || b == 95
}

/// Executable mirror of `is_ident_cont`.
fn byte_is_ident_cont(b: u8) -> (r: bool)
    ensures
        r == is_ident_cont(b),
{
    (65 <= b && b <= 90) || (97 <= b && b <= 122) || (48 <= b && b <= 57) || b == 95
}

/// Every byte of the digit run starting at `i` is a digit, and the run is
/// maximal: its end is the buffer's end or a non-digit.
pub proof fn lemma_digit_run(s: Seq<u8>, i: nat)
    requires
        i <= s.len(),
    ensures
        forall|m: int| i <= m < digit_end(s, i) ==> is_digit(s[m]),
        digit_end(s, i) == s.len() || !is_digit(s[digit_end(s, i) as int]),
    decreases s.len() - i,
{
    lemma_run_end_bounds(s, i);
    if i < s.len() && is_digit(s[i as int]) {
        lemma_digit_run(s, i + 1);
    }
}

/// Every byte of the identifier run starting at `i` may continue an
/// identifier, and the run is maximal.
pub proof fn lemma_ident_run(s: Seq<u8>, i: nat)
    requires
        i <= s.len(),
    ensures
        forall|m: int| i <= m < ident_end(s, i) ==> is_ident_cont(s[m]),
        ident_end(s, i) == s.len() || !is_ident_cont(s[ident_end(s, i) as int]),
    decreases s.len() - i,
{
    lemma_run_end_bounds(s, i);
    if i < s.len() && is_ident_cont(s[i as int]) {
        lemma_ident_run(s, i + 1);
    }
}

/// Every byte skipped as whitespace is whitespace, and the skip is maximal.
pub proof fn lemma_ws_run(s: Seq<u8>, i: nat)
    requires
        i <= s.len(),
    ensures
        forall|m: int| i <= m < ws_end(s, i) ==> is_ws(s[m]),
        ws_end(s, i) == s.len() || !is_ws(s[ws_end(s, i) as int]),
    decreases s.len() - i,
{
    lemma_run_end_bounds(s, i);
    if i < s.len() && is_ws(s[i as int]) {
        lemma_ws_run(s, i + 1);
    }
}

/// The value of a digit run is never negative.
pub proof fn lemma_digits_value_nonneg(s: Seq<u8>, i: nat, j: nat)
    requires
        i <= j <= s.len(),
        forall|m: int| i <= m < j ==> is_digit(s[m]),
    ensures
        0 <= digits_value(s, i, j),
    decreases j - i,
{
    if i < j {
        lemma_digits_value_nonneg(s, i, (j - 1) as nat);
    }
}

/// Extending a digit run never shrinks its value: each further digit
/// multiplies the value by ten before adding. So once a prefix of a run
/// overflows, the whole run does.
pub proof fn lemma_digits_value_mono(s: Seq<u8>, i: nat, k: nat, j: nat)
    requires
        i <= k <= j <= s.len(),
        forall|m: int| i <= m < j ==> is_digit(s[m]),
    ensures
        digits_value(s, i, k) <= digits_value(s, i, j),
    decreases j - k,
{
    if k < j {
        lemma_digits_value_nonneg(s, i, (j - 1) as nat);
        lemma_digits_value_mono(s, i, k, (j - 1) as nat);
    }
}

/// The identifier/keyword rule at position `i` (whose byte starts an
/// identifier): take the maximal identifier run, then classify it; the
/// reserved word `let` alone becomes the keyword token, everything else
/// carries its text.
fn lex_ident(input: &[u8], i: usize) -> (r: (Tokens, usize))
    requires
        i < input@.len(),
        is_ident_start(input@[i as int]),
    ensures
        step_at(input@, i as nat) == SpecStep::Tok(r.0@, r.1 as nat),
{
    let ghost s = input@;
    let n = input.len();
    let mut j = i + 1;
    proof {
        lemma_run_end_bounds(s, j as nat);
    }
    while j < n && byte_is_ident_cont(input[j])
        invariant
            i + 1 <= j <= input@.len(),
            s == input@,
            n == input@.len(),
            ident_end(s, (i + 1) as nat) == ident_end(s, j as nat),
        decreases input@.len() - j,
    {
        j += 1;
    }
    proof {
        assert(ident_end(s, (i + 1) as nat) == j);
    }
    if j - i == 3 && input[i] == 108 && input[i + 1] == 101 && input[i + 2] == 116 {
        (Tokens::Let, j)
    } else {
        let mut text = String::new();
        let mut k = i;
        while k < j
            invariant
                i <= k <= j <= input@.len(),
                s == input@,
                text@ == chars_of(s, i as int, k as int),
            decreases j - k,
        {
            let b = input[k];
            text.push(b as char);
            proof {
                assert(chars_of(s, i as int, (k + 1) as int) =~= chars_of(
                    s,
                    i as int,
                    k as int,
                ).push(s[k as int] as char));
            }
            k += 1;
        }
        (Tokens::Identifier(text), j)
    }
}

/// The integer rule at position `i` (whose byte is a digit): take the
/// maximal digit run and parse it as a 64-bit signed value; a run whose
/// value does not fit fails with the numeric-overflow classification rather
/// than truncating or wrapping.
fn lex_integer(input: &[u8], i: usize) -> (r: Result<(Tokens, usize), LexError>)
    requires
        i < input@.len(),
        is_digit(input@[i as int]),
    ensures
        match r {
            Ok((t, k)) => step_at(input@, i as nat) == SpecStep::Tok(t@, k as nat),
            Err(e) => step_at(input@, i as nat) == SpecStep::Fail(e),
        },
{
    let ghost s = input@;
    let mut val: i64 = 0;
    let mut k = i;
    while k < input.len() && byte_is_digit(input[k])
        invariant
            i <= k <= input@.len(),
            s == input@,
            forall|m: int| i <= m < k ==> is_digit(s[m]),
            val == digits_value(s, i as nat, k as nat),
            0 <= val,
            digit_end(s, i as nat) == digit_end(s, k as nat),
        decreases input@.len() - k,
    {
        let d = input[k] - 48;
        if val > (i64::MAX - d as i64) / 10 {
            proof {
                let e = digit_end(s, i as nat);
                lemma_run_end_bounds(s, (k + 1) as nat);
                lemma_digit_run(s, i as nat);
                assert(digits_value(s, i as nat, (k + 1) as nat) > i64::MAX);
                lemma_digits_value_mono(s, i as nat, (k + 1) as nat, e);
            }
            return Err(LexError::NumericOverflow);
        }
        val = val * 10 + d as i64;
        k += 1;
    }
    proof {
        assert(digit_end(s, k as nat) == k);
    }
    Ok((Tokens::IntegerLiteral(val), k))
}

/// The rule alternation at position `i`: operator, identifier/keyword,
/// integer, punctuation, in that order.
fn lex_token(input: &[u8], i: usize) -> (r: Result<Option<(Tokens, usize)>, LexError>)
    requires
        i < input@.len(),
    ensures
        match r {
            Ok(Some((t, k))) => step_at(input@, i as nat) == SpecStep::Tok(t@, k as nat),
            Ok(None) => step_at(input@, i as nat) is Stop,
            Err(e) => step_at(input@, i as nat) == SpecStep::Fail(e),
        },
{
    if let Some(tk) = lex_operator(input, i) {
        Ok(Some(tk))
    } else if byte_is_ident_start(input[i]) {
        Ok(Some(lex_ident(input, i)))
    } else if byte_is_digit(input[i]) {
        match lex_integer(input, i) {
            Ok(tk) => Ok(Some(tk)),
            Err(e) => Err(e),
        }
    } else {
        Ok(lex_punctuations(input, i))
    }
}

/// The whole scan, without the sentinel: skip whitespace, take tokens while
/// a rule matches, and report the position of the first unconsumed byte.
///
/// On success the tokens are exactly those of `spec_lex` and the remainder
/// position is its; the scan fails exactly where `spec_lex` does, with the
/// same classification.
pub fn lex_tokens(input: &[u8]) -> (r: Result<(usize, Vec<Tokens>), LexError>)
    ensures
        match spec_lex(input@) {
            Ok((toks, rest)) => r matches Ok((rr, tv)) && rr == rest && toks_view(tv@)
                == toks,
            Err(e) => r == Err::<(usize, Vec<Tokens>), LexError>(e),
        },
{
    let ghost s = input@;
    let mut acc: Vec<Tokens> = Vec::new();
    let mut pos: usize = 0;
    loop
        invariant
            pos <= input@.len(),
            s == input@,
            match lex_from(s, pos as nat) {
                Ok((toks, rest)) => lex_from(s, 0) == Ok::<_, LexError>((
                    toks_view(acc@) + toks,
                    rest,
                )),
                Err(e) => lex_from(s, 0) == Err::<(Seq<SpecToken>, nat), _>(e),
            },
        decreases input@.len() - pos,
    {
        let j = skip_ws(input, pos);
        if j >= input.len() {
            proof {
                assert(toks_view(acc@) + Seq::<SpecToken>::empty() =~= toks_view(acc@));
            }
            return Ok((j, acc));
        }
        proof {
            lemma_step_bounds(s, j as nat);
        }
        match lex_token(input, j) {
            Ok(Some((t, k))) => {
                proof {
                    let rest_r = lex_from(s, k as nat);
                    if rest_r is Ok {
                        assert(toks_view(acc@.push(t)) =~= toks_view(acc@) + seq![t@]);
                        assert(toks_view(acc@) + (seq![t@] + rest_r->Ok_0.0) =~= toks_view(
                            acc@.push(t),
                        ) + rest_r->Ok_0.0);
                    }
                }
                acc.push(t);
                pos = k;
            },
            Ok(None) => {
                proof {
                    assert(toks_view(acc@) + Seq::<SpecToken>::empty() =~= toks_view(acc@));
                }
                return Ok((j, acc));
            },
            Err(e) => {
                return Err(e);
            },
        }
    }
}

/// The lexical analyzer's public face.
pub struct Lexer;

impl Lexer {
    /// Tokenize a byte buffer: the scan of `lex_tokens` with the `EOF`
    /// sentinel appended. On success the result holds the position of the
    /// first unconsumed byte and the token sequence, which ends in exactly
    /// one `EOF` with `EOF` nowhere else.
    pub fn lex_tokens(bytes: &[u8]) -> (r: Result<(usize, Vec<Tokens>), LexError>)
        ensures
            match spec_lex(bytes@) {
                Ok((toks, rest)) => r matches Ok((rr, tv)) && rr == rest && toks_view(tv@)
                    == toks.push(SpecToken::EOF),
                Err(e) => r == Err::<(usize, Vec<Tokens>), LexError>(e),
            },
            r matches Ok((rr, tv)) ==> tv@.len() >= 1 && tv@.last()@ == SpecToken::EOF
                && (forall|m: int| 0 <= m < tv@.len() - 1 ==> tv@[m]@ != SpecToken::EOF),
    {
        match lex_tokens(bytes) {
            Ok((rest, mut toks)) => {
                let ghost t0 = toks@;
                proof {
                    lemma_lex_from_no_eof(bytes@, 0);
                    assert(toks_view(t0.push(Tokens::EOF)) =~= toks_view(t0).push(
                        SpecToken::EOF,
                    ));
                }
                toks.push(Tokens::EOF);
                proof {
                    assert forall|m: int| 0 <= m < toks@.len() - 1 implies toks@[m]@
                        != SpecToken::EOF by {
                        assert(toks@[m] == t0[m]);
                        assert(t0[m]@ == toks_view(t0)[m]);
                    }
                }
                Ok((rest, toks))
            },
            Err(e) => Err(e),
        }
    }
}

/// The scan itself never produces the sentinel: `EOF` enters the stream
/// only when the public entry point appends it, so it is always exactly one
/// and always last.
pub proof fn lemma_lex_from_no_eof(s: Seq<u8>, i: nat)
    requires
        i <= s.len(),
    ensures
        lex_from(s, i) matches Ok((toks, _)) ==> forall|m: int|
            0 <= m < toks.len() ==> toks[m] != SpecToken::EOF,
    decreases s.len() - i,
{
    lemma_run_end_bounds(s, i);
    let j = ws_end(s, i);
    if j < s.len() {
        lemma_step_bounds(s, j);
        if let SpecStep::Tok(t, k) = step_at(s, j) {
            lemma_lex_from_no_eof(s, k);
        }
    }
}

// ---------------------------------------------------------------------------
// Laws of the scan
// ---------------------------------------------------------------------------

/// Skipping whitespace from `i` reaches the buffer's end when every byte
/// from `i` on is whitespace.
proof fn lemma_ws_end_all(s: Seq<u8>, i: nat)
    requires
        i <= s.len(),
        forall|m: int| i <= m < s.len() ==> is_ws(s[m]),
    ensures
        ws_end(s, i) == s.len(),
    decreases s.len() - i,
{
    if i < s.len() {
        lemma_ws_end_all(s, i + 1);
    }
}

/// A buffer of whitespace alone scans to no tokens at all, with everything
/// consumed: the stream the public entry point returns for it holds only
/// the `EOF` sentinel.
pub proof fn lemma_whitespace_only(s: Seq<u8>)
    requires
        forall|m: int| 0 <= m < s.len() ==> is_ws(s[m]),
    ensures
        spec_lex(s) == Ok::<_, LexError>((Seq::<SpecToken>::empty(), s.len())),
{
    lemma_ws_end_all(s, 0);
}

/// Keyword classification: an identifier-shaped run is the `Let` token
/// exactly when its text is `let`; any other text — one character off, a
/// different case, one letter more — stays an `Identifier` carrying that
/// text.
pub proof fn lemma_let_keyword(s: Seq<u8>, i: nat)
    requires
        i < s.len(),
        is_ident_start(s[i as int]),
    ensures
        ({
            let j = ident_end(s, i + 1);
            let text = chars_of(s, i as int, j as int);
            &&& (step_at(s, i) == SpecStep::Tok(SpecToken::Let, j) <==> text == "let"@)
            &&& (text != "let"@ ==> step_at(s, i) == SpecStep::Tok(
                SpecToken::Identifier(text),
                j,
            ))
        }),
{
    reveal_strlit("let");
    let j = ident_end(s, i + 1);
    let text = chars_of(s, i as int, j as int);
    lemma_run_end_bounds(s, i + 1);
    if is_let_kw(s, i, j) {
        assert(text =~= "let"@);
    }
    if text == "let"@ {
        assert("let"@.len() == 3);
        assert(text.len() == j - i);
        assert(j == i + 3);
        assert(text[0] == s[i as int] as char);
        assert(text[1] == s[i as int + 1] as char);
        assert(text[2] == s[i as int + 2] as char);
        assert('l' as int == 108 && 'e' as int == 101 && 't' as int == 116);
        assert(s[i as int] as char as int == s[i as int] as int);
        assert(s[i as int + 1] as char as int == s[i as int + 1] as int);
        assert(s[i as int + 2] as char as int == s[i as int + 2] as int);
        assert(s[i as int] == 108 && s[i as int + 1] == 101 && s[i as int + 2] == 116);
    }
}

/// A digit run whose value exceeds the 64-bit signed range makes the whole
/// scan fail, classified as numeric overflow — never a truncated or
/// wrapped token.
pub proof fn lemma_numeric_overflow(s: Seq<u8>, i: nat)
    requires
        i <= s.len(),
        ws_end(s, i) < s.len(),
        is_digit(s[ws_end(s, i) as int]),
        digits_value(s, ws_end(s, i), digit_end(s, ws_end(s, i))) > i64::MAX,
    ensures
        lex_from(s, i) == Err::<(Seq<SpecToken>, nat), _>(LexError::NumericOverflow),
{
}

/// Numeric overflow is the only way a scan of a complete buffer can fail:
/// an unmatchable byte stops it cleanly instead.
pub proof fn lemma_err_is_overflow(s: Seq<u8>, i: nat)
    requires
        i <= s.len(),
    ensures
        lex_from(s, i) matches Err(e) ==> e == LexError::NumericOverflow,
    decreases s.len() - i,
{
    lemma_run_end_bounds(s, i);
    let j = ws_end(s, i);
    if j < s.len() {
        lemma_step_bounds(s, j);
        if let SpecStep::Tok(t, k) = step_at(s, j) {
            lemma_err_is_overflow(s, k);
        }
    }
}

// ---------------------------------------------------------------------------
// Text reproduction: tokens spell the input back, whitespace removed
// ---------------------------------------------------------------------------

/// The character of one decimal digit value.
pub open spec fn digit_char(d: int) -> char
    recommends
        0 <= d < 10,
{
    (48 + d) as char
}

/// The decimal spelling of a non-negative integer, most significant digit
/// first, no leading zeros (`0` spells as `0`).
pub open spec fn dec_render(v: int) -> Seq<char>
    decreases v,
        when v >= 0
        via dec_render_dec
{
    if v < 10 {
        seq![digit_char(v)]
    } else {
        dec_render(v / 10) + seq![digit_char(v % 10)]
    }
}

#[via_fn]
proof fn dec_render_dec(v: int) {
    if v >= 10 {
        vstd::arithmetic::div_mod::lemma_div_is_strictly_smaller(v, 10);
        vstd::arithmetic::div_mod::lemma_div_pos_is_pos(v, 10);
    }
}

/// The literal text reconstructible from a token, where applicable: the
/// sentinel and the reserved, unproduced variants have none.
pub open spec fn render_token(t: SpecToken) -> Seq<char> {
    match t {
        SpecToken::LParen => seq!['('],
        SpecToken::RParen => seq![')'],
        SpecToken::Let => seq!['l', 'e', 't'],
        SpecToken::Assign => seq!['='],
        SpecToken::SemiColon => seq![';'],
        SpecToken::Plus => seq!['+'],
        SpecToken::Minus => seq!['-'],
        SpecToken::Equals => Seq::empty(),
        SpecToken::IntegerLiteral(v) => dec_render(v),
        SpecToken::StringLiteal(_) => Seq::empty(),
        SpecToken::Identifier(text) => text,
        SpecToken::Comma => seq![','],
        SpecToken::Dot => seq!['.'],
        SpecToken::EOF => Seq::empty(),
    }
}

/// The texts of a token sequence, concatenated in order.
pub open spec fn render_tokens(ts: Seq<SpecToken>) -> Seq<char>
    decreases ts.len(),
{
    if ts.len() == 0 {
        Seq::empty()
    } else {
        render_token(ts[0]) + render_tokens(ts.drop_first())
    }
}

/// The whitespace-collapsed form of the buffer from position `i` on: its
/// bytes as characters, in order, with every whitespace byte removed.
pub open spec fn collapsed_from(s: Seq<u8>, i: nat) -> Seq<char>
    decreases s.len() - i,
        when i <= s.len()
{
    if i >= s.len() {
        Seq::empty()
    } else if is_ws(s[i as int]) {
        collapsed_from(s, i + 1)
    } else {
        seq![s[i as int] as char] + collapsed_from(s, i + 1)
    }
}

/// No multi-digit run that the scanner would read as an integer starts
/// with a zero. (A zero inside an identifier, as in `x01`, is exempt: its
/// predecessor continues an identifier.) Reconstructing the text of an
/// integer token can only spell such runs back: the token keeps the run's
/// value, not its leading zeros.
pub open spec fn no_leading_zeros(s: Seq<u8>) -> bool {
    forall|m: int|
        0 <= m < s.len() && #[trigger] s[m] == 48 && (m == 0 || !is_ident_cont(s[m - 1]))
            ==> (m + 1 == s.len() || !is_digit(s[m + 1]))
}

/// Collapsing skips exactly the whitespace run.
proof fn lemma_collapsed_ws(s: Seq<u8>, i: nat)
    requires
        i <= s.len(),
    ensures
        collapsed_from(s, i) == collapsed_from(s, ws_end(s, i)),
    decreases s.len() - i,
{
    if i < s.len() && is_ws(s[i as int]) {
        lemma_collapsed_ws(s, i + 1);
    }
}

/// Collapsing over a whitespace-free stretch keeps its characters whole.
proof fn lemma_collapsed_solid(s: Seq<u8>, j: nat, k: nat)
    requires
        j <= k <= s.len(),
        forall|m: int| j <= m < k ==> !is_ws(s[m]),
    ensures
        collapsed_from(s, j) == chars_of(s, j as int, k as int) + collapsed_from(s, k),
    decreases k - j,
{
    if j < k {
        lemma_collapsed_solid(s, j + 1, k);
        assert(chars_of(s, j as int, k as int) =~= seq![s[j as int] as char] + chars_of(
            s,
            j as int + 1,
            k as int,
        ));
        assert(collapsed_from(s, j) =~= chars_of(s, j as int, k as int) + collapsed_from(
            s,
            k,
        ));
    } else {
        assert(chars_of(s, j as int, k as int) =~= Seq::<char>::empty());
        assert(collapsed_from(s, j) =~= chars_of(s, j as int, k as int) + collapsed_from(
            s,
            k,
        ));
    }
}

/// A digit run of value at least one keeps that property as it extends.
proof fn lemma_digits_value_pos(s: Seq<u8>, i: nat, j: nat)
    requires
        i < j <= s.len(),
        forall|m: int| i <= m < j ==> is_digit(s[m]),
        s[i as int] != 48,
    ensures
        digits_value(s, i, j) >= 1,
{
    assert(digits_value(s, i, i) == 0);
    assert(digits_value(s, i, i + 1) == s[i as int] - 48);
    lemma_digits_value_mono(s, i, i + 1, j);
}

/// Spelling the value of a digit run back in decimal reproduces the run,
/// provided the run does not hide leading zeros.
proof fn lemma_dec_render_digits(s: Seq<u8>, i: nat, j: nat)
    requires
        i < j <= s.len(),
        forall|m: int| i <= m < j ==> is_digit(s[m]),
        s[i as int] != 48 || j == i + 1,
    ensures
        dec_render(digits_value(s, i, j)) == chars_of(s, i as int, j as int),
    decreases j - i,
{
    lemma_digits_value_nonneg(s, i, j);
    if j == i + 1 {
        let v = digits_value(s, i, j);
        assert(digits_value(s, i, i) == 0);
        assert(v == s[i as int] - 48);
        assert(digit_char(v) == s[i as int] as char);
        assert(dec_render(v) =~= chars_of(s, i as int, j as int));
    } else {
        let vp = digits_value(s, i, (j - 1) as nat);
        let d = s[j - 1] - 48;
        let v = digits_value(s, i, j);
        assert(v == vp * 10 + d);
        lemma_digits_value_pos(s, i, (j - 1) as nat);
        assert(v >= 10) by {
            assert(vp >= 1);
            assert(vp * 10 >= 10) by (nonlinear_arith)
                requires
                    vp >= 1,
            ;
        }
        vstd::arithmetic::div_mod::lemma_fundamental_div_mod_converse(v, 10, vp, d as int);
        lemma_dec_render_digits(s, i, (j - 1) as nat);
        assert(digit_char(d as int) == s[j - 1] as char);
        assert(chars_of(s, i as int, j as int) =~= chars_of(s, i as int, j as int - 1)
            + seq![s[j - 1] as char]);
    }
}

/// The induction behind text reproduction: from any scan position that sits
/// on a token boundary, rendering the remaining tokens yields the collapsed
/// remaining input.
proof fn lemma_reproduce_from(s: Seq<u8>, i: nat)
    requires
        i <= s.len(),
        no_leading_zeros(s),
        i == 0 || !is_ident_cont(s[i - 1]) || i == s.len() || !is_digit(s[i as int]),
        lex_from(s, i) is Ok,
        lex_from(s, i)->Ok_0.1 == s.len(),
    ensures
        render_tokens(lex_from(s, i)->Ok_0.0) == collapsed_from(s, i),
    decreases s.len() - i,
{
    lemma_run_end_bounds(s, i);
    lemma_ws_run(s, i);
    lemma_collapsed_ws(s, i);
    let j = ws_end(s, i);
    if j >= s.len() {
        assert(render_tokens(Seq::empty()) =~= collapsed_from(s, j));
    } else {
        lemma_step_bounds(s, j);
        match step_at(s, j) {
            SpecStep::Stop => {
                // the remainder would stay unconsumed, against the premise
                assert(false);
            },
            SpecStep::Fail(_) => {
                assert(false);
            },
            SpecStep::Tok(t, k) => {
                let rest = lex_from(s, k)->Ok_0.0;
                let toks = lex_from(s, i)->Ok_0.0;
                assert(toks == seq![t] + rest);
                assert(toks[0] == t);
                assert(toks.drop_first() =~= rest);
                let b = s[j as int];
                // the token's bytes are whitespace-free and spell its text
                if b == 61 || b == 43 || b == 45 || b == 59 || b == 44 || b == 46 {
                    assert(k == j + 1);
                    assert(render_token(t) =~= chars_of(s, j as int, k as int));
                    lemma_collapsed_solid(s, j, k);
                    lemma_reproduce_from(s, k);
                } else if is_ident_start(b) {
                    lemma_ident_run(s, j + 1);
                    assert(forall|m: int| j <= m < k ==> !is_ws(s[m]));
                    if is_let_kw(s, j, k) {
                        assert(render_token(t) =~= chars_of(s, j as int, k as int));
                    } else {
                        assert(render_token(t) == chars_of(s, j as int, k as int));
                    }
                    lemma_collapsed_solid(s, j, k);
                    lemma_reproduce_from(s, k);
                } else {
                    assert(is_digit(b));
                    lemma_digit_run(s, j);
                    assert(k == digit_end(s, j));
                    // the boundary premise turns the global no-leading-zero
                    // condition into one on this very run
                    if s[j as int] == 48 {
                        if j > i {
                            assert(is_ws(s[j - 1]));
                        }
                        assert(j == 0 || !is_ident_cont(s[j - 1]));
                        assert(j + 1 == s.len() || !is_digit(s[j as int + 1]));
                        assert(k == j + 1);
                    }
                    lemma_dec_render_digits(s, j, k);
                    assert(forall|m: int| j <= m < k ==> !is_ws(s[m]));
                    lemma_collapsed_solid(s, j, k);
                    lemma_reproduce_from(s, k);
                }
            },
        }
    }
}

/// Text reproduction: for an input consisting solely of valid tokens
/// separated by whitespace — the scan succeeds and consumes everything —
/// concatenating the literal text reconstructible from each token gives
/// back the whitespace-collapsed input. Multi-digit runs starting with a
/// zero are left out: an integer token keeps a run's value, which cannot
/// spell leading zeros back.
pub proof fn lemma_text_reproduction(s: Seq<u8>)
    requires
        spec_lex(s) is Ok,
        spec_lex(s)->Ok_0.1 == s.len(),
        no_leading_zeros(s),
    ensures
        render_tokens(spec_lex(s)->Ok_0.0) == collapsed_from(s, 0),
{
    lemma_reproduce_from(s, 0);
}

} // verus!
