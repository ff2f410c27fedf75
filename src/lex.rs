//! The tokenizer: characters in, tokens out, one token at a time.
use vstd::prelude::*;

use crate::error::ParseError;

verus! {

/// A floating literal as written: `mantissa / 10^scale`, where `mantissa` is
/// the literal's digits read as one integer and `scale` the number of digits
/// after the decimal point.
#[derive(Clone, Copy, Debug, PartialEq, Eq, Structural)]
pub struct Decimal {
    pub mantissa: u64,
    pub scale: usize,
}

/// A lexical unit of an arithmetic expression.
#[derive(Clone, Copy, Debug, PartialEq, Eq, Structural)]
pub enum Token {
    /// A single-character operator: one of `+ - * / ^ %`.
    Op(char),
    /// An integer literal.
    Int(i64),
    /// A floating literal.
    Float(Decimal),
    OpenParen,
    CloseParen,
    /// The keyword operator `mod`.
    Modulus,
    /// The keyword `of`, as in `12% of 55`.
    Of,
    /// The end of the input.
    End,
    /// Text that no token describes.
    Invalid,
}

/// The operators of the calculator, by name.
#[derive(Clone, Copy, Debug, PartialEq, Eq, Structural)]
pub enum Op {
    Add,
    Sub,
    Mul,
    Div,
    Exp,
    Mod,
    Fac,
    Percent,
    Not,
    Invalid,
}

/// The operator that a character names.
pub open spec fn op_of_char(c: char) -> Op {
    if c == '+' {
        Op::Add
    } else if c == '-' {
        Op::Sub
    } else if c == '*' {
        Op::Mul
    } else if c == '/' {
        Op::Div
    } else if c == '^' {
        Op::Exp
    } else if c == '~' {
        Op::Not
    } else if c == 'm' {
        Op::Mod
    } else if c == '!' {
        Op::Fac
    } else {
        Op::Invalid
    }
}

/// The operator named by `c`: `m` stands for `mod`; `%` and unknown
/// characters give `Op::Invalid`.
pub fn get_op(c: char) -> (r: Op)
    ensures
        r == op_of_char(c),
{
    match c {
        '+' => Op::Add,
        '-' => Op::Sub,
        '*' => Op::Mul,
        '/' => Op::Div,
        '^' => Op::Exp,
        '~' => Op::Not,
        'm' => Op::Mod,
        '!' => Op::Fac,
        _ => Op::Invalid,
    }
}

impl Op {
    /// The character that stands for an operator.
    pub open spec fn spec_char(self) -> char {
        match self {
            Op::Add => '+',
            Op::Sub => '-',
            Op::Mul => '*',
            Op::Div => '/',
            Op::Exp => '^',
            Op::Mod => 'm',
            Op::Not => '~',
            Op::Fac => '!',
            Op::Percent => '%',
            Op::Invalid => '0',
        }
    }

    /// The text of an operator as it is written in an expression.
    pub open spec fn spec_text(self) -> Seq<char> {
        match self {
            Op::Add => "+"@,
            Op::Sub => "-"@,
            Op::Mul => "*"@,
            Op::Div => "/"@,
            Op::Exp => "^"@,
            Op::Mod => "mod"@,
            Op::Not => "~"@,
            Op::Fac => "!"@,
            Op::Percent => "%"@,
            Op::Invalid => "<invalid>"@,
        }
    }

    pub fn as_char(&self) -> (r: char)
        ensures
            r == self.spec_char(),
    {
        match self {
            Op::Add => '+',
            Op::Sub => '-',
            Op::Mul => '*',
            Op::Div => '/',
            Op::Exp => '^',
            Op::Mod => 'm',
            Op::Not => '~',
            Op::Fac => '!',
            Op::Percent => '%',
            Op::Invalid => '0',
        }
    }

    pub fn as_str(&self) -> (r: &'static str)
        ensures
            r@ == self.spec_text(),
    {
        match self {
            Op::Add => "+",
            Op::Sub => "-",
            Op::Mul => "*",
            Op::Div => "/",
            Op::Exp => "^",
            Op::Mod => "mod",
            Op::Not => "~",
            Op::Fac => "!",
            Op::Percent => "%",
            Op::Invalid => "<invalid>",
        }
    }

    /// The binding power shared by all operators: the grammar's tiers, not
    /// this number, decide precedence.
    pub fn presidence() -> (r: i8)
        ensures
            r == 0,
    {
        0
    }
}

/// Whitespace between tokens: space, tab and newline.
pub open spec fn is_space(c: char) -> bool {
    c == ' ' || c == '\t' || c == '\n'
}

pub open spec fn is_digit(c: char) -> bool {
    '0' <= c <= '9'
}

/// A character of a numeric literal: a decimal digit or the decimal point.
pub open spec fn is_num_char(c: char) -> bool {
    is_digit(c) || c == '.'
}

/// A character of a keyword: a lower-case ASCII letter.
pub open spec fn is_letter(c: char) -> bool {
    'a' <= c <= 'z'
}

/// The first position at or after `p` that does not hold whitespace.
pub open spec fn skip_spaces(s: Seq<char>, p: int) -> int
    decreases s.len() - p,
{
    if 0 <= p < s.len() && is_space(s[p]) {
        skip_spaces(s, p + 1)
    } else {
        p
    }
}

/// The end of the run of numeric characters that starts at `p`.
pub open spec fn num_end(s: Seq<char>, p: int) -> int
    decreases s.len() - p,
{
    if 0 <= p < s.len() && is_num_char(s[p]) {
        num_end(s, p + 1)
    } else {
        p
    }
}

/// The end of the run of letters that starts at `p`.
pub open spec fn word_end(s: Seq<char>, p: int) -> int
    decreases s.len() - p,
{
    if 0 <= p < s.len() && is_letter(s[p]) {
        word_end(s, p + 1)
    } else {
        p
    }
}

/// The digits of a numeric literal read as one decimal integer, points skipped.
pub open spec fn digits_value(r: Seq<char>) -> nat
    decreases r.len(),
{
    if r.len() == 0 {
        0
    } else if r.last() == '.' {
        digits_value(r.drop_last())
    } else {
        digits_value(r.drop_last()) * 10 + (r.last() as nat - '0' as nat) as nat
    }
}

/// How many decimal points a numeric literal holds.
pub open spec fn count_points(r: Seq<char>) -> nat
    decreases r.len(),
{
    if r.len() == 0 {
        0
    } else if r.last() == '.' {
        count_points(r.drop_last()) + 1
    } else {
        count_points(r.drop_last())
    }
}

/// How many digits follow the last decimal point of a numeric literal.
pub open spec fn frac_digits(r: Seq<char>) -> nat
    decreases r.len(),
{
    if r.len() == 0 || r.last() == '.' {
        0
    } else if count_points(r.drop_last()) > 0 {
        frac_digits(r.drop_last()) + 1
    } else {
        0
    }
}

/// The token of a run of numeric characters: an integer without a point, a
/// floating literal with one point, and an invalid token with more than one
/// point, with no digit at all, or with a value that does not fit (`i64` for
/// an integer, a `u64` mantissa for a floating literal).
pub open spec fn number_token(r: Seq<char>) -> Token {
    let points = count_points(r);
    let value = digits_value(r);
    if points > 1 || points == r.len() {
        Token::Invalid
    } else if points == 1 {
        if value <= u64::MAX {
            Token::Float(Decimal { mantissa: value as u64, scale: frac_digits(r) as usize })
        } else {
            Token::Invalid
        }
    } else if value <= i64::MAX {
        Token::Int(value as i64)
    } else {
        Token::Invalid
    }
}

/// The token of a keyword and what follows it: `mod` and `of` when a
/// separator (whitespace or the end of the text) comes after the letters.
pub open spec fn keyword_token(w: Seq<char>, separated: bool) -> Token {
    if separated && w == seq!['m', 'o', 'd'] {
        Token::Modulus
    } else if separated && w == seq!['o', 'f'] {
        Token::Of
    } else {
        Token::Invalid
    }
}

pub open spec fn is_op_char(c: char) -> bool {
    c == '+' || c == '-' || c == '*' || c == '/' || c == '^' || c == '%'
}

/// The token that starts at `p` (after any whitespace) and the position after
/// it. An invalid token ends the text: its position is the text's end.
pub open spec fn scan_token(s: Seq<char>, p: int) -> (Token, int) {
    let p = skip_spaces(s, p);
    if p < 0 || p >= s.len() {
        (Token::End, p)
    } else {
        let c = s[p];
        if c == '(' {
            (Token::OpenParen, p + 1)
        } else if c == ')' {
            (Token::CloseParen, p + 1)
        } else if is_op_char(c) {
            (Token::Op(c), p + 1)
        } else if is_num_char(c) {
            let q = num_end(s, p);
            let t = number_token(s.subrange(p, q));
            if t is Invalid {
                (Token::Invalid, s.len() as int)
            } else {
                (t, q)
            }
        } else if is_letter(c) {
            let q = word_end(s, p);
            let t = keyword_token(s.subrange(p, q), q == s.len() || is_space(s[q]));
            if t is Invalid {
                (Token::Invalid, s.len() as int)
            } else {
                (t, q)
            }
        } else {
            (Token::Invalid, s.len() as int)
        }
    }
}

/// The tokens of `s` from position `p` on, up to the end of the text or up to
/// and including the first invalid token.
pub open spec fn tokens_from(s: Seq<char>, p: int) -> Seq<Token>
    decreases s.len() - p,
{
    let (t, q) = scan_token(s, p);
    // A token other than the end always advances within the text; the
    // bound only makes the recursion visibly shrink.
    if t is End || !(p < q <= s.len()) {
        Seq::empty()
    } else {
        seq![t] + tokens_from(s, q)
    }
}

/// The tokens of a whole text.
pub open spec fn tokens_of(s: Seq<char>) -> Seq<Token> {
    tokens_from(s, 0)
}

/// All the tokens of `s`, the invalid token that ends them included.
pub fn lex(s: &str) -> (r: Vec<Token>)
    ensures
        r@ == tokens_of(s@),
{
    let l = Lexer::new(s);
    l.as_vec()
}

/// Skips whitespace from `pos` on: the first other character, if there is
/// one, and how many characters were skipped.
pub fn eat_spaces(chars: &Vec<char>, pos: usize) -> (r: (Option<char>, usize))
    requires
        pos <= chars.len(),
    ensures
        r.1 == skip_spaces(chars@, pos as int) - pos,
        skip_spaces(chars@, pos as int) < chars.len() ==> r.0 == Some(
            chars@[skip_spaces(chars@, pos as int)],
        ),
        skip_spaces(chars@, pos as int) >= chars.len() ==> r.0 is None,
{
    let mut i: usize = pos;
    while i < chars.len() && (chars[i] == ' ' || chars[i] == '\t' || chars[i] == '\n')
        invariant
            pos <= i <= chars.len(),
            skip_spaces(chars@, pos as int) == skip_spaces(chars@, i as int),
        decreases chars.len() - i,
    {
        i = i + 1;
    }
    if i < chars.len() {
        (Some(chars[i]), i - pos)
    } else {
        (None, i - pos)
    }
}

proof fn lemma_digits_value_grows(r: Seq<char>, c: char)
    ensures
        digits_value(r.push(c)) >= digits_value(r),
{
    assert(r.push(c).drop_last() =~= r);
    assert(digits_value(r) * 10 >= digits_value(r)) by (nonlinear_arith);
}

/// Reads the numeric literal that starts at `pos`: its token and the position
/// after its last character.
pub fn lex_num(chars: &Vec<char>, pos: usize) -> (r: (Token, usize))
    requires
        pos <= chars.len(),
    ensures
        r.1 == num_end(chars@, pos as int),
        r.0 == number_token(chars@.subrange(pos as int, r.1 as int)),
{
    let ghost s = chars@;
    let mut i: usize = pos;
    let mut points: usize = 0;
    let mut frac: usize = 0;
    let mut value: u64 = 0;
    let mut overflow = false;
    while i < chars.len() && (('0' <= chars[i] && chars[i] <= '9') || chars[i] == '.')
        invariant
            pos <= i <= chars.len(),
            s == chars@,
            num_end(s, pos as int) == num_end(s, i as int),
            points == count_points(s.subrange(pos as int, i as int)),
            frac == frac_digits(s.subrange(pos as int, i as int)),
            frac <= i - pos,
            points <= i - pos,
            overflow ==> digits_value(s.subrange(pos as int, i as int)) > u64::MAX,
            !overflow ==> value == digits_value(s.subrange(pos as int, i as int)),
        decreases chars.len() - i,
    {
        let c = chars[i];
        let ghost old_run = s.subrange(pos as int, i as int);
        let ghost run = s.subrange(pos as int, i + 1);
        assert(run.drop_last() =~= old_run);
        assert(run =~= old_run.push(c));
        proof {
            lemma_digits_value_grows(old_run, c);
        }
        if c == '.' {
            points = points + 1;
            frac = 0;
        } else {
            if points > 0 {
                frac = frac + 1;
            }
            if !overflow {
                let d = (c as u32 - '0' as u32) as u64;
                match value.checked_mul(10) {
                    Some(v) => match v.checked_add(d) {
                        Some(w) => {
                            value = w;
                        },
                        None => {
                            overflow = true;
                        },
                    },
                    None => {
                        overflow = true;
                        assert(digits_value(run) >= digits_value(old_run) * 10);
                    },
                }
            }
        }
        i = i + 1;
    }
    let tok = if points > 1 || points == i - pos {
        Token::Invalid
    } else if points == 1 {
        if overflow {
            Token::Invalid
        } else {
            Token::Float(Decimal { mantissa: value, scale: frac })
        }
    } else if overflow || value > i64::MAX as u64 {
        Token::Invalid
    } else {
        Token::Int(value as i64)
    };
    (tok, i)
}

/// Reads the keyword that starts at `pos`: `mod`, `of`, or an invalid token,
/// and the position after its letters.
fn lex_keyword(chars: &Vec<char>, pos: usize) -> (r: (Token, usize))
    requires
        pos <= chars.len(),
    ensures
        r.1 == word_end(chars@, pos as int),
        r.0 == keyword_token(
            chars@.subrange(pos as int, r.1 as int),
            r.1 == chars.len() || is_space(chars@[r.1 as int]),
        ),
{
    let mut i: usize = pos;
    while i < chars.len() && 'a' <= chars[i] && chars[i] <= 'z'
        invariant
            pos <= i <= chars.len(),
            word_end(chars@, pos as int) == word_end(chars@, i as int),
        decreases chars.len() - i,
    {
        i = i + 1;
    }
    let ghost w = chars@.subrange(pos as int, i as int);
    let separated = i == chars.len() || chars[i] == ' ' || chars[i] == '\t' || chars[i] == '\n';
    let tok = if separated && i - pos == 3 && chars[pos] == 'm' && chars[pos + 1] == 'o'
        && chars[pos + 2] == 'd' {
        assert(w =~= seq!['m', 'o', 'd']);
        Token::Modulus
    } else if separated && i - pos == 2 && chars[pos] == 'o' && chars[pos + 1] == 'f' {
        assert(w =~= seq!['o', 'f']);
        Token::Of
    } else {
        assert(!(separated && w == seq!['m', 'o', 'd'])) by {
            if separated && w == seq!['m', 'o', 'd'] {
                assert(seq!['m', 'o', 'd'].len() == 3);
                assert(w[0] == chars@[pos as int] && w[1] == chars@[pos + 1] && w[2] == chars@[pos
                    + 2]);
            }
        }
        assert(!(separated && w == seq!['o', 'f'])) by {
            if separated && w == seq!['o', 'f'] {
                assert(seq!['o', 'f'].len() == 2);
                assert(w[0] == chars@[pos as int] && w[1] == chars@[pos + 1]);
            }
        }
        Token::Invalid
    };
    (tok, i)
}

/// Reads the token that starts at `pos`, after any whitespace, and returns
/// it with the position after it.
pub fn next_token(chars: &Vec<char>, pos: usize) -> (r: (Token, usize))
    requires
        pos <= chars.len(),
    ensures
        r.0 == scan_token(chars@, pos as int).0,
        r.1 == scan_token(chars@, pos as int).1,
        r.0 is End <==> skip_spaces(chars@, pos as int) >= chars.len(),
        !(r.0 is End) ==> pos < r.1 <= chars.len(),
        r.0 is End ==> r.1 == chars.len(),
{
    let ghost s = chars@;
    let (c, skipped) = eat_spaces(chars, pos);
    proof {
        lemma_skip_spaces_bounds(s, pos as int);
    }
    let p = pos + skipped;
    match c {
        None => (Token::End, p),
        Some(c) => {
            if c == '(' {
                (Token::OpenParen, p + 1)
            } else if c == ')' {
                (Token::CloseParen, p + 1)
            } else if c == '+' || c == '-' || c == '*' || c == '/' || c == '^' || c == '%' {
                (Token::Op(c), p + 1)
            } else if ('0' <= c && c <= '9') || c == '.' {
                let (t, q) = lex_num(chars, p);
                proof {
                    lemma_run_end_advances(s, p as int);
                }
                if let Token::Invalid = t {
                    (Token::Invalid, chars.len())
                } else {
                    (t, q)
                }
            } else if 'a' <= c && c <= 'z' {
                let (t, q) = lex_keyword(chars, p);
                if let Token::Invalid = t {
                    (Token::Invalid, chars.len())
                } else {
                    proof {
                        lemma_run_end_advances(s, p as int);
                    }
                    (t, q)
                }
            } else {
                (Token::Invalid, chars.len())
            }
        },
    }
}

proof fn lemma_skip_spaces_bounds(s: Seq<char>, p: int)
    requires
        0 <= p <= s.len(),
    ensures
        p <= skip_spaces(s, p) <= s.len(),
    decreases s.len() - p,
{
    if p < s.len() && is_space(s[p]) {
        lemma_skip_spaces_bounds(s, p + 1);
    }
}

proof fn lemma_run_end_advances(s: Seq<char>, p: int)
    requires
        0 <= p < s.len(),
    ensures
        is_num_char(s[p]) ==> p < num_end(s, p) <= s.len(),
        is_letter(s[p]) ==> p < word_end(s, p) <= s.len(),
{
    lemma_run_end_bounds(s, p + 1);
}

proof fn lemma_run_end_bounds(s: Seq<char>, p: int)
    requires
        0 <= p <= s.len(),
    ensures
        p <= num_end(s, p) <= s.len(),
        p <= word_end(s, p) <= s.len(),
    decreases s.len() - p,
{
    if p < s.len() {
        lemma_run_end_bounds(s, p + 1);
    }
}

proof fn lemma_tokens_from(s: Seq<char>, p: int)
    requires
        0 <= p <= s.len(),
    ensures
        tokens_from(s, p).len() <= s.len() - p,
        forall|i: int| 0 <= i < tokens_from(s, p).len() ==> !(tokens_from(s, p)[i] is End),
    decreases s.len() - p,
{
    let (t, q) = scan_token(s, p);
    if !(t is End) && p < q <= s.len() {
        lemma_tokens_from(s, q);
        let rest = tokens_from(s, q);
        assert(tokens_from(s, p) == seq![t] + rest);
        assert forall|i: int| 0 <= i < tokens_from(s, p).len() implies !(tokens_from(
            s,
            p,
        )[i] is End) by {
            if i > 0 {
                assert(tokens_from(s, p)[i] == rest[i - 1]);
            }
        }
    }
}

/// The tokens before the first end-of-input token.
pub open spec fn before_end(ts: Seq<Token>) -> Seq<Token>
    decreases ts.len(),
{
    if ts.len() == 0 || ts[0] is End {
        Seq::empty()
    } else {
        seq![ts[0]] + before_end(ts.drop_first())
    }
}

proof fn lemma_before_end(ts: Seq<Token>, k: int)
    requires
        0 <= k <= ts.len(),
        k == ts.len() || ts[k] is End,
        forall|i: int| 0 <= i < k ==> !(ts[i] is End),
    ensures
        before_end(ts) == ts.take(k),
    decreases ts.len(),
{
    if k > 0 {
        lemma_before_end(ts.drop_first(), k - 1);
        assert(ts.take(k) =~= seq![ts[0]] + ts.drop_first().take(k - 1));
    } else {
        assert(ts.take(k) =~= Seq::<Token>::empty());
    }
}

/// The next token of a sequence, or the end-of-input token when none is left.
pub open spec fn head_or_end(ts: Seq<Token>) -> Token {
    if ts.len() > 0 {
        ts[0]
    } else {
        Token::End
    }
}

/// The position of the `)` that closes the group open at `i` with `depth`
/// groups inside it still open, if there is one.
pub open spec fn group_close(ts: Seq<Token>, i: int, depth: nat) -> Option<int>
    decreases ts.len() - i,
{
    if i < 0 || i >= ts.len() {
        None
    } else if ts[i] is CloseParen {
        if depth == 0 {
            Some(i)
        } else {
            group_close(ts, i + 1, (depth - 1) as nat)
        }
    } else if ts[i] is OpenParen {
        group_close(ts, i + 1, depth + 1)
    } else {
        group_close(ts, i + 1, depth)
    }
}

pub proof fn lemma_group_close(ts: Seq<Token>, i: int, depth: nat)
    requires
        0 <= i,
    ensures
        group_close(ts, i, depth) matches Some(k) ==> i <= k < ts.len(),
    decreases ts.len() - i,
{
    if i < ts.len() {
        if ts[i] is CloseParen {
            if depth > 0 {
                lemma_group_close(ts, i + 1, (depth - 1) as nat);
            }
        } else if ts[i] is OpenParen {
            lemma_group_close(ts, i + 1, depth + 1);
        } else {
            lemma_group_close(ts, i + 1, depth);
        }
    }
}

/// What capturing the group that opens at the head of `ts` gives: the tokens
/// strictly inside the matching pair of parentheses and the tokens after it.
pub open spec fn capture_spec(ts: Seq<Token>) -> Result<(Seq<Token>, Seq<Token>), ParseError> {
    match group_close(ts, 1, 0) {
        None => Err(ParseError::UnbalancedParenthesis),
        Some(k) => if k == 1 {
            Err(ParseError::EmptyGroup)
        } else {
            Ok((ts.subrange(1, k), ts.skip(k + 1)))
        },
    }
}

/// Where the context shown around a position starts: three characters
/// before it, or at the start of the text.
pub open spec fn context_start(pos: int) -> int {
    if pos >= 3 {
        pos - 3
    } else {
        0
    }
}

/// Where the context shown around a position ends: three characters after
/// it, or at the end of the text.
pub open spec fn context_end(len: int, pos: int) -> int {
    if len - pos >= 3 {
        pos + 3
    } else {
        len
    }
}

/// Relies on `String::push`: appends one character to the string.
#[verifier::external_body]
fn push_char(s: &mut String, c: char)
    ensures
        final(s)@ == old(s)@.push(c),
{
    s.push(c)
}

/// A stream of tokens read lazily from a text. Tokens that have been looked
/// at but not consumed wait in a buffer; the text is never read backwards.
#[derive(Clone, Debug)]
pub struct Lexer {
    chars: Vec<char>,
    pos: usize,
    buf: Vec<Token>,
}

impl View for Lexer {
    type V = Seq<Token>;

    /// The tokens that are left: those in the buffer, then those of the
    /// text that has not been read yet. The end-of-input token is not one of
    /// them.
    closed spec fn view(&self) -> Seq<Token> {
        self.buf@ + tokens_from(self.chars@, self.pos as int)
    }
}

impl Lexer {
    pub closed spec fn wf(&self) -> bool {
        &&& self.pos <= self.chars.len()
        &&& self.buf.len() + self.chars.len() - self.pos <= usize::MAX
        &&& forall|i: int| 0 <= i < self.buf.len() ==> !(self.buf@[i] is End)
    }

    /// How many characters of the text have been read.
    pub closed spec fn scanned(&self) -> nat {
        self.pos as nat
    }

    /// The text that the stream reads; empty for a stream made of tokens.
    pub closed spec fn text(&self) -> Seq<char> {
        self.chars@
    }

    proof fn lemma_view(&self)
        requires
            self.wf(),
        ensures
            self@.len() <= usize::MAX,
            forall|i: int| 0 <= i < self@.len() ==> !(#[trigger] self@[i] is End),
    {
        lemma_tokens_from(self.chars@, self.pos as int);
        let rest = tokens_from(self.chars@, self.pos as int);
        assert forall|i: int| 0 <= i < self@.len() implies !(#[trigger] self@[i] is End) by {
            if i >= self.buf.len() {
                assert(self@[i] == rest[i - self.buf.len()]);
            }
        }
    }

    /// A stream over the tokens of `text`.
    pub fn new(text: &str) -> (r: Lexer)
        ensures
            r.wf(),
            r@ == tokens_of(text@),
            r.text() == text@,
            r.scanned() == 0,
    {
        let mut chars: Vec<char> = Vec::new();
        for c in it: text.chars()
            invariant
                chars@ == it.seq().take(it.index() as int),
        {
            chars.push(c);
        }
        assert(chars@ == text@);
        Lexer { chars, pos: 0, buf: Vec::new() }
    }

    /// A stream over given tokens, up to the first end-of-input token.
    pub fn from(toks: Vec<Token>) -> (r: Lexer)
        ensures
            r.wf(),
            r@ == before_end(toks@),
    {
        let mut toks = toks;
        let mut k: usize = 0;
        while k < toks.len() && !(toks[k] == Token::End)
            invariant
                k <= toks.len(),
                forall|i: int| 0 <= i < k ==> !(toks@[i] is End),
            decreases toks.len() - k,
        {
            k = k + 1;
        }
        let ghost all = toks@;
        proof {
            lemma_before_end(all, k as int);
        }
        toks.truncate(k);
        let r = Lexer { chars: Vec::new(), pos: 0, buf: toks };
        assert(tokens_from(r.chars@, 0) =~= Seq::<Token>::empty());
        assert(r@ =~= before_end(all));
        r
    }

    /// How many characters of the text have been read so far.
    pub fn get_index(self) -> (r: usize)
        ensures
            r == self.scanned(),
    {
        self.pos
    }

    /// Two lines that show where reading stands: the text from three
    /// characters before the reading position to three after it, and below
    /// it a caret under the reading position.
    pub fn error_at_current(&self) -> (r: Vec<String>)
        requires
            self.wf(),
        ensures
            r@.len() == 2,
            r@[0]@ == self.text().subrange(
                context_start(self.scanned() as int),
                context_end(self.text().len() as int, self.scanned() as int),
            ),
            r@[1]@ == Seq::new(
                (self.scanned() - context_start(self.scanned() as int)) as nat,
                |i: int| ' ',
            ).push('^'),
    {
        let lo: usize = if self.pos >= 3 {
            self.pos - 3
        } else {
            0
        };
        let hi: usize = if self.chars.len() - self.pos >= 3 {
            self.pos + 3
        } else {
            self.chars.len()
        };
        let mut code = String::new();
        let mut i: usize = lo;
        while i < hi
            invariant
                lo <= i <= hi <= self.chars.len(),
                code@ == self.chars@.subrange(lo as int, i as int),
            decreases hi - i,
        {
            push_char(&mut code, self.chars[i]);
            assert(self.chars@.subrange(lo as int, i + 1) =~= self.chars@.subrange(
                lo as int,
                i as int,
            ).push(self.chars@[i as int]));
            i = i + 1;
        }
        let mut caret = String::new();
        let mut k: usize = lo;
        while k < self.pos
            invariant
                lo <= k <= self.pos,
                caret@ == Seq::new((k - lo) as nat, |j: int| ' '),
            decreases self.pos - k,
        {
            push_char(&mut caret, ' ');
            assert(Seq::new((k + 1 - lo) as nat, |j: int| ' ') =~= Seq::new(
                (k - lo) as nat,
                |j: int| ' ',
            ).push(' '));
            k = k + 1;
        }
        push_char(&mut caret, '^');
        let mut lines: Vec<String> = Vec::new();
        lines.push(code);
        lines.push(caret);
        lines
    }

    /// Reads one more token of the text into the buffer, unless the text
    /// has none left.
    fn fill(&mut self) -> (added: bool)
        requires
            old(self).wf(),
        ensures
            final(self).wf(),
            final(self)@ == old(self)@,
            added ==> final(self).buf.len() == old(self).buf.len() + 1,
            !added ==> final(self).buf.len() == old(self).buf.len() && final(self)@
                == final(self).buf@,
            !added ==> final(self)@.len() == final(self).buf.len(),
    {
        let ghost before = self@;
        let (t, q) = next_token(&self.chars, self.pos);
        if let Token::End = t {
            assert(tokens_from(self.chars@, self.pos as int) =~= Seq::<Token>::empty());
            assert(self@ =~= self.buf@);
            false
        } else {
            assert(tokens_from(self.chars@, self.pos as int) == seq![t] + tokens_from(
                self.chars@,
                q as int,
            ));
            self.buf.push(t);
            self.pos = q;
            assert(self@ =~= before);
            true
        }
    }

    /// The next token, without consuming it; the end-of-input token when
    /// none is left.
    pub fn peek(&mut self) -> (r: Token)
        requires
            old(self).wf(),
        ensures
            final(self).wf(),
            final(self)@ == old(self)@,
            r == head_or_end(old(self)@),
            r is End <==> old(self)@.len() == 0,
    {
        proof {
            self.lemma_view();
        }
        if self.buf.len() == 0 {
            self.fill();
        }
        if self.buf.len() > 0 {
            self.buf[0]
        } else {
            Token::End
        }
    }

    /// The token `n` places ahead, without consuming anything; the
    /// end-of-input token when the stream is shorter.
    pub fn look_ahead(&mut self, n: usize) -> (r: Token)
        requires
            old(self).wf(),
        ensures
            final(self).wf(),
            final(self)@ == old(self)@,
            r == (if n < old(self)@.len() {
                old(self)@[n as int]
            } else {
                Token::End
            }),
    {
        while self.buf.len() <= n
            invariant
                self.wf(),
                self@ == old(self)@,
            ensures
                self.wf(),
                self@ == old(self)@,
                self.buf.len() > n || self@.len() == self.buf.len(),
            decreases self@.len() - self.buf.len(),
        {
            proof {
                self.lemma_view();
            }
            if !self.fill() {
                break;
            }
        }
        if n < self.buf.len() {
            self.buf[n]
        } else {
            Token::End
        }
    }

    /// Consumes the next token and returns it; `None` when none is left.
    pub fn next(&mut self) -> (r: Option<Token>)
        requires
            old(self).wf(),
        ensures
            final(self).wf(),
            old(self)@.len() > 0 ==> r == Some(old(self)@[0]) && final(self)@ == old(
                self,
            )@.drop_first(),
            old(self)@.len() == 0 ==> r is None && final(self)@ == old(self)@,
    {
        if self.buf.len() == 0 {
            self.fill();
        }
        if self.buf.len() > 0 {
            let ghost before = self@;
            let t = self.buf.remove(0);
            assert(self@ =~= before.drop_first());
            Some(t)
        } else {
            None
        }
    }

    /// Consumes `n` tokens, or all that are left when there are fewer.
    pub fn discard(&mut self, n: usize)
        requires
            old(self).wf(),
        ensures
            final(self).wf(),
            n <= old(self)@.len() ==> final(self)@ == old(self)@.skip(n as int),
            n > old(self)@.len() ==> final(self)@.len() == 0,
    {
        let mut k: usize = 0;
        while k < n
            invariant
                self.wf(),
                k <= n,
                k <= old(self)@.len() ==> self@ == old(self)@.skip(k as int),
                k > old(self)@.len() ==> self@.len() == 0,
            decreases n - k,
        {
            self.next();
            proof {
                if k < old(self)@.len() {
                    assert(old(self)@.skip(k + 1) =~= old(self)@.skip(k as int).drop_first());
                }
            }
            k = k + 1;
        }
    }

    /// All the tokens that are left, in order.
    pub fn as_vec(&self) -> (r: Vec<Token>)
        requires
            self.wf(),
        ensures
            r@ == self@,
    {
        let mut v: Vec<Token> = Vec::new();
        for i in 0..self.buf.len()
            invariant
                self.wf(),
                v@ == self.buf@.take(i as int),
        {
            v.push(self.buf[i]);
            assert(self.buf@.take(i + 1) =~= self.buf@.take(i as int).push(self.buf@[i as int]));
        }
        assert(self.buf@.take(self.buf.len() as int) =~= self.buf@);
        let mut p: usize = self.pos;
        loop
            invariant
                self.wf(),
                p <= self.chars.len(),
                v@ + tokens_from(self.chars@, p as int) == self@,
            ensures
                v@ == self@,
            decreases self.chars.len() - p,
        {
            let (t, q) = next_token(&self.chars, p);
            if let Token::End = t {
                assert(tokens_from(self.chars@, p as int) =~= Seq::<Token>::empty());
                assert(v@ =~= self@);
                break;
            }
            let ghost old_v = v@;
            assert(tokens_from(self.chars@, p as int) == seq![t] + tokens_from(self.chars@, q as int));
            v.push(t);
            assert(v@ + tokens_from(self.chars@, q as int) =~= old_v + tokens_from(self.chars@, p as int));
            p = q;
        }
        v
    }

    /// Given a stream whose next token is `(`, takes the group that it opens:
    /// returns a new stream of the tokens strictly inside the matching pair
    /// of parentheses and consumes the whole group, both parentheses included.
    pub fn capture_group(&mut self) -> (r: Result<Lexer, ParseError>)
        requires
            old(self).wf(),
            old(self)@.len() > 0,
            old(self)@[0] is OpenParen,
        ensures
            final(self).wf(),
            match capture_spec(old(self)@) {
                Ok((inner, rest)) => r matches Ok(g) && g.wf() && g@ == inner && final(self)@ == rest,
                Err(e) => r == Err::<Lexer, ParseError>(e),
            },
            capture_spec(old(self)@) matches Ok((inner, rest)) ==> inner.len() + rest.len() + 2
                == old(self)@.len(),
    {
        let ghost ts = self@;
        proof {
            self.lemma_view();
            lemma_group_close(ts, 1, 0);
        }
        let mut i: usize = 1;
        let mut depth: usize = 0;
        loop
            invariant
                self.wf(),
                self@ == ts,
                ts == old(self)@,
                ts.len() <= usize::MAX,
                1 <= i,
                depth < i,
                i <= ts.len() + 1,
                group_close(ts, 1, 0) == group_close(ts, i as int, depth as nat),
            ensures
                self.wf(),
                self@ == ts,
                1 <= i < ts.len(),
                group_close(ts, 1, 0) == Some(i as int),
            decreases ts.len() + 1 - i,
        {
            let t = self.look_ahead(i);
            match t {
                Token::End => {
                    proof {
                        self.lemma_view();
                        if (i as int) < ts.len() {
                            assert(!(self@[i as int] is End));
                        }
                        assert(group_close(ts, i as int, depth as nat) is None);
                    }
                    return Err(ParseError::UnbalancedParenthesis);
                },
                Token::CloseParen => {
                    if depth == 0 {
                        break;
                    }
                    depth = depth - 1;
                },
                Token::OpenParen => {
                    depth = depth + 1;
                },
                _ => {},
            }
            i = i + 1;
        }
        if i == 1 {
            return Err(ParseError::EmptyGroup);
        }
        self.next();
        let mut inner: Vec<Token> = Vec::new();
        let mut k: usize = 1;
        while k < i
            invariant
                self.wf(),
                1 <= k <= i < ts.len(),
                self@ == ts.skip(k as int),
                inner@ == ts.subrange(1, k as int),
            decreases i - k,
        {
            let t = self.next();
            match t {
                Some(t) => {
                    inner.push(t);
                },
                None => {},
            }
            assert(ts.subrange(1, k + 1) =~= ts.subrange(1, k as int).push(ts[k as int]));
            assert(ts.skip(k + 1) =~= ts.skip(k as int).drop_first());
            k = k + 1;
        }
        self.next();
        assert(ts.skip(i + 1) =~= ts.skip(i as int).drop_first());
        proof {
            assert forall|j: int| 0 <= j < inner.len() implies !(inner@[j] is End) by {
                assert(inner@[j] == ts[j + 1]);
            }
        }
        let g = Lexer { chars: Vec::new(), pos: 0, buf: inner };
        assert(tokens_from(g.chars@, 0) =~= Seq::<Token>::empty());
        assert(g@ =~= ts.subrange(1, i as int));
        Ok(g)
    }

    /// Whether no token is left.
    pub fn is_empty(&self) -> (r: bool)
        requires
            self.wf(),
        ensures
            r == (self@.len() == 0),
    {
        if self.buf.len() > 0 {
            false
        } else {
            let (t, q) = next_token(&self.chars, self.pos);
            if let Token::End = t {
                assert(tokens_from(self.chars@, self.pos as int) =~= Seq::<Token>::empty());
                true
            } else {
                assert(tokens_from(self.chars@, self.pos as int) == seq![t] + tokens_from(
                    self.chars@,
                    q as int,
                ));
                false
            }
        }
    }
}

} // verus!
