//! The recursive-descent parser: three tiers of precedence, each building
//! its node with the rotations that keep operators left-associative.
use vstd::prelude::*;

use crate::ast::{as_group, attach, binary, leaf, unary, Ast, Tree};
use crate::error::ParseError;
use crate::lex::{capture_spec, group_close, lemma_group_close, tokens_of, Lexer, Token};

verus! {

/// `+` or `-`: the operators of the additive tier.
pub open spec fn is_additive(t: Token) -> bool {
    t == Token::Op('+') || t == Token::Op('-')
}

/// `*`, `/`, `^` and `mod`: the binary operators of the multiplicative tier
/// (`%` has rules of its own).
pub open spec fn is_multiplicative(t: Token) -> bool {
    t == Token::Op('*') || t == Token::Op('/') || t == Token::Op('^') || t == Token::Modulus
}

/// A token that cannot begin an operand: an operator other than the unary
/// `-`, or a keyword.
pub open spec fn is_misplaced(t: Token) -> bool {
    (t is Op && t != Token::Op('-')) || t is Modulus || t is Of
}

/// The result of reading a factor or a term: the tree and the tokens left.
pub type Parsed = Result<(Tree, Seq<Token>), ParseError>;

/// Reads a factor: a literal, a parenthesized expression (marked as
/// grouped) or a unary minus before a factor.
pub open spec fn factor_spec(ts: Seq<Token>) -> Parsed
    decreases ts.len(), 0nat,
{
    if ts.len() == 0 {
        Err(ParseError::EmptyInput)
    } else {
        match ts[0] {
            Token::Int(_) => Ok((leaf(ts[0]), ts.drop_first())),
            Token::Float(_) => Ok((leaf(ts[0]), ts.drop_first())),
            Token::OpenParen => match capture_spec(ts) {
                Err(e) => Err(e),
                Ok((inner, rest)) => if inner.len() < ts.len() {
                    match expr_spec(inner) {
                        Ok(t) => Ok((as_group(t), rest)),
                        Err(e) => Err(e),
                    }
                } else {
                    // Not reached (`lemma_group_close`): a group lies strictly
                    // inside `ts`. The test makes the recursion visibly shrink.
                    Err(ParseError::UnbalancedParenthesis)
                },
            },
            Token::Invalid => Err(ParseError::InvalidToken),
            _ => if ts[0] == Token::Op('-') {
                match factor_spec(ts.drop_first()) {
                    Ok((f, rest)) => Ok((unary(ts[0], f), rest)),
                    Err(e) => Err(e),
                }
            } else {
                Err(ParseError::InvalidFactor)
            },
        }
    }
}

/// Reads the right operand of `op` from `ts` (a term, which must not start
/// with another operator) and combines it with `left`: through `attach` when
/// `rotate` holds, as the plain node `op(left, operand)` otherwise.
pub open spec fn operand_spec(op: Token, left: Tree, ts: Seq<Token>, rotate: bool) -> Parsed
    decreases ts.len(), 2nat,
{
    if ts.len() > 0 && is_misplaced(ts[0]) {
        Err(ParseError::InvalidOperation)
    } else {
        match term_spec(ts) {
            Ok((r, rest)) => if rotate {
                Ok((attach(op, left, r), rest))
            } else {
                Ok((binary(op, left, r), rest))
            },
            Err(e) => Err(e),
        }
    }
}

/// Reads a term: a factor, then, unless the tokens end or an additive
/// operator follows, a multiplicative operator and the term after it.
/// `x % of y` makes the node `%(x, y)` as it stands, with no rotation;
/// `x % y` combines `x` and the term `y` under `%` with the rotations of
/// `attach`; a `%` followed by the end or an additive operator is the unary
/// percentage.
pub open spec fn term_spec(ts: Seq<Token>) -> Parsed
    decreases ts.len(), 1nat,
{
    match factor_spec(ts) {
        Err(e) => Err(e),
        Ok((f, rest)) => if rest.len() >= ts.len() {
            // Not reached: a factor takes at least one token
            // (`lemma_factor_consumes`).
            Err(ParseError::InvalidFactor)
        } else if rest.len() == 0 || is_additive(rest[0]) {
            Ok((f, rest))
        } else if is_multiplicative(rest[0]) {
            operand_spec(rest[0], f, rest.drop_first(), true)
        } else if rest[0] == Token::Op('%') {
            let after = rest.drop_first();
            if after.len() > 0 && after[0] is Of {
                operand_spec(rest[0], f, after.drop_first(), false)
            } else if after.len() == 0 || is_additive(after[0]) {
                Ok((unary(rest[0], f), after))
            } else {
                operand_spec(rest[0], f, after, true)
            }
        } else if rest[0] is Invalid {
            Err(ParseError::InvalidToken)
        } else if rest[0] is CloseParen {
            Err(ParseError::UnbalancedParenthesis)
        } else {
            Err(ParseError::InvalidOperation)
        }
    }
}

/// Reads an expression, which takes all of `ts`: a term, then, if tokens are
/// left, an additive operator and the expression after it.
pub open spec fn expr_spec(ts: Seq<Token>) -> Result<Tree, ParseError>
    decreases ts.len(), 2nat,
{
    match term_spec(ts) {
        Err(e) => Err(e),
        Ok((t, rest)) => if rest.len() == 0 {
            Ok(t)
        } else if rest.len() >= ts.len() || !is_additive(rest[0]) {
            // Not reached: a term takes at least one token and stops only
            // at the end or before `+` or `-` (`lemma_term_stops`).
            Err(ParseError::InvalidOperation)
        } else {
            let more = rest.drop_first();
            if more.len() > 0 && is_misplaced(more[0]) {
                Err(ParseError::InvalidOperation)
            } else {
                match expr_spec(more) {
                    Ok(r) => Ok(attach(rest[0], t, r)),
                    Err(e) => Err(e),
                }
            }
        }
    }
}

/// A factor takes at least one token.
pub proof fn lemma_factor_consumes(ts: Seq<Token>)
    ensures
        factor_spec(ts) matches Ok((f, rest)) ==> rest.len() < ts.len(),
    decreases ts.len(), 0nat,
{
    if ts.len() > 0 {
        if ts[0] is OpenParen {
            lemma_group_close(ts, 1, 0);
        } else if ts[0] == Token::Op('-') {
            lemma_factor_consumes(ts.drop_first());
        }
    }
}

/// A term takes at least one token and stops only at the end of the tokens
/// or before `+` or `-`.
pub proof fn lemma_term_stops(ts: Seq<Token>)
    ensures
        term_spec(ts) matches Ok((t, rest)) ==> rest.len() < ts.len() && (rest.len() == 0
            || is_additive(rest[0])),
    decreases ts.len(), 1nat,
{
    lemma_factor_consumes(ts);
    if let Ok((f, rest)) = factor_spec(ts) {
        if rest.len() > 0 && rest.len() < ts.len() && !is_additive(rest[0]) {
            let after = rest.drop_first();
            if is_multiplicative(rest[0]) {
                lemma_operand_stops(after);
                assert(term_spec(ts) == operand_spec(rest[0], f, after, true));
            } else if rest[0] == Token::Op('%') {
                if after.len() > 0 && after[0] is Of {
                    lemma_operand_stops(after.drop_first());
                    assert(term_spec(ts) == operand_spec(rest[0], f, after.drop_first(), false));
                } else if !(after.len() == 0 || is_additive(after[0])) {
                    lemma_operand_stops(after);
                    assert(term_spec(ts) == operand_spec(rest[0], f, after, true));
                }
            }
        }
    }
}

/// Like `lemma_term_stops`, for the right operand of an operator.
pub proof fn lemma_operand_stops(ts: Seq<Token>)
    ensures
        forall|op: Token, left: Tree, rotate: bool|
            #[trigger] operand_spec(op, left, ts, rotate) matches Ok((t, rest)) ==> rest.len()
                < ts.len() && (rest.len() == 0 || is_additive(rest[0])),
    decreases ts.len(), 2nat,
{
    lemma_term_stops(ts);
}

/// The tree of a text, or why it has none.
pub open spec fn parse_spec(text: Seq<char>) -> Result<Tree, ParseError> {
    expr_spec(tokens_of(text))
}

/// Whether `r` is the outcome that `expected` describes: the same error,
/// or a well-formed node whose tree is the expected one.
pub open spec fn yields(r: Result<Ast, ParseError>, expected: Result<Tree, ParseError>) -> bool {
    match expected {
        Ok(t) => r matches Ok(a) && a.wf() && a@ == t,
        Err(e) => r == Err::<Ast, ParseError>(e),
    }
}

/// Like `yields`, for a reading that leaves tokens behind: `rest` must be
/// the tokens that `expected` leaves.
pub open spec fn yields_rest(
    r: Result<Ast, ParseError>,
    rest: Seq<Token>,
    expected: Parsed,
) -> bool {
    match expected {
        Ok((t, left)) => r matches Ok(a) && a.wf() && a@ == t && rest == left,
        Err(e) => r == Err::<Ast, ParseError>(e),
    }
}

/// Parses a text into an expression tree.
pub fn parse(text: &str) -> (r: Result<Ast, ParseError>)
    ensures
        yields(r, parse_spec(text@)),
{
    let mut l = Lexer::new(text);
    expr(&mut l)
}

fn is_misplaced_token(t: Token) -> (r: bool)
    ensures
        r == is_misplaced(t),
{
    match t {
        Token::Op(c) => c != '-',
        Token::Modulus | Token::Of => true,
        _ => false,
    }
}

/// Reads an expression from the stream, to its end.
pub fn expr(toks: &mut Lexer) -> (r: Result<Ast, ParseError>)
    requires
        old(toks).wf(),
    ensures
        final(toks).wf(),
        yields(r, expr_spec(old(toks)@)),
    decreases old(toks)@.len(), 2nat,
{
    let head = match term(toks) {
        Ok(a) => a,
        Err(e) => return Err(e),
    };
    let t = toks.peek();
    match t {
        Token::End => Ok(head),
        Token::Op('+') | Token::Op('-') => {
            toks.next();
            if is_misplaced_token(toks.peek()) {
                return Err(ParseError::InvalidOperation);
            }
            let rhs = match expr(toks) {
                Ok(a) => a,
                Err(e) => return Err(e),
            };
            let mut root = Ast::new(t);
            root.push(head);
            root.push(rhs);
            Ok(root)
        },
        _ => Err(ParseError::InvalidOperation),
    }
}

/// Reads the right operand of `op` and combines it with `left`, with or
/// without rotation.
fn operand(toks: &mut Lexer, op: Token, left: Ast, rotate: bool) -> (r: Result<Ast, ParseError>)
    requires
        old(toks).wf(),
        left.wf(),
    ensures
        final(toks).wf(),
        yields_rest(r, final(toks)@, operand_spec(op, left@, old(toks)@, rotate)),
        r is Ok ==> final(toks)@.len() < old(toks)@.len(),
    decreases old(toks)@.len(), 2nat,
{
    if is_misplaced_token(toks.peek()) {
        return Err(ParseError::InvalidOperation);
    }
    let rhs = match term(toks) {
        Ok(a) => a,
        Err(e) => return Err(e),
    };
    if rotate {
        let mut root = Ast::new(op);
        root.push(left);
        root.push(rhs);
        Ok(root)
    } else {
        let root = Ast { tok: op, children: vec![left, rhs], grouped: false };
        assert(root@.kids =~= seq![left@, rhs@]);
        Ok(root)
    }
}

/// Reads a term from the stream.
pub fn term(toks: &mut Lexer) -> (r: Result<Ast, ParseError>)
    requires
        old(toks).wf(),
    ensures
        final(toks).wf(),
        yields_rest(r, final(toks)@, term_spec(old(toks)@)),
        r is Ok ==> final(toks)@.len() < old(toks)@.len(),
    decreases old(toks)@.len(), 1nat,
{
    let f = match factor(toks) {
        Ok(a) => a,
        Err(e) => return Err(e),
    };
    let t = toks.peek();
    match t {
        Token::End | Token::Op('+') | Token::Op('-') => Ok(f),
        Token::Op('*') | Token::Op('/') | Token::Op('^') | Token::Modulus => {
            toks.next();
            operand(toks, t, f, true)
        },
        Token::Op('%') => {
            toks.next();
            match toks.peek() {
                Token::Of => {
                    toks.next();
                    operand(toks, t, f, false)
                },
                Token::End | Token::Op('+') | Token::Op('-') => {
                    let mut root = Ast::new(t);
                    root.push(f);
                    Ok(root)
                },
                _ => operand(toks, t, f, true),
            }
        },
        Token::Invalid => Err(ParseError::InvalidToken),
        Token::CloseParen => Err(ParseError::UnbalancedParenthesis),
        _ => Err(ParseError::InvalidOperation),
    }
}

/// Reads a factor from the stream.
pub fn factor(toks: &mut Lexer) -> (r: Result<Ast, ParseError>)
    requires
        old(toks).wf(),
    ensures
        final(toks).wf(),
        yields_rest(r, final(toks)@, factor_spec(old(toks)@)),
        r is Ok ==> final(toks)@.len() < old(toks)@.len(),
    decreases old(toks)@.len(), 0nat,
{
    let t = toks.peek();
    match t {
        Token::Int(_) | Token::Float(_) => {
            toks.next();
            Ok(Ast::new(t))
        },
        Token::OpenParen => {
            let mut group = match toks.capture_group() {
                Ok(g) => g,
                Err(e) => return Err(e),
            };
            match expr(&mut group) {
                Ok(a) => {
                    let mut a = a;
                    a.grouped = true;
                    Ok(a)
                },
                Err(e) => Err(e),
            }
        },
        Token::Op('-') => {
            toks.next();
            let f = match factor(toks) {
                Ok(a) => a,
                Err(e) => return Err(e),
            };
            let mut root = Ast::new(t);
            root.push(f);
            Ok(root)
        },
        Token::End => Err(ParseError::EmptyInput),
        Token::Invalid => Err(ParseError::InvalidToken),
        _ => Err(ParseError::InvalidFactor),
    }
}

impl core::str::FromStr for Ast {
    type Err = ParseError;

    fn from_str(s: &str) -> Result<Ast, ParseError> {
        parse(s)
    }
}

/// The tokens up to and including the first one that `delim` holds; all of
/// them when `delim` holds none.
pub open spec fn until_spec(ts: Seq<Token>, delim: Seq<Token>) -> Seq<Token>
    decreases ts.len(),
{
    if ts.len() == 0 {
        ts
    } else if delim.contains(ts[0]) {
        seq![ts[0]]
    } else {
        seq![ts[0]] + until_spec(ts.drop_first(), delim)
    }
}

/// Whether `delim` holds `t`.
fn holds(delim: &[Token], t: Token) -> (r: bool)
    ensures
        r == delim@.contains(t),
{
    let mut j: usize = 0;
    while j < delim.len()
        invariant
            j <= delim@.len(),
            forall|k: int| 0 <= k < j ==> delim@[k] != t,
        decreases delim@.len() - j,
    {
        if t == delim[j] {
            assert(delim@[j as int] == t);
            return true;
        }
        j = j + 1;
    }
    false
}

/// Copies `tokens` up to and including the first token that `delim` holds.
pub fn until_oneof(tokens: &mut Vec<Token>, delim: &[Token]) -> (r: Vec<Token>)
    ensures
        final(tokens)@ == old(tokens)@,
        r@ == until_spec(old(tokens)@, delim@),
{
    let ghost ts = tokens@;
    let mut v: Vec<Token> = Vec::new();
    let mut i: usize = 0;
    assert(ts.skip(0) =~= ts);
    while i < tokens.len()
        invariant
            ts == tokens@,
            i <= ts.len(),
            until_spec(ts, delim@) == v@ + until_spec(ts.skip(i as int), delim@),
        decreases ts.len() - i,
    {
        let token = tokens[i];
        let ghost tail = ts.skip(i as int);
        assert(tail[0] == token);
        assert(tail.drop_first() =~= ts.skip(i + 1));
        v.push(token);
        if holds(delim, token) {
            assert(until_spec(tail, delim@) =~= seq![token]);
            return v;
        }
        i = i + 1;
    }
    assert(ts.skip(i as int) =~= Seq::<Token>::empty());
    v
}

/// Copies `toks` up to and including the `)` that closes a group opened
/// before them: the first `)` not matched by a `(` among them. All of them
/// when there is no such `)`.
pub fn extract_from_parens(toks: &mut Vec<Token>) -> (r: Result<Vec<Token>, ParseError>)
    ensures
        final(toks)@ == old(toks)@,
        r matches Ok(v) && v@ == match group_close(old(toks)@, 0, 0) {
            Some(k) => old(toks)@.take(k + 1),
            None => old(toks)@,
        },
{
    let ghost ts = toks@;
    let mut v: Vec<Token> = Vec::new();
    let mut paren: usize = 0;
    let mut i: usize = 0;
    while i < toks.len()
        invariant
            ts == toks@,
            i <= ts.len(),
            paren <= i,
            v@ == ts.take(i as int),
            group_close(ts, 0, 0) == group_close(ts, i as int, paren as nat),
        decreases ts.len() - i,
    {
        let t = toks[i];
        v.push(t);
        assert(ts.take(i + 1) =~= ts.take(i as int).push(t));
        match t {
            Token::CloseParen => {
                if paren == 0 {
                    return Ok(v);
                }
                paren = paren - 1;
            },
            Token::OpenParen => {
                paren = paren + 1;
            },
            _ => {},
        }
        i = i + 1;
    }
    assert(ts.take(i as int) =~= ts);
    Ok(v)
}

} // verus!
