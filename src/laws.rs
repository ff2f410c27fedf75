//! Laws of the parser: how chains of operators and parentheses shape the
//! tree, stated over token sequences and proved from the parser's spec.
use vstd::prelude::*;

use crate::ast::{as_group, attach, binary, leaf, rotates, Ast, Tree};
use crate::error::ParseError;
use crate::lex::{
    capture_spec, count_points, digits_value, group_close, is_digit, is_num_char, is_space, num_end,
    number_token, scan_token, skip_spaces, tokens_from, tokens_of, Token,
};
use crate::parser::{expr_spec, factor_spec, operand_spec, parse_spec, term_spec, yields};

verus! {

/// An integer or floating literal.
pub open spec fn is_literal(t: Token) -> bool {
    t is Int || t is Float
}

/// `*`, `/` or `mod`: operators that associate left to right with each other.
pub open spec fn is_chain_op(t: Token) -> bool {
    t == Token::Op('*') || t == Token::Op('/') || t == Token::Modulus
}

/// The tokens `xs[0] ops[0] xs[1] ... ops[n-1] xs[n]`.
pub open spec fn chain_tokens(xs: Seq<Token>, ops: Seq<Token>) -> Seq<Token>
    decreases ops.len(),
{
    if ops.len() == 0 {
        seq![xs[0]]
    } else {
        seq![xs[0], ops[0]] + chain_tokens(xs.drop_first(), ops.drop_first())
    }
}

/// The tree that evaluates `xs[0] ops[0] xs[1] ... ops[n-1] xs[n]` strictly
/// from left to right: `((xs[0] ops[0] xs[1]) ops[1] xs[2]) ...`.
pub open spec fn left_fold(xs: Seq<Token>, ops: Seq<Token>) -> Tree
    decreases ops.len(),
{
    if ops.len() == 0 {
        leaf(xs[0])
    } else {
        binary(ops.last(), left_fold(xs.drop_last(), ops.drop_last()), leaf(xs.last()))
    }
}

/// A well-formed chain: literals joined by operators of `is_chain_op`.
pub open spec fn is_chain(xs: Seq<Token>, ops: Seq<Token>) -> bool {
    &&& xs.len() == ops.len() + 1
    &&& forall|i: int| 0 <= i < xs.len() ==> is_literal(#[trigger] xs[i])
    &&& forall|i: int| 0 <= i < ops.len() ==> is_chain_op(#[trigger] ops[i])
}

proof fn lemma_attach_left_fold(op: Token, x: Token, xs: Seq<Token>, ops: Seq<Token>)
    requires
        is_chain_op(op),
        is_chain(xs, ops),
    ensures
        attach(op, leaf(x), left_fold(xs, ops)) == left_fold(seq![x] + xs, seq![op] + ops),
    decreases ops.len(),
{
    let xs2 = seq![x] + xs;
    let ops2 = seq![op] + ops;
    assert(ops2.last() == if ops.len() == 0 { op } else { ops.last() });
    assert(xs2.last() == xs.last());
    if ops.len() == 0 {
        assert(xs2.drop_last() =~= seq![x]);
        assert(ops2.drop_last() =~= Seq::<Token>::empty());
        assert(left_fold(xs2.drop_last(), ops2.drop_last()) == leaf(x));
        assert(xs.last() == xs[0]);
    } else {
        let last = ops.last();
        assert(is_chain_op(ops[ops.len() - 1]));
        assert(rotates(op, last));
        assert(is_chain(xs.drop_last(), ops.drop_last())) by {
            assert forall|i: int| 0 <= i < xs.drop_last().len() implies is_literal(
                #[trigger] xs.drop_last()[i],
            ) by {
                assert(xs.drop_last()[i] == xs[i]);
            }
            assert forall|i: int| 0 <= i < ops.drop_last().len() implies is_chain_op(
                #[trigger] ops.drop_last()[i],
            ) by {
                assert(ops.drop_last()[i] == ops[i]);
            }
        }
        lemma_attach_left_fold(op, x, xs.drop_last(), ops.drop_last());
        assert(xs2.drop_last() =~= seq![x] + xs.drop_last());
        assert(ops2.drop_last() =~= seq![op] + ops.drop_last());
        assert(left_fold(xs, ops) == binary(
            last,
            left_fold(xs.drop_last(), ops.drop_last()),
            leaf(xs.last()),
        ));
    }
}

proof fn lemma_term_chain(xs: Seq<Token>, ops: Seq<Token>)
    requires
        is_chain(xs, ops),
    ensures
        term_spec(chain_tokens(xs, ops)) == Ok::<(Tree, Seq<Token>), ParseError>(
            (left_fold(xs, ops), Seq::empty()),
        ),
    decreases ops.len(),
{
    let ts = chain_tokens(xs, ops);
    assert(is_literal(xs[0]));
    if ops.len() == 0 {
        assert(ts.drop_first() =~= Seq::<Token>::empty());
        assert(factor_spec(ts) == Ok::<(Tree, Seq<Token>), ParseError>((leaf(xs[0]), ts.drop_first())));
    } else {
        let xs1 = xs.drop_first();
        let ops1 = ops.drop_first();
        let rest = chain_tokens(xs1, ops1);
        assert(is_chain(xs1, ops1)) by {
            assert forall|i: int| 0 <= i < xs1.len() implies is_literal(#[trigger] xs1[i]) by {
                assert(xs1[i] == xs[i + 1]);
            }
            assert forall|i: int| 0 <= i < ops1.len() implies is_chain_op(#[trigger] ops1[i]) by {
                assert(ops1[i] == ops[i + 1]);
            }
        }
        lemma_term_chain(xs1, ops1);
        assert(is_chain_op(ops[0]));
        assert(ts.drop_first() =~= seq![ops[0]] + rest);
        assert(factor_spec(ts) == Ok::<(Tree, Seq<Token>), ParseError>((leaf(xs[0]), ts.drop_first())));
        assert(ts.drop_first().drop_first() =~= rest);
        assert(rest[0] == xs1[0]);
        assert(is_literal(xs1[0]));
        assert(operand_spec(ops[0], leaf(xs[0]), rest, true) == Ok::<(Tree, Seq<Token>), ParseError>(
            (attach(ops[0], leaf(xs[0]), left_fold(xs1, ops1)), Seq::empty()),
        ));
        lemma_attach_left_fold(ops[0], xs[0], xs1, ops1);
        assert(seq![xs[0]] + xs1 =~= xs);
        assert(seq![ops[0]] + ops1 =~= ops);
    }
}

/// A chain of literals joined by `*`, `/` and `mod`, in any mix, parses to
/// the tree that evaluates it strictly from left to right.
pub proof fn law_chain_is_left_to_right(xs: Seq<Token>, ops: Seq<Token>)
    requires
        is_chain(xs, ops),
    ensures
        expr_spec(chain_tokens(xs, ops)) == Ok::<Tree, ParseError>(left_fold(xs, ops)),
{
    lemma_term_chain(xs, ops);
}

/// `a / b / c`, for any literals, parses to `(a / b) / c`.
pub proof fn law_division_left_to_right(a: Token, b: Token, c: Token)
    requires
        is_literal(a),
        is_literal(b),
        is_literal(c),
    ensures
        expr_spec(seq![a, Token::Op('/'), b, Token::Op('/'), c]) == Ok::<Tree, ParseError>(
            binary(Token::Op('/'), binary(Token::Op('/'), leaf(a), leaf(b)), leaf(c)),
        ),
{
    let xs = seq![a, b, c];
    let ops = seq![Token::Op('/'), Token::Op('/')];
    assert(is_chain(xs, ops));
    law_chain_is_left_to_right(xs, ops);
    assert(chain_tokens(xs.drop_first().drop_first(), ops.drop_first().drop_first()) =~= seq![c]);
    assert(chain_tokens(xs.drop_first(), ops.drop_first()) =~= seq![b, Token::Op('/'), c]);
    assert(chain_tokens(xs, ops) =~= seq![a, Token::Op('/'), b, Token::Op('/'), c]);
    assert(xs.drop_last().drop_last() =~= seq![a]);
    assert(ops.drop_last().drop_last() =~= Seq::<Token>::empty());
    assert(xs.drop_last() =~= seq![a, b]);
    assert(ops.drop_last() =~= seq![Token::Op('/')]);
    assert(left_fold(seq![a], Seq::empty()) == leaf(a));
    assert(left_fold(seq![a, b], seq![Token::Op('/')]) == binary(Token::Op('/'), leaf(a), leaf(b)));
}

/// The tokens `xs[0] ^ xs[1] ^ ... ^ xs[n]`.
pub open spec fn power_tokens(xs: Seq<Token>) -> Seq<Token>
    decreases xs.len(),
{
    if xs.len() <= 1 {
        xs
    } else {
        seq![xs[0], Token::Op('^')] + power_tokens(xs.drop_first())
    }
}

/// The tree `xs[0] ^ (xs[1] ^ (... ^ xs[n]))`.
pub open spec fn right_fold_power(xs: Seq<Token>) -> Tree
    decreases xs.len(),
{
    if xs.len() <= 1 {
        leaf(xs[0])
    } else {
        binary(Token::Op('^'), leaf(xs[0]), right_fold_power(xs.drop_first()))
    }
}

proof fn lemma_term_power(xs: Seq<Token>)
    requires
        xs.len() >= 1,
        forall|i: int| 0 <= i < xs.len() ==> is_literal(#[trigger] xs[i]),
    ensures
        term_spec(power_tokens(xs)) == Ok::<(Tree, Seq<Token>), ParseError>(
            (right_fold_power(xs), Seq::empty()),
        ),
    decreases xs.len(),
{
    let ts = power_tokens(xs);
    assert(is_literal(xs[0]));
    if xs.len() == 1 {
        assert(ts =~= seq![xs[0]]);
        assert(ts.drop_first() =~= Seq::<Token>::empty());
        assert(factor_spec(ts) == Ok::<(Tree, Seq<Token>), ParseError>((leaf(xs[0]), ts.drop_first())));
    } else {
        let xs1 = xs.drop_first();
        let rest = power_tokens(xs1);
        assert forall|i: int| 0 <= i < xs1.len() implies is_literal(#[trigger] xs1[i]) by {
            assert(xs1[i] == xs[i + 1]);
        }
        lemma_term_power(xs1);
        assert(ts.drop_first() =~= seq![Token::Op('^')] + rest);
        assert(factor_spec(ts) == Ok::<(Tree, Seq<Token>), ParseError>((leaf(xs[0]), ts.drop_first())));
        assert(ts.drop_first().drop_first() =~= rest);
        assert(is_literal(xs1[0]));
        if xs1.len() == 1 {
            assert(rest =~= seq![xs1[0]]);
        } else {
            assert(rest[0] == xs1[0]);
        }
        assert(operand_spec(Token::Op('^'), leaf(xs[0]), rest, true) == Ok::<(Tree, Seq<Token>), ParseError>(
            (attach(Token::Op('^'), leaf(xs[0]), right_fold_power(xs1)), Seq::empty()),
        ));
    }
}

/// A chain of literals joined by `^` parses to the right-nested tree: no
/// rotation takes place between two `^`.
pub proof fn law_power_is_right_to_left(xs: Seq<Token>)
    requires
        xs.len() >= 1,
        forall|i: int| 0 <= i < xs.len() ==> is_literal(#[trigger] xs[i]),
    ensures
        expr_spec(power_tokens(xs)) == Ok::<Tree, ParseError>(right_fold_power(xs)),
{
    lemma_term_power(xs);
}

/// `a ^ b ^ c`, for any literals, parses to `a ^ (b ^ c)`.
pub proof fn law_power_three(a: Token, b: Token, c: Token)
    requires
        is_literal(a),
        is_literal(b),
        is_literal(c),
    ensures
        expr_spec(seq![a, Token::Op('^'), b, Token::Op('^'), c]) == Ok::<Tree, ParseError>(
            binary(Token::Op('^'), leaf(a), binary(Token::Op('^'), leaf(b), leaf(c))),
        ),
{
    let xs = seq![a, b, c];
    law_power_is_right_to_left(xs);
    assert(xs.drop_first().drop_first() =~= seq![c]);
    assert(xs.drop_first() =~= seq![b, c]);
    assert(power_tokens(seq![c]) =~= seq![c]);
    assert(power_tokens(seq![b, c]) =~= seq![b, Token::Op('^'), c]);
    assert(power_tokens(xs) =~= seq![a, Token::Op('^'), b, Token::Op('^'), c]);
    assert(right_fold_power(seq![c]) == leaf(c));
    assert(right_fold_power(seq![b, c]) == binary(Token::Op('^'), leaf(b), leaf(c)));
}

/// A tree with every grouping mark removed: what evaluation sees.
pub open spec fn ungrouped(t: Tree) -> Tree
    decreases t,
{
    Tree {
        tok: t.tok,
        kids: if t.kids.len() == 0 {
            Seq::empty()
        } else if t.kids.len() == 1 {
            seq![ungrouped(t.kids[0])]
        } else {
            seq![ungrouped(t.kids[0]), ungrouped(t.kids[1])]
        },
        grouped: false,
    }
}

/// Parentheses around the left pair of a chain `a op1 b op2 c` (of `*`, `/`
/// and `mod`) change nothing but the grouping mark: `(a op1 b) op2 c` parses
/// to the tree of `a op1 b op2 c` once marks are removed. Parentheses around
/// the right pair make the right-nested tree, which differs from it.
pub proof fn law_parentheses(a: Token, op1: Token, b: Token, op2: Token, c: Token)
    requires
        is_literal(a),
        is_literal(b),
        is_literal(c),
        is_chain_op(op1),
        is_chain_op(op2),
    ensures
        expr_spec(seq![Token::OpenParen, a, op1, b, Token::CloseParen, op2, c]) == Ok::<
            Tree,
            ParseError,
        >(binary(op2, as_group(binary(op1, leaf(a), leaf(b))), leaf(c))),
        expr_spec(seq![a, op1, b, op2, c]) == Ok::<Tree, ParseError>(
            binary(op2, binary(op1, leaf(a), leaf(b)), leaf(c)),
        ),
        ungrouped(binary(op2, as_group(binary(op1, leaf(a), leaf(b))), leaf(c))) == ungrouped(
            binary(op2, binary(op1, leaf(a), leaf(b)), leaf(c)),
        ),
        expr_spec(seq![a, op1, Token::OpenParen, b, op2, c, Token::CloseParen]) == Ok::<
            Tree,
            ParseError,
        >(binary(op1, leaf(a), as_group(binary(op2, leaf(b), leaf(c))))),
        ungrouped(binary(op1, leaf(a), as_group(binary(op2, leaf(b), leaf(c))))) != ungrouped(
            binary(op2, binary(op1, leaf(a), leaf(b)), leaf(c)),
        ),
{
    let ab = binary(op1, leaf(a), leaf(b));
    let bc = binary(op2, leaf(b), leaf(c));
    // The chains without parentheses.
    let xs = seq![a, b, c];
    let ops = seq![op1, op2];
    assert(is_chain(xs, ops));
    law_chain_is_left_to_right(xs, ops);
    assert(chain_tokens(xs.drop_first().drop_first(), ops.drop_first().drop_first()) =~= seq![c]);
    assert(chain_tokens(xs.drop_first(), ops.drop_first()) =~= seq![b, op2, c]);
    assert(chain_tokens(xs, ops) =~= seq![a, op1, b, op2, c]);
    assert(xs.drop_last() =~= seq![a, b]);
    assert(ops.drop_last() =~= seq![op1]);
    assert(xs.drop_last().drop_last() =~= seq![a]);
    assert(ops.drop_last().drop_last() =~= Seq::<Token>::empty());
    assert(left_fold(seq![a], Seq::empty()) == leaf(a));
    assert(left_fold(seq![a, b], seq![op1]) == ab);
    let xs2 = seq![a, b];
    let ops2 = seq![op1];
    assert(is_chain(xs2, ops2));
    law_chain_is_left_to_right(xs2, ops2);
    assert(chain_tokens(xs2.drop_first(), ops2.drop_first()) =~= seq![b]);
    assert(chain_tokens(xs2, ops2) =~= seq![a, op1, b]);
    let ys = seq![b, c];
    let ops3 = seq![op2];
    assert(is_chain(ys, ops3));
    law_chain_is_left_to_right(ys, ops3);
    assert(chain_tokens(ys.drop_first(), ops3.drop_first()) =~= seq![c]);
    assert(chain_tokens(ys, ops3) =~= seq![b, op2, c]);
    assert(ys.drop_last() =~= seq![b]);
    assert(ops3.drop_last() =~= Seq::<Token>::empty());
    assert(left_fold(seq![b], Seq::empty()) == leaf(b));
    assert(ys.last() == c && ops3.last() == op2);
    assert(left_fold(ys, ops3) == bc);
    // (a op1 b) op2 c
    let t = seq![Token::OpenParen, a, op1, b, Token::CloseParen, op2, c];
    assert(group_close(t, 4, 0) == Some(4int));
    assert(group_close(t, 3, 0) == Some(4int));
    assert(group_close(t, 2, 0) == Some(4int));
    assert(group_close(t, 1, 0) == Some(4int));
    assert(t.subrange(1, 4) =~= seq![a, op1, b]);
    assert(t.skip(5) =~= seq![op2, c]);
    assert(capture_spec(t) == Ok::<(Seq<Token>, Seq<Token>), ParseError>(
        (seq![a, op1, b], seq![op2, c]),
    ));
    assert(factor_spec(t) == Ok::<(Tree, Seq<Token>), ParseError>((as_group(ab), seq![op2, c])));
    assert(seq![op2, c].drop_first() =~= seq![c]);
    assert(seq![c].drop_first() =~= Seq::<Token>::empty());
    assert(factor_spec(seq![c]) == Ok::<(Tree, Seq<Token>), ParseError>((leaf(c), Seq::empty())));
    assert(term_spec(seq![c]) == Ok::<(Tree, Seq<Token>), ParseError>((leaf(c), Seq::empty())));
    assert(operand_spec(op2, as_group(ab), seq![c], true) == Ok::<(Tree, Seq<Token>), ParseError>(
        (binary(op2, as_group(ab), leaf(c)), Seq::empty()),
    ));
    assert(term_spec(t) == Ok::<(Tree, Seq<Token>), ParseError>(
        (binary(op2, as_group(ab), leaf(c)), Seq::empty()),
    ));
    assert(ungrouped(as_group(ab)) == ungrouped(ab));
    assert(ungrouped(binary(op2, as_group(ab), leaf(c))).kids =~= ungrouped(
        binary(op2, ab, leaf(c)),
    ).kids);
    // a op1 (b op2 c)
    let u = seq![Token::OpenParen, b, op2, c, Token::CloseParen];
    assert(group_close(u, 4, 0) == Some(4int));
    assert(group_close(u, 3, 0) == Some(4int));
    assert(group_close(u, 2, 0) == Some(4int));
    assert(group_close(u, 1, 0) == Some(4int));
    assert(u.subrange(1, 4) =~= seq![b, op2, c]);
    assert(u.skip(5) =~= Seq::<Token>::empty());
    assert(capture_spec(u) == Ok::<(Seq<Token>, Seq<Token>), ParseError>(
        (seq![b, op2, c], Seq::empty()),
    ));
    assert(factor_spec(u) == Ok::<(Tree, Seq<Token>), ParseError>((as_group(bc), Seq::empty())));
    assert(term_spec(u) == Ok::<(Tree, Seq<Token>), ParseError>((as_group(bc), Seq::empty())));
    let v = seq![a, op1, Token::OpenParen, b, op2, c, Token::CloseParen];
    assert(v.drop_first() =~= seq![op1] + u);
    assert(v.drop_first().drop_first() =~= u);
    assert(factor_spec(v) == Ok::<(Tree, Seq<Token>), ParseError>((leaf(a), v.drop_first())));
    assert(operand_spec(op1, leaf(a), u, true) == Ok::<(Tree, Seq<Token>), ParseError>(
        (binary(op1, leaf(a), as_group(bc)), Seq::empty()),
    ));
    assert(term_spec(v) == Ok::<(Tree, Seq<Token>), ParseError>(
        (binary(op1, leaf(a), as_group(bc)), Seq::empty()),
    ));
    assert(ungrouped(binary(op1, leaf(a), as_group(bc))).kids[0] == ungrouped(leaf(a)));
    assert(ungrouped(binary(op2, ab, leaf(c))).kids[0] == ungrouped(ab));
    assert(ungrouped(ab).kids.len() == 2);
}

/// Parsing a text twice gives the same answer: the same error, or trees that
/// are equal.
pub proof fn law_reparse_agrees(text: Seq<char>, r1: Result<Ast, ParseError>, r2: Result<Ast, ParseError>)
    requires
        yields(r1, parse_spec(text)),
        yields(r2, parse_spec(text)),
    ensures
        r1 is Ok <==> r2 is Ok,
        r1 is Err ==> r1 == r2,
        r1 is Ok && r2 is Ok ==> r1->Ok_0@ == r2->Ok_0@,
{
}

/// The decimal digit of `d`, for `d < 10`.
pub open spec fn digit_char(d: nat) -> char {
    if d == 0 {
        '0'
    } else if d == 1 {
        '1'
    } else if d == 2 {
        '2'
    } else if d == 3 {
        '3'
    } else if d == 4 {
        '4'
    } else if d == 5 {
        '5'
    } else if d == 6 {
        '6'
    } else if d == 7 {
        '7'
    } else if d == 8 {
        '8'
    } else {
        '9'
    }
}

/// The decimal numeral of `n`, without leading zeros.
pub open spec fn decimal_text(n: nat) -> Seq<char>
    decreases n,
{
    if n < 10 {
        seq![digit_char(n)]
    } else {
        decimal_text(n / 10).push(digit_char(n % 10))
    }
}

proof fn lemma_decimal_text(n: nat)
    ensures
        decimal_text(n).len() >= 1,
        forall|i: int| 0 <= i < decimal_text(n).len() ==> is_digit(#[trigger] decimal_text(n)[i]),
        digits_value(decimal_text(n)) == n,
        count_points(decimal_text(n)) == 0,
    decreases n,
{
    let t = decimal_text(n);
    assert(forall|d: nat| d < 10 ==> (digit_char(d) as nat - '0' as nat) == d && is_digit(
        #[trigger] digit_char(d),
    ));
    if n < 10 {
        assert(t.drop_last() =~= Seq::<char>::empty());
        assert(t.last() == digit_char(n));
        assert(t.last() != '.');
        assert(digits_value(t.drop_last()) == 0);
        assert(count_points(t.drop_last()) == 0);
        assert(digits_value(t) == digits_value(t.drop_last()) * 10 + (t.last() as nat
            - '0' as nat) as nat);
    } else {
        let u = decimal_text(n / 10);
        lemma_decimal_text(n / 10);
        assert(t.drop_last() =~= u);
        assert(t.last() == digit_char(n % 10));
        assert(forall|i: int| 0 <= i < u.len() ==> t[i] == u[i]);
        assert((n / 10) * 10 + n % 10 == n);
        assert(t.last() != '.');
        assert(digits_value(t) == digits_value(u) * 10 + (t.last() as nat - '0' as nat) as nat);
    }
}

proof fn lemma_num_end_over_digits(s: Seq<char>, p: int, q: int)
    requires
        0 <= p <= q <= s.len(),
        forall|i: int| p <= i < q ==> is_digit(#[trigger] s[i]),
        q == s.len() || !is_num_char(s[q]),
    ensures
        num_end(s, p) == q,
    decreases q - p,
{
    if p < q {
        lemma_num_end_over_digits(s, p + 1, q);
    }
}

/// The numeral of `n` at position `p` of `s`, followed by the end of `s` or by
/// a character that no numeral holds, scans as the integer `n`.
proof fn lemma_scan_numeral(s: Seq<char>, p: int, n: nat)
    requires
        0 < n <= i64::MAX,
        0 <= p,
        p + decimal_text(n).len() <= s.len(),
        s.subrange(p, p + decimal_text(n).len()) == decimal_text(n),
        p + decimal_text(n).len() == s.len() || !is_num_char(s[p + decimal_text(n).len()]),
    ensures
        scan_token(s, p) == (Token::Int(n as i64), p + decimal_text(n).len()),
{
    let t = decimal_text(n);
    let q = p + t.len();
    lemma_decimal_text(n);
    assert(s[p] == t[0]);
    assert(skip_spaces(s, p) == p);
    assert forall|i: int| p <= i < q implies is_digit(#[trigger] s[i]) by {
        assert(s[i] == t[i - p]);
    }
    lemma_num_end_over_digits(s, p, q);
    assert(number_token(t) == Token::Int(n as i64));
}

/// The numerals of three positive integers joined by `/` parse to the
/// left-nested division `(a / b) / c`, which evaluates the chain from left
/// to right.
pub proof fn law_division_text(a: nat, b: nat, c: nat)
    requires
        0 < a <= i64::MAX,
        0 < b <= i64::MAX,
        0 < c <= i64::MAX,
    ensures
        parse_spec(decimal_text(a) + seq!['/'] + decimal_text(b) + seq!['/'] + decimal_text(c))
            == Ok::<Tree, ParseError>(
            binary(
                Token::Op('/'),
                binary(Token::Op('/'), leaf(Token::Int(a as i64)), leaf(Token::Int(b as i64))),
                leaf(Token::Int(c as i64)),
            ),
        ),
{
    let da = decimal_text(a);
    let db = decimal_text(b);
    let dc = decimal_text(c);
    let s = da + seq!['/'] + db + seq!['/'] + dc;
    lemma_decimal_text(a);
    lemma_decimal_text(b);
    lemma_decimal_text(c);
    let slash1 = da.len() as int;
    let b_at = slash1 + 1;
    let slash2 = b_at + db.len();
    let c_at = slash2 + 1;
    let end = s.len() as int;
    assert(end == c_at + dc.len());
    assert(s.subrange(0, slash1) =~= da);
    assert(s[slash1] == '/');
    lemma_scan_numeral(s, 0, a);
    assert(s.subrange(b_at, slash2) =~= db);
    assert(s[slash2] == '/');
    lemma_scan_numeral(s, b_at, b);
    assert(s.subrange(c_at, end) =~= dc);
    lemma_scan_numeral(s, c_at, c);
    assert(s[b_at] == db[0]);
    assert(!is_space(s[slash1]) && !is_space(s[slash2]));
    assert(skip_spaces(s, slash1) == slash1);
    assert(skip_spaces(s, slash2) == slash2);
    assert(scan_token(s, slash1) == (Token::Op('/'), b_at));
    assert(scan_token(s, slash2) == (Token::Op('/'), c_at));
    assert(skip_spaces(s, end) == end);
    assert(tokens_from(s, end) =~= Seq::<Token>::empty());
    let ia = Token::Int(a as i64);
    let ib = Token::Int(b as i64);
    let ic = Token::Int(c as i64);
    let sl = Token::Op('/');
    assert(tokens_from(s, c_at) =~= seq![ic]);
    assert(tokens_from(s, slash2) =~= seq![sl, ic]);
    assert(tokens_from(s, b_at) =~= seq![ib, sl, ic]);
    assert(tokens_from(s, slash1) =~= seq![sl, ib, sl, ic]);
    assert(tokens_from(s, 0) =~= seq![ia, sl, ib, sl, ic]);
    assert(tokens_of(s) == seq![ia, sl, ib, sl, ic]);
    law_division_left_to_right(ia, ib, ic);
}

} // verus!
