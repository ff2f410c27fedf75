//! Expression trees, and the rotation that keeps chains of operators
//! evaluating left to right.
use vstd::prelude::*;

use crate::lex::Token;

verus! {

/// The mathematical value of an expression tree.
pub struct Tree {
    /// The operator of the node, or the literal of a leaf.
    pub tok: Token,
    /// The operands, in order: none for a literal, one for a unary
    /// operator, two for a binary one.
    pub kids: Seq<Tree>,
    /// Whether the user wrote this subtree inside parentheses.
    pub grouped: bool,
}

/// A literal, or an operator over no operands yet.
pub open spec fn leaf(t: Token) -> Tree {
    Tree { tok: t, kids: Seq::empty(), grouped: false }
}

/// A unary node.
pub open spec fn unary(op: Token, operand: Tree) -> Tree {
    Tree { tok: op, kids: seq![operand], grouped: false }
}

/// A binary node, as it stands: no rotation.
pub open spec fn binary(op: Token, left: Tree, right: Tree) -> Tree {
    Tree { tok: op, kids: seq![left, right], grouped: false }
}

/// The same tree, marked as written inside parentheses.
pub open spec fn as_group(t: Tree) -> Tree {
    Tree { grouped: true, ..t }
}

/// The pairs (parent operator, operator of the new right operand) for which
/// a rotation takes place. `+` and `-` appear in none of them.
pub open spec fn rotates(parent: Token, child: Token) -> bool {
    match (parent, child) {
        (Token::Op('/'), Token::Op('/')) => true,
        (Token::Op('/'), Token::Modulus) => true,
        (Token::Op('/'), Token::Op('*')) => true,
        (Token::Op('*'), Token::Op('*')) => true,
        (Token::Op('*'), Token::Op('/')) => true,
        (Token::Op('*'), Token::Modulus) => true,
        (Token::Op('^'), Token::Op('*')) => true,
        (Token::Op('^'), Token::Op('/')) => true,
        (Token::Op('^'), Token::Modulus) => true,
        (Token::Op('%'), Token::Op('*')) => true,
        (Token::Op('%'), Token::Op('/')) => true,
        (Token::Modulus, Token::Modulus) => true,
        (Token::Modulus, Token::Op('*')) => true,
        (Token::Modulus, Token::Op('/')) => true,
        _ => false,
    }
}

/// The node `op(left, right)`, rotated where it must be: when `right` is an
/// ungrouped binary node whose operator rotates under `op`, `op` takes
/// `right`'s left operand instead, and `right`'s operator becomes the root:
/// `op(l, rop(rl, rr))` becomes `rop(op(l, rl), rr)`, and so on down the left
/// side of `right`.
pub open spec fn attach(op: Token, left: Tree, right: Tree) -> Tree
    decreases right,
{
    if !right.grouped && right.kids.len() == 2 && rotates(op, right.tok) {
        binary(right.tok, attach(op, left, right.kids[0]), right.kids[1])
    } else {
        binary(op, left, right)
    }
}

/// `node` with one more operand: the first is put in place; the second
/// completes a binary node through `attach`.
pub open spec fn push_tree(node: Tree, child: Tree) -> Tree {
    if node.kids.len() == 0 {
        Tree { kids: seq![child], ..node }
    } else {
        let a = attach(node.tok, node.kids[0], child);
        Tree { tok: a.tok, kids: a.kids, grouped: node.grouped }
    }
}

/// A node built from an operator and up to two operands, pushed in order.
pub open spec fn from_trees(t: Token, kids: Seq<Tree>) -> Tree {
    if kids.len() == 0 {
        leaf(t)
    } else if kids.len() == 1 {
        unary(t, kids[0])
    } else {
        attach(t, kids[0], kids[1])
    }
}

/// A node of an expression tree.
#[derive(Debug)]
pub struct Ast {
    /// The operator of the node, or the literal of a leaf.
    pub tok: Token,
    /// The operands, in order.
    pub children: Vec<Ast>,
    /// Whether the user wrote this subtree inside parentheses; such a
    /// subtree is never rotated against.
    pub grouped: bool,
}

impl Ast {
    /// The tree that this node stands for.
    pub open spec fn tree(self) -> Tree
        decreases self,
    {
        let n = self.children.len();
        Tree {
            tok: self.tok,
            kids: if n == 0 {
                Seq::empty()
            } else if n == 1 {
                seq![self.children@[0].tree()]
            } else {
                seq![self.children@[0].tree(), self.children@[1].tree()]
            },
            grouped: self.grouped,
        }
    }

    /// Every node has at most two operands.
    pub open spec fn wf(self) -> bool
        decreases self,
    {
        let n = self.children.len();
        &&& n <= 2
        &&& n > 0 ==> self.children@[0].wf()
        &&& n > 1 ==> self.children@[1].wf()
    }
}

impl View for Ast {
    type V = Tree;

    open spec fn view(&self) -> Tree {
        self.tree()
    }
}

/// Whether a rotation takes place for these two operators.
fn can_rotate(parent: Token, child: Token) -> (r: bool)
    ensures
        r == rotates(parent, child),
{
    match (parent, child) {
        (Token::Op('/'), Token::Op('/'))
        | (Token::Op('/'), Token::Modulus)
        | (Token::Op('/'), Token::Op('*'))
        | (Token::Op('*'), Token::Op('*'))
        | (Token::Op('*'), Token::Op('/'))
        | (Token::Op('*'), Token::Modulus)
        | (Token::Op('^'), Token::Op('*'))
        | (Token::Op('^'), Token::Op('/'))
        | (Token::Op('^'), Token::Modulus)
        | (Token::Op('%'), Token::Op('*'))
        | (Token::Op('%'), Token::Op('/'))
        | (Token::Modulus, Token::Modulus)
        | (Token::Modulus, Token::Op('*'))
        | (Token::Modulus, Token::Op('/')) => true,
        _ => false,
    }
}

/// Builds `op(left, right)` with the rotations of `attach`.
fn attach_nodes(op: Token, left: Ast, right: Ast) -> (r: Ast)
    requires
        left.wf(),
        right.wf(),
    ensures
        r.wf(),
        r@ == attach(op, left@, right@),
    decreases right,
{
    if !right.grouped && right.children.len() == 2 && can_rotate(op, right.tok) {
        let ghost whole = right;
        let Ast { tok, children, grouped: _ } = right;
        let mut children = children;
        let rr = children.pop().unwrap();
        let rl = children.pop().unwrap();
        assert(rl == whole.children@[0]);
        let new_left = attach_nodes(op, left, rl);
        let r = Ast { tok, children: vec![new_left, rr], grouped: false };
        assert(r@.kids =~= seq![attach(op, left@, whole@.kids[0]), whole@.kids[1]]);
        r
    } else {
        let r = Ast { tok: op, children: vec![left, right], grouped: false };
        assert(r@.kids =~= seq![left@, right@]);
        r
    }
}

/// The trees of a sequence of nodes.
pub open spec fn trees_of(nodes: Seq<Ast>) -> Seq<Tree> {
    nodes.map_values(|a: Ast| a@)
}

impl Ast {
    /// A node with no operands.
    pub fn new(t: Token) -> (r: Ast)
        ensures
            r.wf(),
            r@ == leaf(t),
            r.children.len() == 0,
    {
        let r = Ast { tok: t, children: Vec::new(), grouped: false };
        assert(r@.kids =~= Seq::<Tree>::empty());
        r
    }

    /// A node over up to two operands, pushed in order (see `push`).
    pub fn from(t: Token, children: Vec<Ast>) -> (r: Ast)
        requires
            children.len() <= 2,
            forall|i: int| 0 <= i < children.len() ==> (#[trigger] children@[i]).wf(),
        ensures
            r.wf(),
            r@ == from_trees(t, trees_of(children@)),
    {
        let ghost kids = trees_of(children@);
        let mut children = children;
        let mut ast = Ast::new(t);
        if children.len() == 2 {
            let second = children.pop().unwrap();
            let first = children.pop().unwrap();
            ast.push(first);
            ast.push(second);
            assert(ast@.kids =~= attach(t, kids[0], kids[1]).kids);
        } else if children.len() == 1 {
            let first = children.pop().unwrap();
            ast.push(first);
            assert(ast@.kids =~= seq![kids[0]]);
        }
        ast
    }

    /// Adds an operand. The first is put in place. The second completes a
    /// binary node, and is rotated against where `attach` says so; a grouped
    /// operand never is.
    pub fn push(&mut self, ast: Ast)
        requires
            old(self).wf(),
            old(self).children.len() < 2,
            ast.wf(),
        ensures
            final(self).wf(),
            final(self)@ == push_tree(old(self)@, ast@),
            final(self).children.len() == old(self).children.len() + 1,
    {
        if self.children.len() == 0 {
            self.children.push(ast);
            assert(self@.kids =~= seq![ast@]);
        } else {
            let left = self.children.pop().unwrap();
            let tok = self.tok;
            let r = attach_nodes(tok, left, ast);
            let Ast { tok, children, grouped: _ } = r;
            self.tok = tok;
            self.children = children;
            assert(self@.kids =~= r@.kids);
        }
    }

    /// A copy of this node and all below it.
    fn copy(&self) -> (r: Ast)
        requires
            self.wf(),
        ensures
            r.wf(),
            r@ == self@,
        decreases self,
    {
        let mut children: Vec<Ast> = Vec::new();
        if self.children.len() > 0 {
            children.push(self.children[0].copy());
        }
        if self.children.len() > 1 {
            children.push(self.children[1].copy());
        }
        let r = Ast { tok: self.tok, children, grouped: self.grouped };
        assert(r@.kids =~= self@.kids);
        r
    }

    /// A copy of this node marked as written inside parentheses.
    pub fn as_grouped(&self) -> (r: Ast)
        requires
            self.wf(),
        ensures
            r.wf(),
            r@ == as_group(self@),
    {
        let mut r = self.copy();
        r.grouped = true;
        assert(r@.kids =~= self@.kids);
        r
    }
}

} // verus!
