//! Expression trees, their mathematical model, and their canonical rendering.
use vstd::prelude::*;
use vstd::string::*;

verus! {

/// The side towards which a pair of adjacent operators groups.
#[derive(Debug, Eq, PartialEq, Hash, Clone, Copy, Structural)]
pub enum Associativity {
    Left,
    Right,
}

/// Why a parse stopped without a tree.
#[derive(Debug, PartialEq, Eq)]
pub enum Error {
    /// Two operators collided and neither a declaration nor a default
    /// relates them. Holds the left and the right operator.
    UndefinedAssociativity(String, String),
    /// A token was needed and the input held none.
    EOF,
    /// An infix operator that binds tighter than the operand before it had
    /// to be spliced into that operand, which is a bare name with no right
    /// child to splice into. Holds the operand and the operator.
    InvalidInfixSplice(String, String),
}

/// The mathematical value of an [`Error`].
pub enum ErrorView {
    UndefinedAssociativity(Seq<char>, Seq<char>),
    EndOfInput,
    InvalidInfixSplice(Seq<char>, Seq<char>),
}

impl View for Error {
    type V = ErrorView;

    open spec fn view(&self) -> ErrorView {
        match self {
            Error::UndefinedAssociativity(l, r) => ErrorView::UndefinedAssociativity(l@, r@),
            Error::EOF => ErrorView::EndOfInput,
            Error::InvalidInfixSplice(l, r) => ErrorView::InvalidInfixSplice(l@, r@),
        }
    }
}

/// A binary application tree over names.
///
/// `App(f, x)` applies `f` to `x`. A prefix application of `op` to `x` is
/// `App(op, x)`; an infix application of `op` to `l` and `r` is
/// `App(App(op, l), r)`.
#[derive(Debug, Eq, PartialEq, Hash)]
pub enum Expr {
    Name(String),
    App(Box<Expr>, Box<Expr>),
}

/// The mathematical value of an [`Expr`]: the same tree over character
/// sequences.
pub enum Tree {
    Name(Seq<char>),
    App(Box<Tree>, Box<Tree>),
}

impl Tree {
    /// The name at the end of the left spine: the tree's identity when its
    /// binding strength is compared with another operator's.
    pub open spec fn head(self) -> Seq<char>
        decreases self,
    {
        match self {
            Tree::Name(n) => n,
            Tree::App(l, _) => l.head(),
        }
    }

    /// The number of names in the tree.
    pub open spec fn leaves(self) -> nat
        decreases self,
    {
        match self {
            Tree::Name(_) => 1,
            Tree::App(l, r) => l.leaves() + r.leaves(),
        }
    }

    /// The canonical text of the tree: a name stands for itself, and an
    /// application is `(`, the left subtree, one space, the right subtree, `)`.
    pub open spec fn rendering(self) -> Seq<char>
        decreases self,
    {
        match self {
            Tree::Name(n) => n,
            Tree::App(l, r) => seq!['('] + l.rendering() + seq![' '] + r.rendering() + seq![')'],
        }
    }
}

impl Expr {
    /// The tree that this expression stands for.
    pub open spec fn tree(&self) -> Tree
        decreases self,
    {
        match self {
            Expr::Name(n) => Tree::Name(n@),
            Expr::App(l, r) => Tree::App(Box::new(l.tree()), Box::new(r.tree())),
        }
    }
}

impl View for Expr {
    type V = Tree;

    open spec fn view(&self) -> Tree {
        self.tree()
    }
}

/// Returns the name at the end of the left spine of `expr`.
pub fn leftmost(expr: &Expr) -> (name: &String)
    ensures
        name@ == expr@.head(),
    decreases expr,
{
    match expr {
        Expr::Name(name) => name,
        Expr::App(left, _) => leftmost(left),
    }
}

/// Appends the canonical text of `expr` to `out`.
fn render_into(expr: &Expr, out: &mut String)
    ensures
        final(out)@ == old(out)@ + expr@.rendering(),
    decreases expr,
{
    match expr {
        Expr::Name(name) => {
            out.append(name.as_str());
        },
        Expr::App(left, right) => {
            proof {
                reveal_strlit("(");
                reveal_strlit(" ");
                reveal_strlit(")");
            }
            let ghost before = out@;
            out.append("(");
            render_into(left, out);
            out.append(" ");
            render_into(right, out);
            out.append(")");
            assert(out@ =~= before + expr@.rendering()) by {
                assert("("@ =~= seq!['(']);
                assert(" "@ =~= seq![' ']);
                assert(")"@ =~= seq![')']);
            }
        },
    }
}

/// Returns the canonical text of `expr`.
pub fn render(expr: &Expr) -> (text: String)
    ensures
        text@ == expr@.rendering(),
{
    let mut text = String::new();
    render_into(expr, &mut text);
    assert(text@ =~= expr@.rendering());
    text
}

} // verus!
