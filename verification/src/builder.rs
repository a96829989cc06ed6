//! The expression builder: combining a stream of tokens into one application
//! tree, by asking the context how each new token groups with what has been
//! built so far.
use crate::context::Context;
use crate::context::Order;
use crate::expr::leftmost;
use crate::expr::Associativity;
use crate::expr::Error;
use crate::expr::ErrorView;
use crate::expr::Expr;
use crate::expr::Tree;
use crate::reader::expr_token;
use crate::reader::lemma_scan;
use crate::reader::scan;
use crate::reader::skip_whitespace;
use vstd::prelude::*;

verus! {

/// What building yields: a tree, or the text that was still unread when it
/// failed together with the reason.
pub type Built = Result<Tree, (Seq<char>, ErrorView)>;

/// What one step yields: the tree so far and the text still to be read, or
/// a failure as in [`Built`].
pub type Stepped = Result<(Tree, Seq<char>), (Seq<char>, ErrorView)>;

/// Whether `tree` is a bare name that is infix by default.
pub open spec fn is_infix_name(order: Order, tree: Tree) -> bool {
    tree is Name && order.infix.contains(tree->Name_0)
}

/// The application of one tree to the other. An infix operator goes in
/// front of what stands to its left, so that its right operand can follow;
/// anything else is applied to from the left.
pub open spec fn joined(order: Order, left: Tree, right: Tree) -> Tree {
    if is_infix_name(order, right) {
        Tree::App(Box::new(right), Box::new(left))
    } else {
        Tree::App(Box::new(left), Box::new(right))
    }
}

/// The tree that grows from `left` when the tokens of `input` are combined
/// with it one after the other.
///
/// With no token left, the tree is `left`. Otherwise the next token `right`
/// is compared with the head of `left`:
///
/// - where they do not compare, building fails with what follows the token;
/// - where they group to the left, `right` is joined to the whole of `left`
///   and building goes on from there;
/// - where they group to the right, `right` takes the rest of the input
///   with it: see [`spliced`].
pub open spec fn built(order: Order, left: Tree, input: Seq<char>) -> Built
    decreases input.len(), 0nat,
{
    match scan(input) {
        None => Ok(left),
        Some((name, rest)) => {
            proof {
                lemma_scan(input);
            }
            let right = Tree::Name(name);
            match order.associativity(left.head(), name) {
                None => Err((rest, ErrorView::UndefinedAssociativity(left.head(), name))),
                Some(Associativity::Left) => built(order, joined(order, left, right), rest),
                Some(Associativity::Right) => spliced(order, left, right, rest),
            }
        },
    }
}

/// The tree that results when `right`, which binds tighter than the head of
/// `base`, is followed by `rest`.
///
/// An infix `right` is spliced into `base`: it takes the right child of
/// `base` as its left operand, grows by the rest of the input, and the
/// result becomes the new right child. A `base` that is a bare name has no
/// right child, and the splice fails. Any other `right` grows by the rest of
/// the input and the result becomes the argument of `base`.
pub open spec fn spliced(order: Order, base: Tree, right: Tree, rest: Seq<char>) -> Built
    decreases rest.len(), 1nat,
{
    if is_infix_name(order, right) {
        match base {
            Tree::Name(operand) => Err((rest, ErrorView::InvalidInfixSplice(operand, right.head()))),
            Tree::App(head, operand) => match built(order, joined(order, *operand, right), rest) {
                Ok(sub) => Ok(Tree::App(head, Box::new(sub))),
                Err(failure) => Err(failure),
            },
        }
    } else {
        match built(order, right, rest) {
            Ok(sub) => Ok(Tree::App(Box::new(base), Box::new(sub))),
            Err(failure) => Err(failure),
        }
    }
}

/// One step of building: `right` has been read and `rest` follows it.
///
/// Grouping to the left joins the two and leaves `rest` to be read. Grouping
/// to the right reads all of it.
pub open spec fn stepped(order: Order, base: Tree, right: Tree, rest: Seq<char>) -> Stepped {
    match order.associativity(base.head(), right.head()) {
        None => Err((rest, ErrorView::UndefinedAssociativity(base.head(), right.head()))),
        Some(Associativity::Left) => Ok((joined(order, base, right), rest)),
        Some(Associativity::Right) => match spliced(order, base, right, rest) {
            Ok(tree) => Ok((tree, Seq::empty())),
            Err(failure) => Err(failure),
        },
    }
}

/// The tree that `input` parses to: its first token, grown by all the others.
/// An input without a token fails with [`ErrorView::EndOfInput`].
pub open spec fn parsed(order: Order, input: Seq<char>) -> Built {
    match scan(input) {
        None => Err((skip_whitespace(input), ErrorView::EndOfInput)),
        Some((name, rest)) => built(order, Tree::Name(name), rest),
    }
}

/// Whether the result `got`, with `left` of the text unread, is what
/// `expected` says.
pub open spec fn agrees(expected: Built, got: Result<Box<Expr>, (String, Error)>, left: Seq<char>) -> bool {
    match expected {
        Ok(tree) => got is Ok && got->Ok_0@ == tree && left == Seq::<char>::empty(),
        Err((unread, reason)) => got is Err && got->Err_0.0@ == unread && got->Err_0.1@ == reason
            && left == unread,
    }
}

/// Returns how the heads of `a` and `b` group, or the error that they do not
/// compare, which carries `input`.
pub fn associativity(context: &Context, a: &Expr, b: &Expr, input: &&str) -> (found: Result<
    Associativity,
    (String, Error),
>)
    requires
        context.wf(),
    ensures
        match context@.associativity(a@.head(), b@.head()) {
            Some(side) => found == Ok::<Associativity, (String, Error)>(side),
            None => {
                &&& found is Err
                &&& found->Err_0.0@ == input@
                &&& found->Err_0.1@ == ErrorView::UndefinedAssociativity(a@.head(), b@.head())
            },
        },
{
    context.get_associativity(leftmost(a).as_str(), leftmost(b).as_str(), input)
}

/// Returns whether `e` is a bare name that is infix by default.
pub fn infix(context: &Context, e: &Expr) -> (found: bool)
    ensures
        found == is_infix_name(context@, e@),
{
    match e {
        Expr::Name(name) => context.is_infix(name.as_str()),
        Expr::App(_, _) => false,
    }
}

/// Applies one expression to the other: `r` to `l` where `r` is an infix
/// operator, else `l` to `r`.
pub fn combine(context: &Context, l: Box<Expr>, r: Box<Expr>) -> (both: Box<Expr>)
    ensures
        both@ == joined(context@, l@, r@),
{
    let flip = infix(context, &r);
    Box::new(
        if flip {
            Expr::App(r, l)
        } else {
            Expr::App(l, r)
        },
    )
}

/// Takes one step: combines `right`, which was just read, with `base`.
///
/// Where the two group to the right, the step reads the rest of `input`.
/// Fails where the heads do not compare or an infix operator cannot be
/// spliced; the error carries the text that was unread then.
pub fn append(context: &Context, base: Box<Expr>, right: Box<Expr>, input: &mut &str) -> (grown:
    Result<Box<Expr>, (String, Error)>)
    requires
        context.wf(),
    ensures
        match stepped(context@, base@, right@, old(input)@) {
            Ok((tree, unread)) => grown is Ok && grown->Ok_0@ == tree && final(input)@ == unread,
            Err((unread, reason)) => grown is Err && grown->Err_0.0@ == unread
                && grown->Err_0.1@ == reason && final(input)@ == unread,
        },
    decreases old(input)@.len(), 2nat,
{
    let unread: &str = *input;
    match associativity(context, &base, &right, &unread) {
        Err(failure) => Err(failure),
        Ok(Associativity::Left) => Ok(append_left(context, base, right)),
        Ok(Associativity::Right) => append_right(context, base, right, input),
    }
}

/// Combines `right` with `base` where the two group to the left: `right`
/// closes over all of `base`.
pub fn append_left(context: &Context, base: Box<Expr>, right: Box<Expr>) -> (grown: Box<Expr>)
    ensures
        grown@ == joined(context@, base@, right@),
{
    combine(context, base, right)
}

/// Combines `right` with `base` where the two group to the right: `right`
/// first grows by the rest of `input`, inside `base` where it is infix and
/// as the argument of `base` where it is not.
pub fn append_right(context: &Context, base: Box<Expr>, right: Box<Expr>, input: &mut &str) -> (grown:
    Result<Box<Expr>, (String, Error)>)
    requires
        context.wf(),
    ensures
        agrees(spliced(context@, base@, right@, old(input)@), grown, final(input)@),
    decreases old(input)@.len(), 1nat,
{
    if infix(context, &right) {
        let whole: Expr = *base;
        match whole {
            Expr::Name(operand) => {
                let unread: &str = *input;
                Err((unread.to_owned(), Error::InvalidInfixSplice(operand, leftmost(&right).clone())))
            },
            Expr::App(head, operand) => {
                let seed = combine(context, operand, right);
                match build(context, seed, input) {
                    Ok(sub) => Ok(Box::new(Expr::App(head, sub))),
                    Err(failure) => Err(failure),
                }
            },
        }
    } else {
        match build(context, right, input) {
            Ok(sub) => Ok(Box::new(Expr::App(base, sub))),
            Err(failure) => Err(failure),
        }
    }
}

/// Grows `base` by all the tokens of `input`.
pub fn build(context: &Context, base: Box<Expr>, input: &mut &str) -> (grown: Result<
    Box<Expr>,
    (String, Error),
>)
    requires
        context.wf(),
    ensures
        agrees(built(context@, base@, old(input)@), grown, final(input)@),
    decreases old(input)@.len(), 0nat,
{
    let ghost goal = built(context@, base@, old(input)@);
    let mut left = base;
    loop
        invariant
            context.wf(),
            input@.len() <= old(input)@.len(),
            goal == built(context@, base@, old(input)@),
            built(context@, left@, input@) == goal,
        decreases input@.len(),
    {
        proof {
            lemma_scan(input@);
            // A step to the right leaves nothing to read, and nothing grows
            // from nothing.
            assert(scan(Seq::<char>::empty()) is None);
        }
        match expr_token(input) {
            Err(_) => {
                assert(input@ =~= Seq::<char>::empty());
                return Ok(left);
            },
            Ok(right) => {
                match append(context, left, right, input) {
                    Err(failure) => {
                        return Err(failure);
                    },
                    Ok(next) => {
                        left = next;
                    },
                }
            },
        }
    }
}

/// Parses `input` into one expression.
///
/// Reads all of `input`. Fails with [`Error::EOF`] where it holds no token,
/// with [`Error::UndefinedAssociativity`] where two operators meet that
/// neither a declaration nor a default relates, and with
/// [`Error::InvalidInfixSplice`] where an infix operator binds tighter than a
/// bare name before it. The error carries the text that was unread then, and
/// `input` is left there.
pub fn parse(context: &Context, input: &mut &str) -> (result: Result<Box<Expr>, (String, Error)>)
    requires
        context.wf(),
    ensures
        agrees(parsed(context@, old(input)@), result, final(input)@),
{
    proof {
        lemma_scan(input@);
    }
    let base = match expr_token(input) {
        Ok(first) => first,
        Err(failure) => {
            return Err(failure);
        },
    };
    build(context, base, input)
}

} // verus!
