//! What holds of every order and of every input, proved from the definitions
//! that the contracts of the other modules are stated in.
use crate::builder::built;
use crate::builder::joined;
use crate::builder::parsed;
use crate::builder::spliced;
use crate::context::Order;
use crate::expr::Associativity;
use crate::expr::ErrorView;
use crate::expr::Tree;
use crate::graph::acyclic;
use crate::graph::has_edge;
use crate::graph::lemma_edge_reaches;
use crate::graph::lemma_no_edges;
use crate::graph::lemma_reaches_one_way;
use crate::graph::reaches;
use crate::reader::alphabetic_run;
use crate::reader::is_alphabetic_char;
use crate::reader::lemma_alphabetic_run;
use crate::reader::lemma_alphabetic_run_is;
use crate::reader::lemma_scan;
use crate::reader::scan;
use crate::reader::skip_whitespace;
use vstd::prelude::*;

verus! {

/// The order that results from making the declarations `pairs`, each
/// "first binds tighter than second", one after the other.
pub open spec fn declared_all(order: Order, pairs: Seq<(Seq<char>, Seq<char>)>) -> Order
    decreases pairs.len(),
{
    if pairs.len() == 0 {
        order
    } else {
        declared_all(order, pairs.drop_last()).declare_tighter(pairs.last().0, pairs.last().1)
    }
}

/// Acyclicity: whatever declarations are made, in whatever order, starting
/// from nothing, the relations never form a cycle.
pub proof fn law_declarations_never_cycle(pairs: Seq<(Seq<char>, Seq<char>)>)
    ensures
        declared_all(Order::empty(), pairs).wf(),
        acyclic(declared_all(Order::empty(), pairs).edges),
    decreases pairs.len(),
{
    if pairs.len() == 0 {
        lemma_no_edges(0, 0);
    } else {
        law_declarations_never_cycle(pairs.drop_last());
        declared_all(Order::empty(), pairs.drop_last()).lemma_declare_tighter_wf(
            pairs.last().0,
            pairs.last().1,
        );
    }
}

/// A declaration that would close a cycle is refused and changes nothing:
/// that is the case where `second` already leads to `first`, and where the
/// two are one operator.
pub proof fn law_cycle_is_refused(order: Order, first: Seq<char>, second: Seq<char>)
    requires
        order.tighter(second, first) || first == second,
    ensures
        !order.admits_tighter(first, second),
        order.declare_tighter(first, second) == order,
{
}

/// An accepted declaration holds afterwards, and the reverse declaration is
/// then refused.
pub proof fn law_accepted_declaration_holds(order: Order, first: Seq<char>, second: Seq<char>)
    requires
        order.wf(),
        order.admits_tighter(first, second),
    ensures
        order.declare_tighter(first, second).tighter(first, second),
        !order.declare_tighter(first, second).tighter(second, first),
        !order.declare_tighter(first, second).admits_tighter(second, first),
{
    let one = order.with_name(first);
    order.lemma_with_name(first);
    let named = one.with_name(second);
    one.lemma_with_name(second);
    assert(named.knows(first) && named.knows(second));
    let f = named.node_of(first);
    let s = named.node_of(second);
    let after = order.declare_tighter(first, second);
    order.lemma_declare_tighter_wf(first, second);
    assert(after.names == named.names);
    if named.edges.contains((f, s)) {
        assert(has_edge(after.edges, f, s));
    } else {
        assert(after.edges[named.edges.len() as int] == (f, s));
        assert(has_edge(after.edges, f, s));
    }
    lemma_edge_reaches(after.edges, f, s);
    after.lemma_tighter_by_nodes(first, second, f, s);
    after.lemma_tighter_by_nodes(second, first, s, f);
    lemma_reaches_one_way(after.edges, f, s);
}

/// Mutual exclusion of reachability: in a well-formed order, of two
/// different nodes at most one reaches the other.
pub proof fn law_reachability_is_one_way(order: Order, x: int, y: int)
    requires
        order.wf(),
        x != y,
    ensures
        !(reaches(order.edges, x, y) && reaches(order.edges, y, x)),
{
    lemma_reaches_one_way(order.edges, x, y);
}

/// Mutual exclusion of reachability, by name: in a well-formed order, of
/// two different operators at most one leads to the other.
pub proof fn law_tighter_is_one_way(order: Order, x: Seq<char>, y: Seq<char>)
    requires
        order.wf(),
        x != y,
    ensures
        !(order.tighter(x, y) && order.tighter(y, x)),
{
    if order.tighter(x, y) && order.tighter(y, x) {
        let (i, j) = choose|i: int, j: int|
            0 <= i < order.names.len() && 0 <= j < order.names.len() && #[trigger] order.names[i]
                == x && #[trigger] order.names[j] == y && reaches(order.edges, i, j);
        order.lemma_tighter_by_nodes(y, x, j, i);
        lemma_reaches_one_way(order.edges, i, j);
    }
}

/// Default associativity: two operators that no declaration relates group
/// by infix membership alone. Infix before not infix groups to the left,
/// not infix before infix to the right, two that are not infix to the left,
/// and two infix operators do not group at all.
pub proof fn law_default_associativity(order: Order, left: Seq<char>, right: Seq<char>)
    requires
        order.defined_associativity(left, right) is None,
    ensures
        order.infix.contains(left) && !order.infix.contains(right) ==> order.associativity(
            left,
            right,
        ) == Some(Associativity::Left),
        !order.infix.contains(left) && order.infix.contains(right) ==> order.associativity(
            left,
            right,
        ) == Some(Associativity::Right),
        !order.infix.contains(left) && !order.infix.contains(right) ==> order.associativity(
            left,
            right,
        ) == Some(Associativity::Left),
        order.infix.contains(left) && order.infix.contains(right) ==> order.associativity(
            left,
            right,
        ) is None,
{
}

/// A splice that succeeds yields an application.
pub proof fn lemma_spliced_is_application(order: Order, base: Tree, right: Tree, rest: Seq<char>)
    ensures
        spliced(order, base, right, rest) is Ok ==> spliced(order, base, right, rest)->Ok_0 is App,
{
}

/// Building from an application yields an application.
pub proof fn lemma_built_from_application(order: Order, left: Tree, input: Seq<char>)
    requires
        left is App,
        built(order, left, input) is Ok,
    ensures
        built(order, left, input)->Ok_0 is App,
    decreases input.len(),
{
    match scan(input) {
        None => {},
        Some((name, rest)) => {
            lemma_scan(input);
            let right = Tree::Name(name);
            if order.associativity(left.head(), name) == Some(Associativity::Left) {
                lemma_built_from_application(order, joined(order, left, right), rest);
            } else {
                lemma_spliced_is_application(order, left, right, rest);
            }
        },
    }
}

/// Building yields a bare name only from a bare name and an input without
/// tokens.
pub proof fn lemma_built_name(order: Order, left: Tree, input: Seq<char>)
    requires
        built(order, left, input) is Ok,
        built(order, left, input)->Ok_0 is Name,
    ensures
        scan(input) is None,
        built(order, left, input)->Ok_0 == left,
{
    match scan(input) {
        None => {},
        Some((name, rest)) => {
            lemma_scan(input);
            let right = Tree::Name(name);
            if order.associativity(left.head(), name) == Some(Associativity::Left) {
                lemma_built_from_application(order, joined(order, left, right), rest);
            } else {
                lemma_spliced_is_application(order, left, right, rest);
            }
        },
    }
}

/// A token, read again, is that one token with nothing after it.
pub proof fn lemma_token_scans_to_itself(input: Seq<char>)
    requires
        scan(input) is Some,
    ensures
        scan(scan(input)->Some_0.0) == Some((scan(input)->Some_0.0, Seq::<char>::empty())),
{
    let t = skip_whitespace(input);
    let name = scan(input)->Some_0.0;
    lemma_scan(input);
    lemma_alphabetic_run(t);
    assert(name[0] == t[0]);
    assert(skip_whitespace(name) == name);
    if is_alphabetic_char(name[0]) {
        assert forall|i: int| 0 <= i < name.len() implies is_alphabetic_char(
            #[trigger] name[i],
        ) by {
            assert(name[i] == t[i]);
        }
        lemma_alphabetic_run_is(name, name.len());
        assert(alphabetic_run(name) == name.len());
    }
    assert(name.take(name.len() as int) =~= name);
    assert(name.skip(name.len() as int) =~= Seq::<char>::empty());
}

/// Render idempotence, for the inputs of one token: where an input parses to
/// a bare name, the rendering of that name parses to the same name again, so
/// rendering, parsing and rendering once more gives the same text.
///
/// This is stated of these inputs only. The rendering of an application
/// holds parentheses and a space, which are read again as tokens and
/// whitespace of their own.
pub proof fn law_render_parse_render(order: Order, input: Seq<char>)
    requires
        parsed(order, input) is Ok,
        parsed(order, input)->Ok_0 is Name,
    ensures
        parsed(order, parsed(order, input)->Ok_0.rendering()) == parsed(order, input),
        parsed(order, parsed(order, input)->Ok_0.rendering())->Ok_0.rendering() == parsed(
            order,
            input,
        )->Ok_0.rendering(),
{
    let name = scan(input)->Some_0.0;
    let rest = scan(input)->Some_0.1;
    lemma_built_name(order, Tree::Name(name), rest);
    lemma_token_scans_to_itself(input);
    let end = Seq::<char>::empty();
    assert(scan(end) is None);
    assert(built(order, Tree::Name(name), end) == Ok::<Tree, (Seq<char>, ErrorView)>(
        Tree::Name(name),
    ));
}

} // verus!
