//! The precedence authority: which operator binds tighter than which, how an
//! operator groups with itself, and which operators are infix by default.
use crate::expr::Associativity;
use crate::expr::Error;
use crate::graph::{
    acyclic, edges_within, graph_add_node, graph_edge_count, graph_edges, graph_names, graph_new,
    graph_node_count, graph_node_identifiers, graph_node_name, graph_path_costs, graph_update_edge,
    has_edge, lemma_edge_reaches, lemma_new_edge_keeps_acyclic, lemma_no_edges,
    lemma_reaches_one_way, lemma_reaches_over_new_edge, lemma_reaches_within, reaches, OrderGraph,
    INDEX_LIMIT,
};
use vstd::hash_map::StringHashMap;
use vstd::hash_set::StringHashSet;
use vstd::prelude::*;

verus! {

/// The mathematical value of a [`Context`].
pub struct Order {
    /// The operators that have a node, by node index.
    pub names: Seq<Seq<char>>,
    /// The declared relations, in the order in which they were accepted:
    /// `(u, v)` says that the operator at `u` binds tighter than the one at `v`.
    pub edges: Seq<(int, int)>,
    /// How an operator groups with another occurrence of itself.
    pub self_assoc: Map<Seq<char>, Associativity>,
    /// The operators that are infix by default.
    pub infix: Set<Seq<char>>,
}

impl Order {
    /// The order that declares nothing.
    pub open spec fn empty() -> Order {
        Order {
            names: Seq::empty(),
            edges: Seq::empty(),
            self_assoc: Map::empty(),
            infix: Set::empty(),
        }
    }

    /// No operator has two nodes, every relation joins two nodes, and the
    /// relations form no cycle.
    pub open spec fn wf(self) -> bool {
        &&& self.names.no_duplicates()
        &&& edges_within(self.edges, self.names.len() as int)
        &&& acyclic(self.edges)
    }

    /// Whether `name` has a node.
    pub open spec fn knows(self, name: Seq<char>) -> bool {
        self.names.contains(name)
    }

    /// The node of `name`, where it has one.
    pub open spec fn node_of(self, name: Seq<char>) -> int {
        choose|i: int| 0 <= i < self.names.len() && self.names[i] == name
    }

    /// Whether the declared relations lead from `a` to `b`: both have a node
    /// and the node of `a` reaches that of `b`. An operator with a node leads
    /// to itself.
    pub open spec fn tighter(self, a: Seq<char>, b: Seq<char>) -> bool {
        exists|i: int, j: int|
            0 <= i < self.names.len() && 0 <= j < self.names.len() && #[trigger] self.names[i] == a
                && #[trigger] self.names[j] == b && reaches(self.edges, i, j)
    }

    /// How `left` and `right` group by declaration alone. An operator against
    /// itself goes by its recorded self-associativity. Two different
    /// operators group to the left where `left` binds tighter, to the right
    /// where `right` does, and are undefined where neither does.
    pub open spec fn defined_associativity(self, left: Seq<char>, right: Seq<char>) -> Option<
        Associativity,
    > {
        if left == right {
            if self.self_assoc.contains_key(left) {
                Some(self.self_assoc[left])
            } else {
                None
            }
        } else if self.tighter(left, right) {
            Some(Associativity::Left)
        } else if self.tighter(right, left) {
            Some(Associativity::Right)
        } else {
            None
        }
    }

    /// How `left` and `right` group: by declaration where there is one, else
    /// by infix membership. An infix operator before one that is not infix
    /// groups to the left, the reverse to the right, two that are not infix
    /// to the left; two infix operators have no default.
    pub open spec fn associativity(self, left: Seq<char>, right: Seq<char>) -> Option<
        Associativity,
    > {
        match self.defined_associativity(left, right) {
            Some(defined) => Some(defined),
            None => if self.infix.contains(left) && self.infix.contains(right) {
                None
            } else if self.infix.contains(right) {
                Some(Associativity::Right)
            } else {
                Some(Associativity::Left)
            },
        }
    }

    /// The order with a node for `name`, added after all others where it had
    /// none.
    pub open spec fn with_name(self, name: Seq<char>) -> Order {
        if self.knows(name) {
            self
        } else {
            Order { names: self.names.push(name), ..self }
        }
    }

    /// Whether declaring `first` tighter than `second` is accepted: they are
    /// two operators, and `second` does not already lead to `first`.
    pub open spec fn admits_tighter(self, first: Seq<char>, second: Seq<char>) -> bool {
        first != second && !self.tighter(second, first)
    }

    /// The order after declaring `first` tighter than `second`. A refused
    /// declaration changes nothing. An accepted one gives both operators a
    /// node, `first` before `second`, and joins them by an edge unless one
    /// is there already.
    pub open spec fn declare_tighter(self, first: Seq<char>, second: Seq<char>) -> Order {
        if !self.admits_tighter(first, second) {
            self
        } else {
            let named = self.with_name(first).with_name(second);
            let edge = (named.node_of(first), named.node_of(second));
            if named.edges.contains(edge) {
                named
            } else {
                Order { edges: named.edges.push(edge), ..named }
            }
        }
    }

    /// The order after recording how `op` groups with itself.
    pub open spec fn with_self_associativity(self, op: Seq<char>, side: Associativity) -> Order {
        Order { self_assoc: self.self_assoc.insert(op, side), ..self }
    }

    /// The order after marking `op` as infix.
    pub open spec fn with_infix(self, op: Seq<char>) -> Order {
        Order { infix: self.infix.insert(op), ..self }
    }

    /// The example order: `a` binds tighter than `@` and `-`, `.` tighter
    /// than `-`, `@` tighter than `.`, and `.` is infix.
    pub open spec fn standard() -> Order {
        Order {
            names: seq!["a"@, "@"@, "-"@, "."@],
            edges: seq![(0int, 1int), (0int, 2int), (3int, 2int), (1int, 3int)],
            self_assoc: Map::empty(),
            infix: Set::empty().insert("."@),
        }
    }

    /// The example order is what its four declarations and its one infix
    /// mark make of the empty order, and each of the declarations is accepted.
    pub proof fn lemma_standard()
        ensures
            Order::empty().declare_tighter("a"@, "@"@).declare_tighter("a"@, "-"@).declare_tighter(
                "."@,
                "-"@,
            ).declare_tighter("@"@, "."@).with_infix("."@) == Order::standard(),
            Order::empty().admits_tighter("a"@, "@"@),
            Order::empty().declare_tighter("a"@, "@"@).admits_tighter("a"@, "-"@),
            Order::empty().declare_tighter("a"@, "@"@).declare_tighter("a"@, "-"@).admits_tighter(
                "."@,
                "-"@,
            ),
            Order::empty().declare_tighter("a"@, "@"@).declare_tighter("a"@, "-"@).declare_tighter(
                "."@,
                "-"@,
            ).admits_tighter("@"@, "."@),
            Order::standard().wf(),
    {
        reveal_strlit("a");
        reveal_strlit("@");
        reveal_strlit("-");
        reveal_strlit(".");
        let a = "a"@;
        let at = "@"@;
        let minus = "-"@;
        let dot = "."@;
        assert(a[0] == 'a' && at[0] == '@' && minus[0] == '-' && dot[0] == '.');
        let none = Seq::<(int, int)>::empty();
        let e1 = none.push((0int, 1int));
        let e2 = e1.push((0int, 2int));
        let e3 = e2.push((3int, 2int));
        let e4 = e3.push((1int, 3int));

        let o0 = Order::empty();
        lemma_no_edges(0, 0);
        o0.lemma_declare_tighter_wf(a, at);
        let o1 = o0.declare_tighter(a, at);
        let n1 = o0.with_name(a).with_name(at);
        assert(n1.names =~= seq![a, at]);
        n1.lemma_node_of(a, 0);
        n1.lemma_node_of(at, 1);
        assert(o1.names =~= seq![a, at]);
        assert(o1.edges =~= e1);

        o1.lemma_declare_tighter_wf(a, minus);
        assert(!o1.knows(minus));
        o1.lemma_unknown_unrelated(minus, a);
        let o2 = o1.declare_tighter(a, minus);
        let n2 = o1.with_name(a).with_name(minus);
        assert(o1.names[0] == a);
        assert(o1.knows(a));
        assert(n2.names =~= seq![a, at, minus]);
        n2.lemma_node_of(a, 0);
        n2.lemma_node_of(minus, 2);
        assert(!e1.contains((0int, 2int)));
        assert(o2.names =~= seq![a, at, minus]);
        assert(o2.edges =~= e2);

        o2.lemma_declare_tighter_wf(dot, minus);
        assert(!o2.knows(dot));
        o2.lemma_unknown_unrelated(minus, dot);
        let o3 = o2.declare_tighter(dot, minus);
        let n3 = o2.with_name(dot).with_name(minus);
        assert(o2.names[2] == minus);
        assert(o2.with_name(dot).names =~= seq![a, at, minus, dot]);
        assert(o2.with_name(dot).names[2] == minus);
        assert(n3.names =~= seq![a, at, minus, dot]);
        assert(n3.knows(minus));
        n3.lemma_node_of(dot, 3);
        n3.lemma_node_of(minus, 2);
        assert(!e2.contains((3int, 2int)));
        assert(o3.names =~= seq![a, at, minus, dot]);
        assert(o3.edges =~= e3);

        o3.lemma_declare_tighter_wf(at, dot);
        lemma_no_edges(3, 1);
        lemma_no_edges(3, 0);
        lemma_no_edges(3, 3);
        lemma_no_edges(1, 1);
        lemma_no_edges(2, 1);
        lemma_no_edges(2, 0);
        lemma_reaches_over_new_edge(none, 0, 1, 3, 1);
        lemma_reaches_over_new_edge(none, 0, 1, 3, 0);
        lemma_reaches_over_new_edge(none, 0, 1, 2, 1);
        lemma_reaches_over_new_edge(none, 0, 1, 2, 0);
        lemma_reaches_over_new_edge(e1, 0, 2, 3, 1);
        lemma_reaches_over_new_edge(e1, 0, 2, 2, 1);
        lemma_reaches_over_new_edge(e2, 3, 2, 3, 1);
        assert(!reaches(e3, 3, 1));
        o3.lemma_tighter_by_nodes(dot, at, 3, 1);
        let o4 = o3.declare_tighter(at, dot);
        assert(o3.names[1] == at && o3.names[3] == dot);
        assert(o3.knows(at) && o3.knows(dot));
        o3.lemma_node_of(at, 1);
        o3.lemma_node_of(dot, 3);
        assert(!e3.contains((1int, 3int)));
        assert(o4.names =~= seq![a, at, minus, dot]);
        assert(o4.edges =~= e4);
        assert(e4 =~= seq![(0int, 1int), (0int, 2int), (3int, 2int), (1int, 3int)]);
        o4.lemma_declare_tighter_wf(at, dot);
        assert(o4.with_infix(dot).infix =~= Set::empty().insert(dot));
    }

    /// In a well-formed order a name has one node at most.
    pub proof fn lemma_node_of(self, name: Seq<char>, i: int)
        requires
            self.names.no_duplicates(),
            0 <= i < self.names.len(),
            self.names[i] == name,
        ensures
            self.node_of(name) == i,
            self.knows(name),
    {
    }

    /// In a well-formed order, "leads to" between names is reachability
    /// between their nodes.
    pub proof fn lemma_tighter_by_nodes(self, a: Seq<char>, b: Seq<char>, i: int, j: int)
        requires
            self.names.no_duplicates(),
            0 <= i < self.names.len(),
            0 <= j < self.names.len(),
            self.names[i] == a,
            self.names[j] == b,
        ensures
            self.tighter(a, b) <==> reaches(self.edges, i, j),
    {
    }

    /// A name without a node leads nowhere and nothing leads to it.
    pub proof fn lemma_unknown_unrelated(self, a: Seq<char>, b: Seq<char>)
        requires
            !self.knows(a) || !self.knows(b),
        ensures
            !self.tighter(a, b),
    {
    }

    /// Giving a name a node keeps the order well formed and relates no two
    /// names that were unrelated.
    pub proof fn lemma_with_name(self, name: Seq<char>)
        requires
            self.wf(),
        ensures
            self.with_name(name).wf(),
            self.with_name(name).knows(name),
            self.with_name(name).names.len() <= self.names.len() + 1,
            forall|other: Seq<char>| self.knows(other) ==> #[trigger] self.with_name(name).knows(other),
    {
        let named = self.with_name(name);
        if !self.knows(name) {
            assert(named.names.last() == name);
            assert forall|other: Seq<char>| self.knows(other) implies #[trigger] named.knows(
                other,
            ) by {
                let i = choose|i: int| 0 <= i < self.names.len() && self.names[i] == other;
                assert(named.names[i] == other);
            }
        }
    }

    /// A declaration, accepted or refused, leaves a well-formed order well
    /// formed: in particular it closes no cycle.
    pub proof fn lemma_declare_tighter_wf(self, first: Seq<char>, second: Seq<char>)
        requires
            self.wf(),
        ensures
            self.declare_tighter(first, second).wf(),
            self.declare_tighter(first, second).names.len() <= self.names.len() + 2,
            self.declare_tighter(first, second).edges.len() <= self.edges.len() + 1,
            self.declare_tighter(first, second).self_assoc == self.self_assoc,
            self.declare_tighter(first, second).infix == self.infix,
    {
        if self.admits_tighter(first, second) {
            let one = self.with_name(first);
            self.lemma_with_name(first);
            let named = one.with_name(second);
            one.lemma_with_name(second);
            assert(named.knows(first) && named.knows(second));
            let f = named.node_of(first);
            let s = named.node_of(second);
            if !named.edges.contains((f, s)) {
                let more = named.edges.push((f, s));
                if reaches(named.edges, s, f) {
                    lemma_reaches_within(self.edges, self.names.len() as int, s, f);
                    assert(self.names[s] == second);
                    assert(self.names[f] == first);
                    assert(self.tighter(second, first));
                }
                lemma_new_edge_keeps_acyclic(named.edges, f, s);
                assert forall|k: int| 0 <= k < more.len() implies 0 <= (#[trigger] more[k]).0
                    < named.names.len() && 0 <= more[k].1 < named.names.len() by {
                    if k < named.edges.len() {
                        assert(more[k] == named.edges[k]);
                    }
                }
            }
        }
    }
}

/// Where parsing looks up how operators relate.
///
/// A context holds a partial order of binding strength, the associativity of
/// operators with themselves, and the set of operators that are infix by
/// default. It is set up once and only read while parsing.
pub struct Context {
    partial_order: OrderGraph,
    self_referential: StringHashMap<Associativity>,
    infix: StringHashSet,
}

impl View for Context {
    type V = Order;

    closed spec fn view(&self) -> Order {
        Order {
            names: graph_names(self.partial_order),
            edges: graph_edges(self.partial_order),
            self_assoc: self.self_referential@,
            infix: self.infix@,
        }
    }
}

/// Compares two string slices with `str::eq`. Trusted: they are equal exactly
/// where they hold the same characters.
#[verifier::external_body]
pub(crate) fn same_text(a: &str, b: &str) -> (same: bool)
    ensures
        same == (a@ == b@),
{
    a.eq(b)
}

impl Context {
    /// The invariant of every context: see [`Order::wf`].
    pub open spec fn wf(&self) -> bool {
        self@.wf()
    }

    /// Returns the example configuration.
    pub fn standard() -> (context: Context)
        ensures
            context.wf(),
            context@ == Order::standard(),
    {
        let mut context = Context::new();
        proof {
            Order::lemma_standard();
            let o0 = Order::empty();
            o0.lemma_declare_tighter_wf("a"@, "@"@);
            let o1 = o0.declare_tighter("a"@, "@"@);
            o1.lemma_declare_tighter_wf("a"@, "-"@);
            let o2 = o1.declare_tighter("a"@, "-"@);
            o2.lemma_declare_tighter_wf("."@, "-"@);
            let o3 = o2.declare_tighter("."@, "-"@);
            o3.lemma_declare_tighter_wf("@"@, "."@);
        }
        context.gt("a", "@");
        context.gt("a", "-");
        context.gt(".", "-");
        context.gt("@", ".");
        context.infix(".");
        context
    }

    /// Returns a context that declares nothing.
    pub fn new() -> (context: Context)
        ensures
            context.wf(),
            context@ == Order::empty(),
    {
        let context = Context {
            partial_order: graph_new(),
            self_referential: StringHashMap::new(),
            infix: StringHashSet::new(),
        };
        proof {
            lemma_no_edges(0, 0);
        }
        context
    }

    /// Returns the number of operators that have a node in the graph.
    pub fn node_count(&self) -> (count: usize)
        ensures
            count == self@.names.len(),
    {
        graph_node_count(&self.partial_order)
    }

    /// Returns the number of relations that the graph holds.
    pub fn edge_count(&self) -> (count: usize)
        ensures
            count == self@.edges.len(),
    {
        graph_edge_count(&self.partial_order)
    }

    /// Returns the index, in the graph, of the node of `operator`, or `None`
    /// if it has none.
    pub fn get_ident(&self, operator: &str) -> (ident: Option<usize>)
        ensures
            match ident {
                Some(node) => {
                    &&& node < self@.names.len()
                    &&& self@.names[node as int] == operator@
                    &&& forall|k: int| 0 <= k < node ==> self@.names[k] != operator@
                },
                None => !self@.knows(operator@),
            },
    {
        let ids = graph_node_identifiers(&self.partial_order);
        let mut k: usize = 0;
        while k < ids.len()
            invariant
                k <= ids@.len(),
                ids@.len() == self@.names.len(),
                forall|i: int| 0 <= i < ids@.len() ==> #[trigger] ids@[i] == i,
                forall|i: int| 0 <= i < k ==> self@.names[i] != operator@,
            decreases ids@.len() - k,
        {
            let id = ids[k];
            if same_text(graph_node_name(&self.partial_order, id).as_str(), operator) {
                return Some(id);
            }
            k += 1;
        }
        None
    }

    /// Returns the index, in the graph, of the node of `operator`, and gives
    /// it a node first if it has none.
    pub fn ensure_ident(&mut self, operator: &str) -> (node: usize)
        requires
            old(self).wf(),
            old(self)@.names.len() < INDEX_LIMIT,
        ensures
            final(self).wf(),
            final(self)@ == old(self)@.with_name(operator@),
            node < final(self)@.names.len(),
            final(self)@.names[node as int] == operator@,
            node == final(self)@.node_of(operator@),
    {
        proof {
            self@.lemma_with_name(operator@);
        }
        match self.get_ident(operator) {
            Some(node) => node,
            None => {
                let node = graph_add_node(&mut self.partial_order, operator.to_owned());
                assert(self@.names[node as int] == operator@);
                node
            },
        }
    }

    /// Returns whether the relations lead from the node `left` to the node
    /// `right`. A node leads to itself.
    pub fn path_from(&self, left: usize, right: usize) -> (found: bool)
        requires
            left < self@.names.len(),
            right < self@.names.len(),
        ensures
            found == reaches(self@.edges, left as int, right as int),
    {
        broadcast use vstd::std_specs::hash::group_hash_axioms;

        let costs = graph_path_costs(&self.partial_order, left, right);
        costs.contains_key(&right)
    }

    /// Declares that `first` binds tighter than `second`.
    ///
    /// The declaration is refused, with `false` and no change, where it would
    /// close a cycle: where `second` already leads to `first`, or the two are
    /// one operator. Otherwise both operators get a node if they had none,
    /// an edge joins `first` to `second`, and the result is `true`.
    pub fn gt(&mut self, first: &str, second: &str) -> (declared: bool)
        requires
            old(self).wf(),
            old(self)@.names.len() + 2 <= INDEX_LIMIT,
            old(self)@.edges.len() < INDEX_LIMIT,
        ensures
            final(self).wf(),
            declared == old(self)@.admits_tighter(first@, second@),
            final(self)@ == old(self)@.declare_tighter(first@, second@),
            !declared ==> final(self)@ == old(self)@,
    {
        if same_text(first, second) {
            return false;
        }
        let ghost before = self@;
        let f = self.ensure_ident(first);
        let ghost one = self@;
        let s = self.ensure_ident(second);
        let ghost named = self@;
        proof {
            before.lemma_with_name(first@);
            one.lemma_with_name(second@);
            before.lemma_declare_tighter_wf(first@, second@);
            // The second name did not move the first.
            assert(named.names[f as int] == first@) by {
                if !one.knows(second@) {
                    assert(named.names == one.names.push(second@));
                }
            }
            named.lemma_node_of(first@, f as int);
            named.lemma_node_of(second@, s as int);
            named.lemma_tighter_by_nodes(second@, first@, s as int, f as int);
            // What led from `second` to `first` before still does: both had
            // their nodes already.
            if before.tighter(second@, first@) {
                let (i, j) = choose|i: int, j: int|
                    0 <= i < before.names.len() && 0 <= j < before.names.len()
                        && #[trigger] before.names[i] == second@ && #[trigger] before.names[j]
                        == first@ && reaches(before.edges, i, j);
                assert(before.knows(second@) && before.knows(first@));
                assert(named == before);
                before.lemma_tighter_by_nodes(second@, first@, s as int, f as int);
            }
            // A new node lies on no edge, so a way back runs between nodes
            // that were there before.
            if reaches(named.edges, s as int, f as int) {
                lemma_reaches_within(before.edges, before.names.len() as int, s as int, f as int);
                assert(before.names[s as int] == second@);
                assert(before.names[f as int] == first@);
                assert(before.tighter(second@, first@));
            }
            // An edge that is there already has no way back beside it.
            if has_edge(named.edges, f as int, s as int) {
                lemma_edge_reaches(named.edges, f as int, s as int);
                lemma_reaches_one_way(named.edges, f as int, s as int);
            }
        }
        let added = graph_update_edge(&mut self.partial_order, f, s);
        added.is_ok()
    }

    /// Declares that `second` binds tighter than `first`: [`Context::gt`]
    /// with the operators exchanged.
    pub fn lt(&mut self, first: &str, second: &str) -> (declared: bool)
        requires
            old(self).wf(),
            old(self)@.names.len() + 2 <= INDEX_LIMIT,
            old(self)@.edges.len() < INDEX_LIMIT,
        ensures
            final(self).wf(),
            declared == old(self)@.admits_tighter(second@, first@),
            final(self)@ == old(self)@.declare_tighter(second@, first@),
            !declared ==> final(self)@ == old(self)@,
    {
        self.gt(second, first)
    }

    /// Returns how `left` and `right` group by declaration alone, or `None`
    /// where no declaration says.
    pub fn get_defined_associativity(&self, left: &str, right: &str) -> (defined: Option<
        Associativity,
    >)
        requires
            self.wf(),
        ensures
            defined == self@.defined_associativity(left@, right@),
    {
        if same_text(left, right) {
            return match self.self_referential.get(left) {
                Some(side) => Some(*side),
                None => None,
            };
        }
        let l = match self.get_ident(left) {
            Some(node) => node,
            None => {
                proof {
                    self@.lemma_unknown_unrelated(left@, right@);
                    self@.lemma_unknown_unrelated(right@, left@);
                }
                return None;
            },
        };
        let r = match self.get_ident(right) {
            Some(node) => node,
            None => {
                proof {
                    self@.lemma_unknown_unrelated(left@, right@);
                    self@.lemma_unknown_unrelated(right@, left@);
                }
                return None;
            },
        };
        proof {
            self@.lemma_tighter_by_nodes(left@, right@, l as int, r as int);
            self@.lemma_tighter_by_nodes(right@, left@, r as int, l as int);
        }
        if self.path_from(l, r) {
            Some(Associativity::Left)
        } else if self.path_from(r, l) {
            Some(Associativity::Right)
        } else {
            None
        }
    }

    /// Returns how `left` and `right` group, by declaration or by default.
    ///
    /// Fails where neither says, which is where both are infix and no
    /// declaration relates them; the error carries `input`, the text that was
    /// still to be read, and the two operators.
    pub fn get_associativity(&self, left: &str, right: &str, input: &&str) -> (found: Result<
        Associativity,
        (String, Error),
    >)
        requires
            self.wf(),
        ensures
            match self@.associativity(left@, right@) {
                Some(side) => found == Ok::<Associativity, (String, Error)>(side),
                None => {
                    &&& found is Err
                    &&& found->Err_0.0@ == input@
                    &&& found->Err_0.1@ == crate::expr::ErrorView::UndefinedAssociativity(
                        left@,
                        right@,
                    )
                },
            },
    {
        if let Some(defined) = self.get_defined_associativity(left, right) {
            return Ok(defined);
        }
        match (self.is_infix(left), self.is_infix(right)) {
            (true, false) => Ok(Associativity::Left),
            (false, true) => Ok(Associativity::Right),
            (false, false) => Ok(Associativity::Left),
            (true, true) => Err(
                (
                    (*input).to_owned(),
                    Error::UndefinedAssociativity(left.to_owned(), right.to_owned()),
                ),
            ),
        }
    }

    /// Marks `op` as left associative with itself.
    pub fn la(&mut self, op: &str)
        ensures
            final(self)@ == old(self)@.with_self_associativity(op@, Associativity::Left),
            old(self).wf() ==> final(self).wf(),
    {
        self.self_referential.insert(op.to_owned(), Associativity::Left);
    }

    /// Marks `op` as right associative with itself.
    pub fn ra(&mut self, op: &str)
        ensures
            final(self)@ == old(self)@.with_self_associativity(op@, Associativity::Right),
            old(self).wf() ==> final(self).wf(),
    {
        self.self_referential.insert(op.to_owned(), Associativity::Right);
    }

    /// Marks `op` as infix by default.
    pub fn infix(&mut self, op: &str)
        ensures
            final(self)@ == old(self)@.with_infix(op@),
            old(self).wf() ==> final(self).wf(),
    {
        self.infix.insert(op.to_owned());
    }

    /// Returns whether `op` is infix by default.
    pub fn is_infix(&self, op: &str) -> (marked: bool)
        ensures
            marked == self@.infix.contains(op@),
    {
        self.infix.contains(op)
    }
}

} // verus!
