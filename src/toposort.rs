//! Deterministic topological ordering of named declarations.
//!
//! Nodes are kept in an [`IndexMap`] from name to the list of names that the
//! node depends on. The order produced puts every node after all of its
//! dependencies and, whenever several nodes are free to go next, takes the
//! one with the greatest name, so that the output depends only on the set of
//! edges and not on the order in which they were listed.
use indexmap::IndexMap;
use vstd::prelude::*;
use vstd::set_lib::{lemma_int_range, lemma_len_subset, lemma_subset_equality, set_int_range};

verus! {

broadcast use vstd::seq_lib::lemma_seq_contains_after_push;

/// A range of source text.
#[derive(Clone, Copy, Debug, PartialEq, Eq)]
pub struct Span {
    pub start: u32,
    pub end: u32,
}

/// A name as written in the source, with where it was written.
#[derive(Clone, Debug)]
pub struct Id {
    pub name: String,
    pub span: Span,
}

/// Why no order could be produced.
#[derive(Debug)]
pub enum Error {
    /// An edge names a node that the graph does not hold.
    NonexistentDep { span: Span, name: String, kind: String },
    /// The nodes left over depend on one another.
    Cycle { span: Span, name: String, kind: String },
}

impl Error {
    /// The text of the diagnostic: what kind of node, which name, and what is
    /// wrong with it.
    pub fn message(&self) -> (r: String)
        ensures
            r@ == match self {
                Error::NonexistentDep { kind, name, .. } => kind@ + " `"@ + name@ + "` does not exist"@,
                Error::Cycle { kind, name, .. } => kind@ + " `"@ + name@ + "` depends on itself"@,
            },
    {
        match self {
            Error::NonexistentDep { kind, name, .. } => {
                let mut text: String = kind.clone();
                text.append(" `");
                text.append(name.as_str());
                text.append("` does not exist");
                text
            },
            Error::Cycle { kind, name, .. } => {
                let mut text: String = kind.clone();
                text.append(" `");
                text.append(name.as_str());
                text.append("` depends on itself");
                text
            },
        }
    }
}

/// `indexmap::IndexMap`, the insertion-ordered map that holds a graph; its
/// contents are read through `graph_entries`.
#[verifier::external_type_specification]
#[verifier::external_body]
#[verifier::reject_recursive_types(K)]
#[verifier::reject_recursive_types(V)]
#[verifier::reject_recursive_types(S)]
pub struct ExIndexMap<K, V, S>(IndexMap<K, V, S>);

/// The entries of a dependency graph, in insertion order: each node's name and
/// the dependencies it lists.
pub uninterp spec fn graph_entries(m: IndexMap<String, Vec<Id>>) -> Seq<(Seq<char>, Seq<Id>)>;

/// Relies on `IndexMap::len`: the number of entries.
#[verifier::external_body]
fn graph_len(m: &IndexMap<String, Vec<Id>>) -> (r: usize)
    ensures
        r == graph_entries(*m).len(),
{
    m.len()
}

/// Relies on `IndexMap::get_index`: the entry at a position in insertion order,
/// whose key no other entry has.
#[verifier::external_body]
fn graph_entry<'a>(m: &'a IndexMap<String, Vec<Id>>, i: usize) -> (r: (&'a String, &'a Vec<Id>))
    requires
        i < graph_entries(*m).len(),
    ensures
        r.0@ == graph_entries(*m)[i as int].0,
        r.1@ == graph_entries(*m)[i as int].1,
        forall|j: int| 0 <= j < graph_entries(*m).len() && j != i ==> graph_entries(*m)[j].0 != r.0@,
{
    m.get_index(i).unwrap()
}

/// Relies on `IndexMap::get_index_of`: the position of the one entry with a
/// given name, if there is one.
#[verifier::external_body]
fn graph_index_of(m: &IndexMap<String, Vec<Id>>, name: &str) -> (r: Option<usize>)
    ensures
        match r {
            Some(i) => i < graph_entries(*m).len() && graph_entries(*m)[i as int].0 == name@
                && forall|j: int| 0 <= j < graph_entries(*m).len() && j != i ==> graph_entries(*m)[j].0 != name@,
            None => forall|i: int| 0 <= i < graph_entries(*m).len() ==> graph_entries(*m)[i].0 != name@,
        },
{
    m.get_index_of(name)
}

/// `a` comes strictly before `b` when strings are compared character by
/// character, a proper prefix first.
pub open spec fn lex_lt(a: Seq<char>, b: Seq<char>) -> bool
    decreases a.len(),
{
    if a.len() == 0 {
        b.len() > 0
    } else if b.len() == 0 {
        false
    } else if a[0] != b[0] {
        (a[0] as int) < (b[0] as int)
    } else {
        lex_lt(a.drop_first(), b.drop_first())
    }
}

/// Two different strings are ordered one way, and never both ways.
pub proof fn lemma_lex_total(a: Seq<char>, b: Seq<char>)
    ensures
        !(lex_lt(a, b) && lex_lt(b, a)),
        !lex_lt(a, a),
        a != b ==> lex_lt(a, b) || lex_lt(b, a),
    decreases a.len(),
{
    if a.len() > 0 {
        lemma_lex_total(a.drop_first(), a.drop_first());
    }
    if a.len() > 0 && b.len() > 0 {
        lemma_lex_total(a.drop_first(), b.drop_first());
        if a[0] == b[0] && a.drop_first() == b.drop_first() {
            assert(a =~= seq![a[0]] + a.drop_first());
            assert(b =~= seq![b[0]] + b.drop_first());
        }
        if a[0] != b[0] {
            assert((a[0] as int) != (b[0] as int));
        }
    } else if a.len() == 0 && b.len() == 0 {
        assert(a =~= b);
    }
}

/// The order on strings is transitive.
pub proof fn lemma_lex_trans(a: Seq<char>, b: Seq<char>, c: Seq<char>)
    requires
        lex_lt(a, b),
        lex_lt(b, c),
    ensures
        lex_lt(a, c),
    decreases a.len(),
{
    if a.len() > 0 && b.len() > 0 && c.len() > 0 {
        if a[0] == b[0] && b[0] == c[0] {
            lemma_lex_trans(a.drop_first(), b.drop_first(), c.drop_first());
        }
    }
}

/// Compares two strings character by character.
fn str_lt(a: &str, b: &str) -> (r: bool)
    ensures
        r == lex_lt(a@, b@),
{
    let la: usize = a.unicode_len();
    let lb: usize = b.unicode_len();
    let mut i: usize = 0;
    assert(a@.skip(0) == a@);
    assert(b@.skip(0) == b@);
    while i < la && i < lb
        invariant
            la == a@.len(),
            lb == b@.len(),
            i <= la,
            i <= lb,
            lex_lt(a@, b@) == lex_lt(a@.skip(i as int), b@.skip(i as int)),
        decreases la - i,
    {
        let ca: char = a.get_char(i);
        let cb: char = b.get_char(i);
        if ca != cb {
            return (ca as u32) < (cb as u32);
        }
        assert(a@.skip(i as int).drop_first() == a@.skip(i + 1));
        assert(b@.skip(i as int).drop_first() == b@.skip(i + 1));
        i = i + 1;
    }
    i < lb
}

/// The names of the entries, in order.
pub open spec fn keys(g: Seq<(Seq<char>, Seq<Id>)>) -> Seq<Seq<char>> {
    g.map_values(|e: (Seq<char>, Seq<Id>)| e.0)
}

/// The names that the dependencies of node `i` give.
pub open spec fn dep_names(g: Seq<(Seq<char>, Seq<Id>)>, i: int) -> Set<Seq<char>> {
    g[i].1.map_values(|d: Id| d.name@).to_set()
}

/// Position of the entry named `name`, or -1 where there is none.
pub open spec fn index_of(g: Seq<(Seq<char>, Seq<Id>)>, name: Seq<char>) -> int {
    if exists|i: int| 0 <= i < keys(g).len() && keys(g)[i] == name {
        choose|i: int| 0 <= i < keys(g).len() && keys(g)[i] == name
    } else {
        -1
    }
}

/// The node that dependency `k` of node `i` names (-1 where none has that name).
pub open spec fn target(g: Seq<(Seq<char>, Seq<Id>)>, i: int, k: int) -> int {
    index_of(g, g[i].1[k].name@)
}

/// Dependency `k` of node `i` names no node.
pub open spec fn missing(g: Seq<(Seq<char>, Seq<Id>)>, i: int, k: int) -> bool {
    target(g, i, k) < 0
}

/// Every dependency names a node of the graph.
pub open spec fn no_missing(g: Seq<(Seq<char>, Seq<Id>)>) -> bool {
    forall|i: int, k: int| 0 <= i < g.len() && 0 <= k < g[i].1.len() ==> !#[trigger] missing(g, i, k)
}

/// Dependency `k` of node `i` is the first, in graph order, that names no node.
pub open spec fn is_first_missing(g: Seq<(Seq<char>, Seq<Id>)>, i: int, k: int) -> bool {
    &&& 0 <= i < g.len()
    &&& 0 <= k < g[i].1.len()
    &&& missing(g, i, k)
    &&& forall|a: int, b: int| 0 <= a < i && 0 <= b < g[a].1.len() ==> !#[trigger] missing(g, a, b)
    &&& forall|b: int| 0 <= b < k ==> !#[trigger] missing(g, i, b)
}

/// Node `i` is not placed yet and everything it depends on is.
pub open spec fn ready(g: Seq<(Seq<char>, Seq<Id>)>, done: Seq<int>, i: int) -> bool {
    &&& 0 <= i < g.len()
    &&& !done.contains(i)
    &&& forall|k: int| 0 <= k < g[i].1.len() ==> done.contains(#[trigger] target(g, i, k))
}

/// Node `i` is ready and has the greatest name of all ready nodes.
pub open spec fn is_next(g: Seq<(Seq<char>, Seq<Id>)>, done: Seq<int>, i: int) -> bool {
    &&& ready(g, done, i)
    &&& forall|j: int| #[trigger] ready(g, done, j) && j != i ==> lex_lt(g[j].0, g[i].0)
}

/// Extends `done` by the ready node of greatest name, as long as there is one,
/// at most `fuel` times.
pub open spec fn greedy(g: Seq<(Seq<char>, Seq<Id>)>, done: Seq<int>, fuel: nat) -> Seq<int>
    decreases fuel,
{
    if fuel > 0 && exists|i: int| is_next(g, done, i) {
        greedy(g, done.push(choose|i: int| is_next(g, done, i)), (fuel - 1) as nat)
    } else {
        done
    }
}

/// The positions of the nodes in the order produced; it holds every node
/// exactly when the graph has no cycle.
pub open spec fn sort_order(g: Seq<(Seq<char>, Seq<Id>)>) -> Seq<int> {
    greedy(g, Seq::empty(), g.len())
}

/// The names of the nodes at the given positions.
pub open spec fn names_at(g: Seq<(Seq<char>, Seq<Id>)>, order: Seq<int>) -> Seq<Seq<char>> {
    order.map_values(|i: int| keys(g)[i])
}

/// Node `i` is the first node left out of `order`, and its dependency `k` is
/// the first of its dependencies that is left out too.
pub open spec fn is_first_stuck(g: Seq<(Seq<char>, Seq<Id>)>, order: Seq<int>, i: int, k: int) -> bool {
    &&& 0 <= i < g.len()
    &&& !order.contains(i)
    &&& forall|a: int| 0 <= a < i ==> order.contains(a)
    &&& 0 <= k < g[i].1.len()
    &&& !order.contains(target(g, i, k))
    &&& forall|b: int| 0 <= b < k ==> order.contains(#[trigger] target(g, i, b))
}

/// A subset of `0..len` has at most `len` elements, and `len` only when it is all of it.
proof fn lemma_range_card(s: Set<int>, len: int)
    requires
        0 <= len,
        s.subset_of(set_int_range(0, len)),
    ensures
        s.finite(),
        s.len() <= len,
        s.len() == len <==> forall|b: int| 0 <= b < len ==> s.contains(b),
{
    lemma_int_range(0, len);
    lemma_len_subset(s, set_int_range(0, len));
    if s.len() == len {
        lemma_subset_equality(s, set_int_range(0, len));
    }
    if forall|b: int| 0 <= b < len ==> s.contains(b) {
        lemma_len_subset(set_int_range(0, len), s);
    }
}

/// Appending a new element keeps a sequence free of repeats.
proof fn lemma_push_unique(s: Seq<usize>, v: usize)
    requires
        s.no_duplicates(),
        !s.contains(v),
    ensures
        s.push(v).no_duplicates(),
{
    assert forall|p: int, q: int| 0 <= p < s.len() + 1 && 0 <= q < s.len() + 1 && p != q implies s.push(v)[p] != s.push(v)[q] by {
        if p < s.len() && q < s.len() {
        } else if p < s.len() {
            assert(s.contains(s[p]));
        } else {
            assert(s.contains(s[q]));
        }
    }
}

/// A sequence without repeats, drawn from `0..n` and missing `x`, is shorter than `n`.
proof fn lemma_card_lt(order: Seq<int>, n: int, x: int)
    requires
        order.no_duplicates(),
        forall|p: int| 0 <= p < order.len() ==> 0 <= #[trigger] order[p] < n,
        0 <= x < n,
        !order.contains(x),
    ensures
        order.len() < n,
{
    order.unique_seq_to_set();
    let r = set_int_range(0, n).remove(x);
    lemma_int_range(0, n);
    assert(order.to_set().subset_of(r));
    lemma_len_subset(order.to_set(), r);
}

/// A sequence that holds every element of `0..n` is at least `n` long.
proof fn lemma_card_cover(order: Seq<int>, n: int)
    requires
        0 <= n,
        forall|a: int| 0 <= a < n ==> order.contains(a),
    ensures
        order.len() >= n,
{
    order.lemma_cardinality_of_set();
    lemma_int_range(0, n);
    assert(set_int_range(0, n).subset_of(order.to_set()));
    lemma_len_subset(set_int_range(0, n), order.to_set());
}

/// Where positions are unique, `index_of` finds the one with that name.
proof fn lemma_index_of(g: Seq<(Seq<char>, Seq<Id>)>, name: Seq<char>, i: int)
    requires
        0 <= i < g.len(),
        g[i].0 == name,
        forall|j: int| 0 <= j < g.len() && j != i ==> g[j].0 != name,
    ensures
        index_of(g, name) == i,
{
    assert(keys(g)[i] == name);
}

/// The two graphs hold the same nodes in the same order, and each node names
/// the same set of dependencies, in whatever order and however often.
pub open spec fn same_edges(g1: Seq<(Seq<char>, Seq<Id>)>, g2: Seq<(Seq<char>, Seq<Id>)>) -> bool {
    &&& keys(g1) == keys(g2)
    &&& forall|i: int| 0 <= i < g1.len() ==> #[trigger] dep_names(g1, i) == dep_names(g2, i)
}

/// Each dependency's name is among the names that its node depends on.
proof fn lemma_dep_name(g: Seq<(Seq<char>, Seq<Id>)>, i: int, k: int)
    requires
        0 <= i < g.len(),
        0 <= k < g[i].1.len(),
    ensures
        dep_names(g, i).contains(g[i].1[k].name@),
{
    let ns = g[i].1.map_values(|d: Id| d.name@);
    assert(ns[k] == g[i].1[k].name@);
    assert(ns.contains(ns[k]));
}

/// A name among those that node `i` depends on is the name of one of its dependencies.
proof fn lemma_dep_of_name(g: Seq<(Seq<char>, Seq<Id>)>, i: int, s: Seq<char>) -> (k: int)
    requires
        0 <= i < g.len(),
        dep_names(g, i).contains(s),
    ensures
        0 <= k < g[i].1.len(),
        g[i].1[k].name@ == s,
{
    let ns = g[i].1.map_values(|d: Id| d.name@);
    assert(ns.contains(s));
    let k = choose|k: int| 0 <= k < ns.len() && ns[k] == s;
    k
}

/// Whether a node is ready depends on the set of names it depends on alone.
proof fn lemma_ready_same(g1: Seq<(Seq<char>, Seq<Id>)>, g2: Seq<(Seq<char>, Seq<Id>)>, done: Seq<int>, i: int)
    requires
        same_edges(g1, g2),
    ensures
        ready(g1, done, i) == ready(g2, done, i),
{
    assert(g1.len() == keys(g1).len());
    assert(g2.len() == keys(g2).len());
    if 0 <= i < g1.len() {
        assert(dep_names(g1, i) == dep_names(g2, i));
        if ready(g1, done, i) {
            assert forall|k: int| 0 <= k < g2[i].1.len() implies done.contains(#[trigger] target(g2, i, k)) by {
                lemma_dep_name(g2, i, k);
                let k1 = lemma_dep_of_name(g1, i, g2[i].1[k].name@);
                assert(done.contains(target(g1, i, k1)));
            }
        }
        if ready(g2, done, i) {
            assert forall|k: int| 0 <= k < g1[i].1.len() implies done.contains(#[trigger] target(g1, i, k)) by {
                lemma_dep_name(g1, i, k);
                let k2 = lemma_dep_of_name(g2, i, g1[i].1[k].name@);
                assert(done.contains(target(g2, i, k2)));
            }
        }
    }
}

/// At most one node is next.
proof fn lemma_next_unique(g: Seq<(Seq<char>, Seq<Id>)>, done: Seq<int>, a: int, b: int)
    requires
        is_next(g, done, a),
        is_next(g, done, b),
    ensures
        a == b,
{
    if a != b {
        lemma_lex_total(g[a].0, g[b].0);
    }
}

/// Extending the same placed prefix gives the same order in both graphs.
proof fn lemma_greedy_same(g1: Seq<(Seq<char>, Seq<Id>)>, g2: Seq<(Seq<char>, Seq<Id>)>, done: Seq<int>, fuel: nat)
    requires
        same_edges(g1, g2),
    ensures
        greedy(g1, done, fuel) == greedy(g2, done, fuel),
    decreases fuel,
{
    assert(g1.len() == keys(g1).len());
    assert(g2.len() == keys(g2).len());
    assert forall|j: int| 0 <= j < g1.len() implies g1[j].0 == g2[j].0 by {
        assert(keys(g1)[j] == g1[j].0);
        assert(keys(g2)[j] == g2[j].0);
    }
    assert forall|j: int| #[trigger] ready(g1, done, j) <==> ready(g2, done, j) by {
        lemma_ready_same(g1, g2, done, j);
    }
    assert forall|i: int| #[trigger] is_next(g1, done, i) <==> is_next(g2, done, i) by {
        if is_next(g1, done, i) {
            assert forall|j: int| #[trigger] ready(g2, done, j) && j != i implies lex_lt(g2[j].0, g2[i].0) by {
                assert(ready(g1, done, j));
            }
        }
        if is_next(g2, done, i) {
            assert forall|j: int| #[trigger] ready(g1, done, j) && j != i implies lex_lt(g1[j].0, g1[i].0) by {
                assert(ready(g2, done, j));
            }
        }
    }
    if fuel > 0 && exists|i: int| is_next(g1, done, i) {
        let c1 = choose|i: int| is_next(g1, done, i);
        assert(is_next(g2, done, c1));
        let c2 = choose|i: int| is_next(g2, done, i);
        lemma_next_unique(g2, done, c1, c2);
        lemma_greedy_same(g1, g2, done.push(c1), (fuel - 1) as nat);
        assert(greedy(g1, done, fuel) == greedy(g1, done.push(c1), (fuel - 1) as nat));
        assert(greedy(g2, done, fuel) == greedy(g2, done.push(c2), (fuel - 1) as nat));
    } else if fuel > 0 {
        assert forall|i: int| !#[trigger] is_next(g2, done, i) by {
            assert(!is_next(g1, done, i));
        }
    }
}

/// Listing a graph's edges in another order, or listing one edge again,
/// changes neither whether every dependency exists nor the order produced:
/// the outcome of a successful sort is the same for both graphs.
pub proof fn lemma_order_independent_of_edge_listing(m1: IndexMap<String, Vec<Id>>, m2: IndexMap<String, Vec<Id>>)
    requires
        same_edges(graph_entries(m1), graph_entries(m2)),
    ensures
        no_missing(graph_entries(m1)) == no_missing(graph_entries(m2)),
        sort_order(graph_entries(m1)) == sort_order(graph_entries(m2)),
        names_at(graph_entries(m1), sort_order(graph_entries(m1))) == names_at(
            graph_entries(m2),
            sort_order(graph_entries(m2)),
        ),
{
    let g1 = graph_entries(m1);
    let g2 = graph_entries(m2);
    assert(g1.len() == keys(g1).len());
    assert(g2.len() == keys(g2).len());
    lemma_greedy_same(g1, g2, Seq::empty(), g1.len());
    if no_missing(g1) {
        assert forall|i: int, k: int| 0 <= i < g2.len() && 0 <= k < g2[i].1.len() implies !#[trigger] missing(g2, i, k) by {
            lemma_dep_name(g2, i, k);
            assert(dep_names(g1, i) == dep_names(g2, i));
            let k1 = lemma_dep_of_name(g1, i, g2[i].1[k].name@);
            assert(!missing(g1, i, k1));
        }
    }
    if no_missing(g2) {
        assert forall|i: int, k: int| 0 <= i < g1.len() && 0 <= k < g1[i].1.len() implies !#[trigger] missing(g1, i, k) by {
            lemma_dep_name(g1, i, k);
            assert(dep_names(g1, i) == dep_names(g2, i));
            let k2 = lemma_dep_of_name(g2, i, g1[i].1[k].name@);
            assert(!missing(g2, i, k2));
        }
    }
}

/// Orders the nodes of `deps` so that each comes after everything it depends
/// on, taking the greatest name whenever several nodes could go next.
///
/// Fails with `NonexistentDep` on the first dependency, in graph order, that
/// names no node; otherwise with `Cycle` when some nodes cannot be placed,
/// naming the first dependency of the first such node that cannot be placed
/// either. `kind` names what the nodes are, for the error.
#[verifier::loop_isolation(false)]
pub fn toposort(kind: &str, deps: &IndexMap<String, Vec<Id>>) -> (r: Result<Vec<String>, Error>)
    ensures
        ({
            let g = graph_entries(*deps);
            match r {
                Ok(v) => {
                    &&& no_missing(g)
                    &&& sort_order(g).len() == g.len()
                    &&& v@.map_values(|s: String| s@) == names_at(g, sort_order(g))
                },
                Err(Error::NonexistentDep { span, name, kind: k }) => {
                    &&& k@ == kind@
                    &&& exists|i: int, j: int|
                        #[trigger] is_first_missing(g, i, j) && span == g[i].1[j].span
                            && name@ == g[i].1[j].name@
                },
                Err(Error::Cycle { span, name, kind: k }) => {
                    &&& k@ == kind@
                    &&& no_missing(g)
                    &&& sort_order(g).len() < g.len()
                    &&& exists|i: int, j: int|
                        #[trigger] is_first_stuck(g, sort_order(g), i, j) && span == g[i].1[j].span
                            && name@ == g[i].1[j].name@
                },
            }
        }),
{
    let ghost g = graph_entries(*deps);
    let n: usize = graph_len(deps);

    // Per node: the count of dependencies not yet placed, and the nodes that
    // depend on it (once per edge).
    let mut remaining: Vec<usize> = Vec::new();
    let mut rev: Vec<Vec<usize>> = Vec::new();
    let mut t: usize = 0;
    while t < n
        invariant
            t <= n,
            remaining@.len() == t,
            rev@.len() == t,
            forall|q: int| 0 <= q < t ==> (#[trigger] rev@[q])@.len() == 0,
        decreases n - t,
    {
        remaining.push(0);
        rev.push(Vec::new());
        t = t + 1;
    }
    // The edge (node, position in its list) behind each entry of `rev`.
    let ghost mut revk: Seq<Seq<(int, int)>> = Seq::new(n as nat, |j: int| Seq::<(int, int)>::empty());

    let mut i: usize = 0;
    while i < n
        invariant
            n == g.len(),
            i <= n,
            remaining@.len() == n,
            rev@.len() == n,
            revk.len() == n,
            forall|a: int| 0 <= a < i ==> #[trigger] remaining@[a] == g[a].1.len(),
            forall|a: int, b: int| 0 <= a < i && 0 <= b < g[a].1.len() ==> !#[trigger] missing(g, a, b),
            forall|a: int, c: int| 0 <= a < i && 0 <= c < n && c != a ==> #[trigger] g[c].0 != #[trigger] g[a].0,
            forall|j: int| 0 <= j < n ==> (#[trigger] rev@[j])@.len() == revk[j].len(),
            forall|j: int| 0 <= j < n ==> (#[trigger] revk[j]).no_duplicates(),
            forall|j: int, p: int| 0 <= j < n && 0 <= p < revk[j].len() ==> {
                let e = #[trigger] revk[j][p];
                &&& rev@[j]@[p] == e.0
                &&& 0 <= e.0 < i
                &&& 0 <= e.1 < g[e.0].1.len()
                &&& target(g, e.0, e.1) == j
            },
            forall|a: int, b: int| 0 <= a < i && 0 <= b < g[a].1.len() ==> revk[target(g, a, b)].contains(
                (a, b),
            ),
        decreases n - i,
    {
        let (_name, edges) = graph_entry(deps, i);
        remaining.set(i, edges.len());
        let mut k: usize = 0;
        while k < edges.len()
            invariant
                n == g.len(),
                i < n,
                edges@ == g[i as int].1,
                k <= edges@.len(),
                remaining@.len() == n,
                rev@.len() == n,
                revk.len() == n,
                forall|a: int| 0 <= a <= i ==> #[trigger] remaining@[a] == g[a].1.len(),
                forall|a: int, b: int|
                    0 <= a < i && 0 <= b < g[a].1.len() || a == i && 0 <= b < k ==> !#[trigger] missing(g, a, b),
                forall|a: int, c: int| 0 <= a <= i && 0 <= c < n && c != a ==> #[trigger] g[c].0 != #[trigger] g[a].0,
                forall|j: int| 0 <= j < n ==> (#[trigger] rev@[j])@.len() == revk[j].len(),
                forall|j: int| 0 <= j < n ==> (#[trigger] revk[j]).no_duplicates(),
                forall|j: int, p: int| 0 <= j < n && 0 <= p < revk[j].len() ==> {
                    let e = #[trigger] revk[j][p];
                    &&& rev@[j]@[p] == e.0
                    &&& (0 <= e.0 < i || e.0 == i && e.1 < k)
                    &&& 0 <= e.1 < g[e.0].1.len()
                    &&& target(g, e.0, e.1) == j
                },
                forall|a: int, b: int|
                    0 <= a < i && 0 <= b < g[a].1.len() || a == i && 0 <= b < k ==> revk[target(g, a, b)].contains(
                        (a, b),
                    ),
            decreases edges@.len() - k,
        {
            let edge: &Id = &edges[k];
            match graph_index_of(deps, edge.name.as_str()) {
                None => {
                    proof {
                        assert(is_first_missing(g, i as int, k as int));
                    }
                    return Err(
                        Error::NonexistentDep {
                            span: edge.span,
                            name: edge.name.clone(),
                            kind: kind.to_string(),
                        },
                    );
                },
                Some(j) => {
                    proof {
                        lemma_index_of(g, edge.name@, j as int);
                        assert(target(g, i as int, k as int) == j);
                    }
                    let mut list: Vec<usize> = Vec::new();
                    rev.set_and_swap(j, &mut list);
                    list.push(i);
                    rev.set_and_swap(j, &mut list);
                    proof {
                        let old_revk = revk;
                        revk = revk.update(j as int, revk[j as int].push((i as int, k as int)));
                        assert forall|q: int| 0 <= q < n implies (#[trigger] revk[q]).no_duplicates() by {
                            if q == j {
                                assert(!old_revk[q].contains((i as int, k as int)));
                            }
                        }
                        assert forall|a: int, b: int|
                            0 <= a < i && 0 <= b < g[a].1.len() || a == i && 0 <= b < k + 1 implies revk[target(
                                g,
                                a,
                                b,
                            )].contains((a, b)) by {
                            if a == i && b == k {
                                assert(revk[j as int][revk[j as int].len() - 1] == (a, b));
                            } else {
                                let q = target(g, a, b);
                                assert(!missing(g, a, b));
                                assert(0 <= q < n);
                                assert(old_revk[q].contains((a, b)));
                                let w = choose|w: int| 0 <= w < old_revk[q].len() && old_revk[q][w] == (a, b);
                                if q == j as int {
                                    assert(revk[q] == old_revk[q].push((i as int, k as int)));
                                }
                                assert(revk[q][w] == (a, b));
                            }
                        }
                    }
                },
            }
            k = k + 1;
        }
        i = i + 1;
    }

    // Nodes that are free to go next, and the order so far (`ord` as positions).
    let mut queue: Vec<usize> = Vec::new();
    let mut order: Vec<String> = Vec::new();
    let ghost mut ord: Seq<int> = Seq::empty();
    // The dependencies of each node that are already placed, by position.
    let ghost mut placed: Seq<Set<int>> = Seq::new(n as nat, |a: int| Set::<int>::empty());

    let mut s: usize = 0;
    while s < n
        invariant
            n == g.len(),
            s <= n,
            remaining@.len() == n,
            placed.len() == n,
            forall|a: int| 0 <= a < n ==> #[trigger] remaining@[a] == g[a].1.len(),
            forall|a: int| 0 <= a < n ==> #[trigger] placed[a] == Set::<int>::empty(),
            queue@.no_duplicates(),
            forall|q: usize| #[trigger] queue@.contains(q) <==> q < s && remaining@[q as int] == 0,
        decreases n - s,
    {
        if remaining[s] == 0 {
            proof {
                lemma_push_unique(queue@, s);
            }
            queue.push(s);
        }
        s = s + 1;
    }
    proof {
        assert forall|a: int| 0 <= a < n implies #[trigger] placed[a] == Set::new(
            |b: int| 0 <= b < g[a].1.len() && ord.contains(target(g, a, b)),
        ) by {
            assert(placed[a] =~= Set::new(|b: int| 0 <= b < g[a].1.len() && ord.contains(target(g, a, b))));
        }
        assert(greedy(g, ord, (n - ord.len()) as nat) == sort_order(g));
    }

    while queue.len() > 0
        invariant
            n == g.len(),
            no_missing(g),
            forall|a: int, c: int| 0 <= a < n && 0 <= c < n && c != a ==> #[trigger] g[c].0 != #[trigger] g[a].0,
            remaining@.len() == n,
            rev@.len() == n,
            revk.len() == n,
            placed.len() == n,
            forall|j: int| 0 <= j < n ==> (#[trigger] rev@[j])@.len() == revk[j].len(),
            forall|j: int| 0 <= j < n ==> (#[trigger] revk[j]).no_duplicates(),
            forall|j: int, p: int| 0 <= j < n && 0 <= p < revk[j].len() ==> {
                let e = #[trigger] revk[j][p];
                &&& rev@[j]@[p] == e.0
                &&& 0 <= e.0 < n
                &&& 0 <= e.1 < g[e.0].1.len()
                &&& target(g, e.0, e.1) == j
            },
            forall|a: int, b: int| 0 <= a < n && 0 <= b < g[a].1.len() ==> revk[target(g, a, b)].contains((a, b)),
            order@.len() == ord.len(),
            forall|p: int| 0 <= p < ord.len() ==> (#[trigger] order@[p])@ == g[ord[p]].0,
            ord.no_duplicates(),
            forall|p: int| 0 <= p < ord.len() ==> 0 <= #[trigger] ord[p] < n,
            ord.len() <= n,
            forall|a: int| 0 <= a < n ==> {
                &&& (#[trigger] placed[a]).subset_of(set_int_range(0, g[a].1.len() as int))
                &&& remaining@[a] + placed[a].len() == g[a].1.len()
                &&& placed[a] == Set::new(|b: int| 0 <= b < g[a].1.len() && ord.contains(target(g, a, b)))
            },
            forall|a: int| #[trigger] ord.contains(a) ==> remaining@[a] == 0,
            queue@.no_duplicates(),
            forall|q: usize| #[trigger] queue@.contains(q) <==> q < n && !ord.contains(q as int) && remaining@[q as int] == 0,
            greedy(g, ord, (n - ord.len()) as nat) == sort_order(g),
        decreases n - ord.len(),
    {
        // Take the node of greatest name among those free to go.
        proof {
            assert forall|q: int| 0 <= q < queue@.len() implies 0 <= #[trigger] queue@[q] < n by {
                assert(queue@.contains(queue@[q]));
            }
            lemma_lex_total(g[queue@[0] as int].0, g[queue@[0] as int].0);
        }
        let mut best: usize = 0;
        let mut p: usize = 1;
        while p < queue.len()
            invariant
                n == g.len(),
                forall|q: int| 0 <= q < queue@.len() ==> 0 <= #[trigger] queue@[q] < n,
                0 < queue@.len(),
                best < queue@.len(),
                1 <= p <= queue@.len(),
                forall|q: int| 0 <= q < p ==> !lex_lt(g[queue@[best as int] as int].0, g[#[trigger] queue@[q] as int].0),
            decreases queue@.len() - p,
        {
            let (best_name, _) = graph_entry(deps, queue[best]);
            let (name, _) = graph_entry(deps, queue[p]);
            if str_lt(best_name.as_str(), name.as_str()) {
                proof {
                    assert forall|q: int| 0 <= q < p + 1 implies !lex_lt(
                        g[queue@[p as int] as int].0,
                        g[#[trigger] queue@[q] as int].0,
                    ) by {
                        let bn = g[queue@[best as int] as int].0;
                        let pn = g[queue@[p as int] as int].0;
                        let qn = g[queue@[q] as int].0;
                        lemma_lex_total(pn, qn);
                        lemma_lex_total(bn, qn);
                        if lex_lt(pn, qn) {
                            lemma_lex_trans(bn, pn, qn);
                        }
                    }
                }
                best = p;
            }
            p = p + 1;
        }
        let ghost before = queue@;
        assert(forall|q: usize| #[trigger] before.contains(q) <==> q < n && !ord.contains(q as int) && remaining@[q as int] == 0);
        let x: usize = queue.swap_remove(best);
        proof {
            assert(before.contains(x));
            assert(ready(g, ord, x as int)) by {
                lemma_range_card(placed[x as int], g[x as int].1.len() as int);
                assert forall|k: int| 0 <= k < g[x as int].1.len() implies ord.contains(
                    #[trigger] target(g, x as int, k),
                ) by {
                    assert(placed[x as int].contains(k));
                }
            }
            assert forall|j: int| #[trigger] ready(g, ord, j) && j != x implies lex_lt(g[j].0, g[x as int].0) by {
                lemma_range_card(placed[j], g[j].1.len() as int);
                assert forall|b: int| 0 <= b < g[j].1.len() implies placed[j].contains(b) by {
                    assert(ord.contains(target(g, j, b)));
                }
                assert(before.contains(j as usize));
                let w = choose|w: int| 0 <= w < before.len() && before[w] == j;
                assert(!lex_lt(g[x as int].0, g[before[w] as int].0));
                lemma_lex_total(g[x as int].0, g[j].0);
            }
            assert(is_next(g, ord, x as int));
            lemma_card_lt(ord, n as int, x as int);
            assert forall|i1: int| #[trigger] is_next(g, ord, i1) implies i1 == x by {
                if i1 != x {
                    lemma_lex_total(g[i1].0, g[x as int].0);
                }
            }
            assert(greedy(g, ord, (n - ord.len()) as nat) == greedy(g, ord.push(x as int), (n - ord.len() - 1) as nat));
        }
        let (name, _) = graph_entry(deps, x);
        order.push(name.clone());
        let ghost prev = ord;
        proof {
            ord = ord.push(x as int);
            assert(remaining@[x as int] == 0);
            assert forall|a: int| #[trigger] ord.contains(a) implies remaining@[a] == 0 by {
                if a != x {
                    assert(prev.contains(a));
                }
            }
            assert forall|q: usize| #[trigger] queue@.contains(q) <==> q < n && !ord.contains(q as int) && remaining@[q as int] == 0 by {
                if queue@.contains(q) {
                    let w = choose|w: int| 0 <= w < queue@.len() && queue@[w] == q;
                    assert(before.contains(q));
                    assert(q != x);
                }
                if q < n && !ord.contains(q as int) && remaining@[q as int] == 0 {
                    assert(!prev.contains(q as int));
                    assert(before.contains(q));
                    let w = choose|w: int| 0 <= w < before.len() && before[w] == q;
                    assert(w != best);
                    if w == before.len() - 1 {
                        assert(queue@[best as int] == q);
                    } else {
                        assert(queue@[w] == q);
                    }
                }
            }
        }

        // Every node that depends on `x` has one edge fewer left.
        let dependents: &Vec<usize> = &rev[x];
        let mut d: usize = 0;
        while d < dependents.len()
            invariant
                n == g.len(),
                no_missing(g),
                0 <= x < n,
                dependents@ == rev@[x as int]@,
                dependents@.len() == revk[x as int].len(),
                d <= dependents@.len(),
                remaining@.len() == n,
                revk.len() == n,
                placed.len() == n,
                revk[x as int].no_duplicates(),
                forall|p: int| 0 <= p < revk[x as int].len() ==> {
                    let e = #[trigger] revk[x as int][p];
                    &&& dependents@[p] == e.0
                    &&& 0 <= e.0 < n
                    &&& 0 <= e.1 < g[e.0].1.len()
                    &&& target(g, e.0, e.1) == x
                },
                ord == prev.push(x as int),
                !prev.contains(x as int),
                forall|a: int| 0 <= a < n ==> {
                    &&& (#[trigger] placed[a]).subset_of(set_int_range(0, g[a].1.len() as int))
                    &&& remaining@[a] + placed[a].len() == g[a].1.len()
                    &&& placed[a] == Set::new(
                        |b: int|
                            0 <= b < g[a].1.len() && (prev.contains(target(g, a, b)) || revk[x as int].take(
                                d as int,
                            ).contains((a, b))),
                    )
                },
                forall|a: int| #[trigger] ord.contains(a) ==> remaining@[a] == 0,
                queue@.no_duplicates(),
                forall|q: usize| #[trigger] queue@.contains(q) <==> q < n && !ord.contains(q as int) && remaining@[q as int] == 0,
            decreases dependents@.len() - d,
        {
            let a: usize = dependents[d];
            let ghost b: int = revk[x as int][d as int].1;
            proof {
                assert(!placed[a as int].contains(b)) by {
                    if revk[x as int].take(d as int).contains((a as int, b)) {
                        let w = choose|w: int| 0 <= w < d && revk[x as int].take(d as int)[w] == (a as int, b);
                        assert(revk[x as int][w] == revk[x as int][d as int]);
                    }
                }
                lemma_range_card(placed[a as int], g[a as int].1.len() as int);
                assert(!ord.contains(a as int)) by {
                    if ord.contains(a as int) {
                        assert(placed[a as int].len() == g[a as int].1.len());
                    }
                }
            }
            let left: usize = remaining[a] - 1;
            remaining.set(a, left);
            proof {
                let old_placed = placed;
                placed = placed.update(a as int, placed[a as int].insert(b));
                assert(revk[x as int].take(d + 1) == revk[x as int].take(d as int).push((a as int, b)));
                assert forall|c: int| 0 <= c < n implies {
                    &&& (#[trigger] placed[c]).subset_of(set_int_range(0, g[c].1.len() as int))
                    &&& remaining@[c] + placed[c].len() == g[c].1.len()
                    &&& placed[c] == Set::new(
                        |b1: int|
                            0 <= b1 < g[c].1.len() && (prev.contains(target(g, c, b1)) || revk[x as int].take(
                                d + 1,
                            ).contains((c, b1))),
                    )
                } by {
                    assert(placed[c] =~= Set::new(
                        |b1: int|
                            0 <= b1 < g[c].1.len() && (prev.contains(target(g, c, b1)) || revk[x as int].take(
                                d + 1,
                            ).contains((c, b1))),
                    ));
                }
            }
            if left == 0 {
                proof {
                    lemma_push_unique(queue@, a);
                }
                queue.push(a);
            }
            d = d + 1;
        }
        proof {
            assert(revk[x as int].take(d as int) == revk[x as int]);
            assert forall|a: int| 0 <= a < n implies #[trigger] placed[a] == Set::new(
                |b: int| 0 <= b < g[a].1.len() && ord.contains(target(g, a, b)),
            ) by {
                assert forall|b: int| 0 <= b < g[a].1.len() && target(g, a, b) == x implies revk[x as int].contains((a, b)) by {
                }
                assert forall|b: int| 0 <= b < g[a].1.len() && #[trigger] revk[x as int].contains((a, b)) implies target(g, a, b) == x by {
                    let w = choose|w: int| 0 <= w < revk[x as int].len() && revk[x as int][w] == (a, b);
                }
                assert(placed[a] =~= Set::new(|b: int| 0 <= b < g[a].1.len() && ord.contains(target(g, a, b))));
            }
            assert forall|p: int| 0 <= p < ord.len() implies (#[trigger] order@[p])@ == g[ord[p]].0 by {
            }
        }
    }

    // Nothing is free to go: the order is complete, or what is left is stuck.
    proof {
        assert forall|i1: int| !#[trigger] is_next(g, ord, i1) by {
            if is_next(g, ord, i1) {
                lemma_range_card(placed[i1], g[i1].1.len() as int);
                assert forall|b: int| 0 <= b < g[i1].1.len() implies placed[i1].contains(b) by {
                    assert(ord.contains(target(g, i1, b)));
                }
                assert(queue@.contains(i1 as usize));
            }
        }
        assert(ord == sort_order(g));
        assert(order@.map_values(|s: String| s@) =~= names_at(g, ord));
    }
    if order.len() == n {
        return Ok(order);
    }

    let mut i: usize = 0;
    while i < n && remaining[i] == 0
        invariant
            n == g.len(),
            i <= n,
            remaining@.len() == n,
            queue@.len() == 0,
            forall|q: usize| #[trigger] queue@.contains(q) <==> q < n && !ord.contains(q as int) && remaining@[q as int] == 0,
            forall|a: int| 0 <= a < i ==> ord.contains(a),
        decreases n - i,
    {
        proof {
            assert(!queue@.contains(i));
        }
        i = i + 1;
    }
    proof {
        if i == n {
            lemma_card_cover(ord, n as int);
        }
        lemma_range_card(placed[i as int], g[i as int].1.len() as int);
    }
    let (_name, edges) = graph_entry(deps, i);
    let m: usize = edges.len();
    let mut k: usize = 0;
    loop
        invariant
            n == g.len(),
            i < n,
            no_missing(g),
            edges@ == g[i as int].1,
            k < edges@.len(),
            m == edges@.len(),
            remaining@.len() == n,
            forall|a: int| #[trigger] ord.contains(a) ==> remaining@[a] == 0,
            forall|q: usize| #[trigger] queue@.contains(q) <==> q < n && !ord.contains(q as int) && remaining@[q as int] == 0,
            queue@.len() == 0,
            forall|a: int| 0 <= a < n ==> #[trigger] placed[a] == Set::new(
                |b: int| 0 <= b < g[a].1.len() && ord.contains(target(g, a, b)),
            ),
            placed[i as int].len() < g[i as int].1.len(),
            placed[i as int].subset_of(set_int_range(0, g[i as int].1.len() as int)),
            forall|b: int| 0 <= b < k ==> ord.contains(#[trigger] target(g, i as int, b)),
            !ord.contains(i as int),
            forall|a: int| 0 <= a < i ==> ord.contains(a),
            ord == sort_order(g),
            ord.len() < n,
        decreases edges@.len() - k,
    {
        let edge: &Id = &edges[k];
        let found = graph_index_of(deps, edge.name.as_str());
        proof {
            assert(!missing(g, i as int, k as int));
        }
        let j: usize = found.unwrap();
        proof {
            lemma_index_of(g, edge.name@, j as int);
        }
        if remaining[j] != 0 {
            proof {
                assert(is_first_stuck(g, ord, i as int, k as int));
            }
            return Err(Error::Cycle { span: edge.span, name: edge.name.clone(), kind: kind.to_string() });
        }
        proof {
            assert(!queue@.contains(j));
            assert(ord.contains(target(g, i as int, k as int)));
            if k + 1 == edges@.len() {
                lemma_range_card(placed[i as int], g[i as int].1.len() as int);
                assert forall|b: int| 0 <= b < g[i as int].1.len() implies placed[i as int].contains(b) by {
                    assert(ord.contains(target(g, i as int, b)));
                }
            }
        }
        k = k + 1;
    }
}

} // verus!
