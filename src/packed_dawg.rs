use vstd::prelude::*;

use crate::graph::{
    lemma_char_code_distinct, lemma_sorted_eq, lemma_sorted_push, lemma_sorted_redirect, sorted_labels, sorted_ok,
    coacc, lemma_walk_mono,
    lemma_walk_bounded, lemma_walk_not_root, no_root_entry,
    accepts, lemma_accepts_unfold, lemma_add_leaf, lemma_find_none, lemma_find_push, lemma_find_update, lemma_redirect, distinct_labels, find_from, graph_wf, lemma_find_distinct, lemma_find_some,
    lemma_walk_append, lemma_walk_push, step, walk,
};
use crate::levenshtein::{lemma_lev_extend, lemma_lev_self, lemma_lev_zero, lemma_lev_lower_bound, lev, min2};
use crate::utilities::{common_prefix, normalized, prep_word, shared_len};

verus! {

/// A minimized acyclic word automaton: an arena of nodes (accepting or not)
/// and, for each node, the list of its outgoing labelled edges.
pub struct PackedDawg {
    nodes: Vec<bool>,
    edges: Vec<Vec<(char, usize)>>,
}

/// Incremental construction of a `PackedDawg` from words given in strictly
/// ascending order. Words out of order are ignored.
pub struct PackedDawgBuilder {
    previous_word: Vec<char>,
    nodes: Vec<bool>,
    /// Nodes whose edges are frozen, checked for equivalence with new ones.
    minimized_nodes: Vec<usize>,
    /// The path of the previous word below the last frozen node:
    /// (parent, symbol, child), root first.
    unchecked_nodes: Vec<(usize, char, usize)>,
    edges: Vec<Vec<(char, usize)>>,
    started: bool,
    words: Ghost<Set<Seq<char>>>,
    /// Nodes merged away into an equivalent frozen node.
    dead: Ghost<Set<int>>,
}

/// The node that the `i`-th frontier entry hangs below: the root for 0.
pub open spec fn chain_node(u: Seq<(usize, char, usize)>, i: int) -> int {
    if i == 0 {
        0
    } else {
        u[i - 1].2 as int
    }
}

/// No edge enters the root, and the only edge into a frontier node is the
/// frontier's own, on the symbol of `w` at that depth.
pub open spec fn entry_ok(e: Seq<Seq<(char, usize)>>, u: Seq<(usize, char, usize)>, w: Seq<char>) -> bool {
    &&& u.len() <= w.len()
    &&& forall|i: int|
        0 <= i < u.len() ==> (#[trigger] u[i]).0 as int == chain_node(u, i) && u[i].1 == w[i]
    &&& forall|y: int, kk: int|
        0 <= y < e.len() && 0 <= kk < e[y].len() ==> (#[trigger] e[y][kk]).1 != 0
    &&& forall|y: int, kk: int, i: int|
        0 <= y < e.len() && 0 <= kk < e[y].len() && 0 <= i < u.len() && (#[trigger] e[y][kk]).1
            == (#[trigger] u[i]).2 ==> y == u[i].0 && e[y][kk].0 == u[i].1
}

/// The frontier `u` spells a prefix of `w` from the root, is reached by no
/// other edge, holds no frozen node, and each of its nodes has edges only on
/// symbols up to the next symbol of `w`.
pub open spec fn frontier_ok(
    nodes: Seq<bool>,
    e: Seq<Seq<(char, usize)>>,
    u: Seq<(usize, char, usize)>,
    m: Seq<usize>,
    w: Seq<char>,
) -> bool {
    &&& graph_wf(nodes, e)
    &&& u.len() <= w.len()
    &&& forall|i: int|
        0 <= i < u.len() ==> {
            &&& (#[trigger] u[i]).0 as int == chain_node(u, i)
            &&& u[i].0 < u[i].2 < nodes.len()
            &&& u[i].1 == w[i]
            &&& step(e, u[i].0 as int, u[i].1) == Some(u[i].2 as int)
        }
    &&& forall|i: int, j: int| 0 <= i < j < u.len() ==> u[i].2 < u[j].2
    &&& entry_ok(e, u, w)
    &&& forall|r: int| 0 <= r < m.len() ==> 0 < #[trigger] m[r] < nodes.len()
    &&& forall|r: int, i: int| 0 <= r < m.len() && 0 <= i < u.len() ==> #[trigger] m[r] != (#[trigger] u[i]).2
    &&& forall|i: int, kk: int|
        0 <= i <= u.len() && 0 <= kk < e[chain_node(u, i)].len() ==> i < w.len() && (#[trigger] e[chain_node(
            u,
            i,
        )][kk]).0 as u32 <= w[i] as u32
}

/// No node is frozen twice, and no two frozen nodes have the same flag and
/// the same edges.
#[verifier::opaque]
pub open spec fn registry_distinct(nodes: Seq<bool>, e: Seq<Seq<(char, usize)>>, m: Seq<usize>) -> bool {
    forall|a: int, b: int|
        0 <= a < b < m.len() ==> #[trigger] m[a] != #[trigger] m[b] && !(nodes[m[a] as int] == nodes[m[b] as int]
            && e[m[a] as int] == e[m[b] as int])
}

/// `dead` holds the nodes merged away: the root, the frontier and the frozen
/// nodes are not among them, no edge of a live node enters one, and every other
/// live node is on the frontier or frozen.
#[verifier::opaque]
pub open spec fn live_ok(
    nodes: Seq<bool>,
    e: Seq<Seq<(char, usize)>>,
    u: Seq<(usize, char, usize)>,
    m: Seq<usize>,
    dead: Set<int>,
) -> bool {
    &&& !dead.contains(0)
    &&& forall|d: int| #[trigger] dead.contains(d) ==> 0 <= d < nodes.len()
    &&& forall|i: int| 0 <= i < u.len() ==> !dead.contains(#[trigger] u[i].2 as int)
    &&& forall|r: int| 0 <= r < m.len() ==> !dead.contains(#[trigger] m[r] as int)
    &&& forall|y: int, kk: int|
        0 <= y < e.len() && 0 <= kk < e[y].len() && !dead.contains(y) ==> !dead.contains(
            (#[trigger] e[y][kk]).1 as int,
        )
    &&& forall|y: int|
        0 < y < nodes.len() && !#[trigger] dead.contains(y) ==> m.contains(y as usize) || exists|i: int|
            0 <= i < u.len() && #[trigger] u[i].2 == y
}

/// A walk from the root ends on a live node.
pub proof fn lemma_walk_live(
    nodes: Seq<bool>,
    e: Seq<Seq<(char, usize)>>,
    u: Seq<(usize, char, usize)>,
    m: Seq<usize>,
    dead: Set<int>,
    s: Seq<char>,
)
    requires
        graph_wf(nodes, e),
        live_ok(nodes, e, u, m, dead),
        walk(e, 0, s) is Some,
    ensures
        !dead.contains(walk(e, 0, s)->0),
    decreases s.len(),
{
    reveal(live_ok);
    if s.len() > 0 {
        let s1 = s.drop_last();
        assert(s =~= s1.push(s.last()));
        lemma_walk_push(e, 0, s1, s.last());
        lemma_walk_live(nodes, e, u, m, dead, s1);
        let y = walk(e, 0, s1)->0;
        lemma_find_some(e[y], s.last(), 0);
    }
}

/// A walk that ends on a frontier node came down the frontier itself.
#[verifier::rlimit(100)]
pub proof fn lemma_chain_walk(
    e: Seq<Seq<(char, usize)>>,
    u: Seq<(usize, char, usize)>,
    w: Seq<char>,
    x: int,
    s: Seq<char>,
    i: int,
)
    requires
        entry_ok(e, u, w),
        0 <= i <= u.len(),
        walk(e, x, s) == Some(chain_node(u, i)),
    ensures
        s.len() <= i,
        x == chain_node(u, i - s.len()),
        s == w.subrange(i - s.len(), i),
    decreases s.len(),
{
    if s.len() > 0 {
        let y = step(e, x, s[0])->0;
        lemma_chain_walk(e, u, w, y, s.drop_first(), i);
        let j = i - (s.len() - 1);
        lemma_find_some(e[x], s[0], 0);
        let kk = choose|kk: int| 0 <= kk < e[x].len() && #[trigger] e[x][kk] == (s[0], find_from(e[x], s[0], 0)->0);
        assert(e[x][kk].1 != 0);
        assert(j > 0);
        assert(e[x][kk].1 == u[j - 1].2);
        assert(x == u[j - 1].0);
        assert(s[0] == u[j - 1].1);
        assert(u[j - 1].1 == w[j - 1]);
        assert(s.drop_first() == w.subrange(j, i));
        assert forall|t: int| 0 <= t < s.len() implies s[t] == w.subrange(j - 1, i)[t] by {
            if t > 0 {
                assert(s[t] == s.drop_first()[t - 1]);
            }
        }
        assert(s =~= w.subrange(j - 1, i));
    } else {
        assert(s =~= w.subrange(i, i));
    }
}

/// Walking a prefix of `w` down the frontier reaches the matching frontier node.
pub proof fn lemma_walk_chain(
    nodes: Seq<bool>,
    e: Seq<Seq<(char, usize)>>,
    u: Seq<(usize, char, usize)>,
    m: Seq<usize>,
    w: Seq<char>,
    i: int,
)
    requires
        frontier_ok(nodes, e, u, m, w),
        0 <= i <= u.len(),
    ensures
        walk(e, 0, w.take(i)) == Some(chain_node(u, i)),
    decreases i,
{
    if i > 0 {
        lemma_walk_chain(nodes, e, u, m, w, i - 1);
        assert(w.take(i) =~= w.take(i - 1).push(w[i - 1]));
        lemma_walk_push(e, 0, w.take(i - 1), w[i - 1]);
        assert(u[i - 1].0 as int == chain_node(u, i - 1));
    } else {
        assert(w.take(0).len() == 0);
    }
}

/// Popping the last frontier entry and freezing its node keeps the frontier sound.
proof fn lemma_pop_freeze(
    nodes: Seq<bool>,
    e: Seq<Seq<(char, usize)>>,
    u: Seq<(usize, char, usize)>,
    m: Seq<usize>,
    w: Seq<char>,
)
    requires
        frontier_ok(nodes, e, u, m, w),
        u.len() > 0,
    ensures
        frontier_ok(nodes, e, u.drop_last(), m.push(u.last().2), w),
        chain_facts(e, u, m),
{
    let u2 = u.drop_last();
    let last = u.len() - 1;
    assert forall|i: int| 0 <= i <= last implies chain_node(u2, i) == chain_node(u, i) by {}
    assert(u[last].0 < u[last].2);
}

/// Popping the last frontier entry and sending its edge to an equivalent frozen
/// node `n` keeps the frontier sound and the language the same.
#[verifier::rlimit(50)]
proof fn lemma_pop_merge(
    nodes: Seq<bool>,
    e: Seq<Seq<(char, usize)>>,
    u: Seq<(usize, char, usize)>,
    m: Seq<usize>,
    w: Seq<char>,
    n: usize,
    idx: int,
)
    requires
        frontier_ok(nodes, e, u, m, w),
        u.len() > 0,
        exists|j: int| 0 <= j < m.len() && #[trigger] m[j] == n,
        n < nodes.len(),
        nodes[n as int] == nodes[u.last().2 as int],
        e[n as int] == e[u.last().2 as int],
        0 <= idx < e[u.last().0 as int].len(),
        e[u.last().0 as int][idx].0 == u.last().1,
    ensures
        ({
            let (parent, letter, child) = u.last();
            let e2 = e.update(parent as int, e[parent as int].update(idx, (letter, n)));
            &&& frontier_ok(nodes, e2, u.drop_last(), m, w)
            &&& forall|x: int, s: Seq<char>| #[trigger] accepts(nodes, e2, x, s) == accepts(nodes, e, x, s)
        }),
        chain_facts(e, u, m),
{
    let (parent, letter, child) = u.last();
    let e2 = e.update(parent as int, e[parent as int].update(idx, (letter, n)));
    let u2 = u.drop_last();
    let last = u.len() - 1;
    assert forall|i: int| 0 <= i <= last implies chain_node(u2, i) == chain_node(u, i) by {}
    assert forall|i: int| 0 <= i < last implies (#[trigger] u[i]).0 != parent by {
        if i > 0 {
            assert(u[i - 1].2 < u[last - 1].2);
        } else if last > 0 {
            assert(u[last - 1].0 < u[last - 1].2);
        }
    }
    lemma_find_update(e[parent as int], idx, letter, n, letter);
    assert forall|y: int, d: char| #[trigger] step(e2, y, d) == if y == parent && d == letter {
        Some(n as int)
    } else {
        step(e, y, d)
    } by {
        if y == parent {
            lemma_find_update(e[parent as int], idx, letter, n, d);
        }
    }
    assert forall|x: int, s: Seq<char>| #[trigger] accepts(nodes, e2, x, s) == accepts(nodes, e, x, s) by {
        lemma_redirect(nodes, e, e2, parent as int, letter, child as int, n as int, x, s);
    }
    let jn = choose|j: int| 0 <= j < m.len() && #[trigger] m[j] == n;
    assert(0 < m[jn]);
    assert forall|y: int, kk: int| 0 <= y < e2.len() && 0 <= kk < e2[y].len() implies (#[trigger] e2[y][kk]).0
        == e[y][kk].0 && (e2[y][kk].1 == e[y][kk].1 || e2[y][kk].1 == n) by {}
}

/// What the frontier invariant gives about its last entry, in brief.
pub open spec fn chain_facts(e: Seq<Seq<(char, usize)>>, u: Seq<(usize, char, usize)>, m: Seq<usize>) -> bool {
    let (parent, letter, child) = u.last();
    &&& u.len() > 0
    &&& 0 <= parent < e.len()
    &&& 0 < child < e.len()
    &&& distinct_labels(e[parent as int])
    &&& forall|i: int, j: int| 0 <= i < j < u.len() ==> u[i].2 < u[j].2
    &&& forall|r: int| 0 <= r < m.len() ==> #[trigger] m[r] != child && m[r] != parent && m[r] != 0 && m[r] < e.len()
    &&& forall|y: int, kk: int|
        0 <= y < e.len() && 0 <= kk < e[y].len() && (#[trigger] e[y][kk]).1 == child ==> y == parent && e[y][kk].0
            == letter
}

/// Freezing the popped node keeps the frozen nodes distinct and the dead
/// nodes out of reach.
proof fn lemma_freeze_extra(
    nodes: Seq<bool>,
    e: Seq<Seq<(char, usize)>>,
    u: Seq<(usize, char, usize)>,
    m: Seq<usize>,
    dead: Set<int>,
)
    requires
        chain_facts(e, u, m),
        registry_distinct(nodes, e, m),
        live_ok(nodes, e, u, m, dead),
        forall|j: int| 0 <= j < m.len() ==> !(nodes[#[trigger] m[j] as int] == nodes[u.last().2 as int] && e[m[j] as int] == e[u.last().2 as int]),
    ensures
        registry_distinct(nodes, e, m.push(u.last().2)),
        live_ok(nodes, e, u.drop_last(), m.push(u.last().2), dead),
{
    reveal(registry_distinct);
    reveal(live_ok);
    let u2 = u.drop_last();
    let last = u.len() - 1;
    let m2 = m.push(u.last().2);
    assert(m2[m.len() as int] == u.last().2);
    assert forall|a: int| 0 <= a < m.len() implies m2[a] == m[a] by {}
    assert forall|r: int| 0 <= r < m2.len() implies !dead.contains(#[trigger] m2[r] as int) by {
        if r == m.len() {
            assert(u[last].2 == m2[r]);
        }
    }
    assert forall|i: int| 0 <= i < u2.len() implies !dead.contains(#[trigger] u2[i].2 as int) by {
        assert(u2[i] == u[i]);
    }
    assert forall|y: int|
        0 < y < nodes.len() && !#[trigger] dead.contains(y) implies m2.contains(y as usize) || exists|i: int|
            0 <= i < u2.len() && #[trigger] u2[i].2 == y by {
        if m.contains(y as usize) {
            let r = choose|r: int| 0 <= r < m.len() && m[r] == y as usize;
            assert(m2[r] == y as usize);
        } else {
            let i = choose|i: int| 0 <= i < u.len() && #[trigger] u[i].2 == y;
            if i == last {
                assert(m2[m.len() as int] == y as usize);
            } else {
                assert(u2[i] == u[i]);
            }
        }
    }
}

/// Sending the popped edge to an equivalent frozen node `n` keeps the frozen
/// nodes distinct and leaves the popped node dead.
proof fn lemma_merge_extra(
    nodes: Seq<bool>,
    e: Seq<Seq<(char, usize)>>,
    u: Seq<(usize, char, usize)>,
    m: Seq<usize>,
    dead: Set<int>,
    n: usize,
    idx: int,
)
    requires
        chain_facts(e, u, m),
        registry_distinct(nodes, e, m),
        live_ok(nodes, e, u, m, dead),
        exists|j: int| 0 <= j < m.len() && #[trigger] m[j] == n,
        0 <= idx < e[u.last().0 as int].len(),
        e[u.last().0 as int][idx].0 == u.last().1,
        nodes.len() == e.len(),
    ensures
        ({
            let (parent, letter, child) = u.last();
            let e2 = e.update(parent as int, e[parent as int].update(idx, (letter, n)));
            &&& registry_distinct(nodes, e2, m)
            &&& live_ok(nodes, e2, u.drop_last(), m, dead.insert(child as int))
        }),
{
    reveal(registry_distinct);
    reveal(live_ok);
    let (parent, letter, child) = u.last();
    let e2 = e.update(parent as int, e[parent as int].update(idx, (letter, n)));
    let u2 = u.drop_last();
    let last = u.len() - 1;
    let dead2 = dead.insert(child as int);
    assert forall|a: int| 0 <= a < m.len() implies e2[#[trigger] m[a] as int] == e[m[a] as int] by {}
    let jn = choose|j: int| 0 <= j < m.len() && #[trigger] m[j] == n;
    assert(!dead.contains(m[jn] as int));
    assert forall|y: int, kk: int|
        0 <= y < e2.len() && 0 <= kk < e2[y].len() && !dead2.contains(y) implies !dead2.contains(
            (#[trigger] e2[y][kk]).1 as int,
        ) by {
        if y == parent && kk == idx {
        } else {
            assert(e2[y][kk] == e[y][kk]);
            if e[y][kk].1 == child {
                assert(e[y][kk].0 == letter);
            }
        }
    }
    assert forall|y: int|
        0 < y < nodes.len() && !#[trigger] dead2.contains(y) implies m.contains(y as usize) || exists|i: int|
            0 <= i < u2.len() && #[trigger] u2[i].2 == y by {
        assert(!dead.contains(y));
        if !m.contains(y as usize) {
            let i = choose|i: int| 0 <= i < u.len() && #[trigger] u[i].2 == y;
            assert(i != last);
            assert(u2[i] == u[i]);
        }
    }
    assert forall|i: int| 0 <= i < u2.len() implies !dead2.contains(#[trigger] u2[i].2 as int) by {
        assert(u2[i] == u[i]);
        assert(u[i].2 < u[last].2);
    }
    assert forall|r: int| 0 <= r < m.len() implies !dead2.contains(#[trigger] m[r] as int) by {}
}

/// A fresh leaf hung below the frontier's tail keeps the frozen nodes distinct
/// and joins the live nodes.
proof fn lemma_push_extra(
    nodes: Seq<bool>,
    e: Seq<Seq<(char, usize)>>,
    u: Seq<(usize, char, usize)>,
    m: Seq<usize>,
    dead: Set<int>,
    node: usize,
    c: char,
)
    requires
        registry_distinct(nodes, e, m),
        live_ok(nodes, e, u, m, dead),
        nodes.len() == e.len(),
        nodes.len() <= usize::MAX,
        node < nodes.len(),
        !dead.contains(node as int),
        forall|r: int| 0 <= r < m.len() ==> #[trigger] m[r] != node && m[r] < nodes.len(),
    ensures
        registry_distinct(
            nodes.push(false),
            e.push(Seq::empty()).update(node as int, e[node as int].push((c, nodes.len() as usize))),
            m,
        ),
        live_ok(
            nodes.push(false),
            e.push(Seq::empty()).update(node as int, e[node as int].push((c, nodes.len() as usize))),
            u.push((node, c, nodes.len() as usize)),
            m,
            dead,
        ),
{
    reveal(registry_distinct);
    reveal(live_ok);
    let n = nodes.len() as usize;
    let nodes2 = nodes.push(false);
    let e2 = e.push(Seq::empty()).update(node as int, e[node as int].push((c, n)));
    let u2 = u.push((node, c, n));
    assert(!dead.contains(n as int)) by {
        if dead.contains(n as int) {
        }
    }
    assert forall|a: int| 0 <= a < m.len() implies e2[#[trigger] m[a] as int] == e[m[a] as int] && nodes2[m[a] as int] == nodes[m[a] as int] by {
        assert(!dead.contains(m[a] as int));
    }
    assert forall|i: int| 0 <= i < u2.len() implies !dead.contains(#[trigger] u2[i].2 as int) by {
        if i < u.len() {
            assert(u2[i] == u[i]);
        }
    }
    assert forall|y: int, kk: int|
        0 <= y < e2.len() && 0 <= kk < e2[y].len() && !dead.contains(y) implies !dead.contains(
            (#[trigger] e2[y][kk]).1 as int,
        ) by {
        if y == node && kk == e[node as int].len() {
        } else if y < e.len() {
            assert(e2[y][kk] == e[y][kk]);
        }
    }
    assert forall|y: int|
        0 < y < nodes2.len() && !#[trigger] dead.contains(y) implies m.contains(y as usize) || exists|i: int|
            0 <= i < u2.len() && #[trigger] u2[i].2 == y by {
        if y == n {
            assert(u2[u.len() as int].2 == y);
        } else if !m.contains(y as usize) {
            let i = choose|i: int| 0 <= i < u.len() && #[trigger] u[i].2 == y;
            assert(u2[i] == u[i]);
        }
    }
}

/// Marking a node that is not frozen as a word end keeps the frozen nodes
/// distinct and the live nodes as they were.
proof fn lemma_mark_extra(
    nodes: Seq<bool>,
    e: Seq<Seq<(char, usize)>>,
    u: Seq<(usize, char, usize)>,
    m: Seq<usize>,
    dead: Set<int>,
    v: int,
)
    requires
        registry_distinct(nodes, e, m),
        live_ok(nodes, e, u, m, dead),
        0 <= v < nodes.len(),
        forall|r: int| 0 <= r < m.len() ==> #[trigger] m[r] != v && m[r] < nodes.len(),
    ensures
        registry_distinct(nodes.update(v, true), e, m),
        live_ok(nodes.update(v, true), e, u, m, dead),
{
    reveal(registry_distinct);
    reveal(live_ok);
    let nodes2 = nodes.update(v, true);
    assert forall|a: int| 0 <= a < m.len() implies nodes2[#[trigger] m[a] as int] == nodes[m[a] as int] by {}
}

/// Frontier nodes and the root are live.
proof fn lemma_live_chain(
    nodes: Seq<bool>,
    e: Seq<Seq<(char, usize)>>,
    u: Seq<(usize, char, usize)>,
    m: Seq<usize>,
    dead: Set<int>,
    i: int,
)
    requires
        live_ok(nodes, e, u, m, dead),
        0 <= i <= u.len(),
    ensures
        !dead.contains(chain_node(u, i)),
{
    reveal(live_ok);
    if i > 0 {
        assert(!dead.contains(u[i - 1].2 as int));
    }
}

/// Once the frontier is empty, the root and the frozen nodes are all that the
/// root reaches, so no two nodes it reaches past the root are equivalent.
proof fn lemma_minimal(
    nodes: Seq<bool>,
    e: Seq<Seq<(char, usize)>>,
    m: Seq<usize>,
    dead: Set<int>,
    s1: Seq<char>,
    s2: Seq<char>,
)
    requires
        graph_wf(nodes, e),
        no_root_entry(e),
        live_ok(nodes, e, Seq::empty(), m, dead),
        registry_distinct(nodes, e, m),
        s1.len() > 0,
        s2.len() > 0,
        walk(e, 0, s1) is Some,
        walk(e, 0, s2) is Some,
        walk(e, 0, s1) != walk(e, 0, s2),
        nodes.len() <= usize::MAX,
    ensures
        ({
            let v1 = walk(e, 0, s1)->0;
            let v2 = walk(e, 0, s2)->0;
            !(nodes[v1] == nodes[v2] && e[v1] == e[v2])
        }),
{
    lemma_walk_live(nodes, e, Seq::empty(), m, dead, s1);
    lemma_walk_live(nodes, e, Seq::empty(), m, dead, s2);
    lemma_walk_not_root(e, 0, s1);
    lemma_walk_not_root(e, 0, s2);
    reveal(live_ok);
    reveal(registry_distinct);
    let v1 = walk(e, 0, s1)->0;
    let v2 = walk(e, 0, s2)->0;
    assert(0 < v1 < nodes.len() && 0 < v2 < nodes.len()) by {
        lemma_walk_bounded(nodes, e, 0, s1);
        lemma_walk_bounded(nodes, e, 0, s2);
    }
    assert(m.contains(v1 as usize));
    assert(m.contains(v2 as usize));
    let a = choose|a: int| 0 <= a < m.len() && m[a] == v1 as usize;
    let b = choose|b: int| 0 <= b < m.len() && m[b] == v2 as usize;
    assert(m[a] as int == v1 && m[b] as int == v2);
    if a < b {
        assert(m[a] != m[b]);
    } else if b < a {
        assert(m[b] != m[a]);
    }
}

/// Every live node reaches a word; the root only once some word is in.
#[verifier::opaque]
pub open spec fn coacc_ok(nodes: Seq<bool>, e: Seq<Seq<(char, usize)>>, dead: Set<int>, started: bool) -> bool {
    forall|y: int| 0 <= y < nodes.len() && !dead.contains(y) && (y != 0 || started) ==> #[trigger] coacc(nodes, e, y)
}

/// `coacc_ok` for the nodes below `len0`.
#[verifier::opaque]
pub open spec fn coacc_below(nodes: Seq<bool>, e: Seq<Seq<(char, usize)>>, dead: Set<int>, started: bool, len0: int) -> bool {
    forall|y: int| 0 <= y < len0 && !dead.contains(y) && (y != 0 || started) ==> #[trigger] coacc(nodes, e, y)
}

/// The frontier entries from `k` to `j` are the nodes made since the arena
/// had `len0` nodes, in order, and each leads along `w` to `node`.
#[verifier::opaque]
pub open spec fn new_tail(
    e: Seq<Seq<(char, usize)>>,
    u: Seq<(usize, char, usize)>,
    w: Seq<char>,
    k: int,
    j: int,
    len0: int,
    node: int,
) -> bool {
    forall|i: int|
        k <= i < j ==> (#[trigger] u[i]).2 == len0 + i - k && walk(e, u[i].2 as int, w.subrange(i + 1, j)) == Some(node)
}

/// Changing no language keeps every live node reaching a word.
proof fn lemma_coacc_same(
    nodes: Seq<bool>,
    e: Seq<Seq<(char, usize)>>,
    e2: Seq<Seq<(char, usize)>>,
    dead: Set<int>,
    dead2: Set<int>,
    started: bool,
)
    requires
        coacc_ok(nodes, e, dead, started),
        forall|x: int, s: Seq<char>| #[trigger] accepts(nodes, e2, x, s) == accepts(nodes, e, x, s),
        dead.subset_of(dead2),
    ensures
        coacc_ok(nodes, e2, dead2, started),
{
    reveal(coacc_ok);
    assert forall|y: int| 0 <= y < nodes.len() && !dead2.contains(y) && (y != 0 || started) implies #[trigger] coacc(nodes, e2, y) by {
        assert(coacc(nodes, e, y));
        let t = choose|t: Seq<char>| #[trigger] accepts(nodes, e, y, t);
        assert(accepts(nodes, e2, y, t));
    }
}

/// Before the new nodes of a word are made.
proof fn lemma_tail_start(
    nodes: Seq<bool>,
    e: Seq<Seq<(char, usize)>>,
    u: Seq<(usize, char, usize)>,
    dead: Set<int>,
    started: bool,
    w: Seq<char>,
    k: int,
    node: int,
)
    requires
        coacc_ok(nodes, e, dead, started),
    ensures
        coacc_below(nodes, e, dead, started, nodes.len() as int),
        new_tail(e, u, w, k, k, nodes.len() as int, node),
{
    reveal(coacc_ok);
    reveal(coacc_below);
    reveal(new_tail);
}

/// A fresh leaf below `node` on `w[j]`: old nodes reach the same words, and
/// the new nodes lead along `w` to the leaf.
proof fn lemma_tail_step(
    nodes: Seq<bool>,
    e: Seq<Seq<(char, usize)>>,
    nodes2: Seq<bool>,
    e2: Seq<Seq<(char, usize)>>,
    u: Seq<(usize, char, usize)>,
    dead: Set<int>,
    started: bool,
    w: Seq<char>,
    k: int,
    j: int,
    len0: int,
    node: int,
)
    requires
        graph_wf(nodes, e),
        coacc_below(nodes, e, dead, started, len0),
        new_tail(e, u, w, k, j, len0, node),
        len0 <= nodes.len(),
        nodes.len() == len0 + j - k,
        0 <= k <= j < w.len(),
        u.len() == j,
        nodes2 == nodes.push(false),
        forall|y: int, d: char| #[trigger] step(e2, y, d) == if y == node && d == w[j] {
            Some(nodes.len() as int)
        } else if y == nodes.len() {
            None
        } else {
            step(e, y, d)
        },
        step(e, node, w[j]) is None,
        0 <= node < nodes.len(),
        nodes.len() <= usize::MAX,
    ensures
        coacc_below(nodes2, e2, dead, started, len0),
        new_tail(e2, u.push((node as usize, w[j], nodes.len() as usize)), w, k, j + 1, len0, nodes.len() as int),
{
    reveal(coacc_below);
    reveal(new_tail);
    let n = nodes.len() as int;
    assert forall|y: int| 0 <= y < len0 && !dead.contains(y) && (y != 0 || started) implies #[trigger] coacc(nodes2, e2, y) by {
        assert(coacc(nodes, e, y));
        let t = choose|t: Seq<char>| #[trigger] accepts(nodes, e, y, t);
        lemma_add_leaf(nodes, e, nodes2, e2, node, w[j], y, t);
        assert(accepts(nodes2, e2, y, t));
    }
    let u2 = u.push((node as usize, w[j], nodes.len() as usize));
    assert forall|y: int, d: char| #[trigger] step(e, y, d) is Some implies step(e2, y, d) == step(e, y, d) by {
        if 0 <= y < e.len() {
            lemma_find_some(e[y], d, 0);
        }
    }
    assert forall|i: int| k <= i < j + 1 implies (#[trigger] u2[i]).2 == len0 + i - k && walk(e2, u2[i].2 as int, w.subrange(i + 1, j + 1)) == Some(n) by {
        if i < j {
            assert(u2[i] == u[i]);
            lemma_walk_mono(e, e2, u[i].2 as int, w.subrange(i + 1, j));
            assert(w.subrange(i + 1, j + 1) =~= w.subrange(i + 1, j).push(w[j]));
            lemma_walk_push(e2, u[i].2 as int, w.subrange(i + 1, j), w[j]);
        } else {
            assert(w.subrange(i + 1, j + 1).len() == 0);
        }
    }
}

/// Once the last new node ends a word, every live node reaches a word.
proof fn lemma_tail_end(
    nodes: Seq<bool>,
    e: Seq<Seq<(char, usize)>>,
    u: Seq<(usize, char, usize)>,
    dead: Set<int>,
    started: bool,
    w: Seq<char>,
    k: int,
    len0: int,
    node: int,
)
    requires
        coacc_below(nodes, e, dead, started, len0),
        new_tail(e, u, w, k, w.len() as int, len0, node),
        1 <= len0 <= nodes.len(),
        nodes.len() == len0 + w.len() - k,
        0 <= k <= w.len(),
        0 <= node < nodes.len(),
        walk(e, 0, w) == Some(node),
    ensures
        coacc_ok(nodes.update(node, true), e, dead, true),
{
    reveal(coacc_ok);
    reveal(coacc_below);
    reveal(new_tail);
    let nodes3 = nodes.update(node, true);
    assert forall|y: int| 0 <= y < nodes3.len() && !dead.contains(y) && (y != 0 || true) implies #[trigger] coacc(nodes3, e, y) by {
        if y < len0 && (y != 0 || started) {
            assert(coacc(nodes, e, y));
            let t = choose|t: Seq<char>| #[trigger] accepts(nodes, e, y, t);
            assert(accepts(nodes3, e, y, t));
        } else if y == 0 {
            assert(accepts(nodes3, e, 0, w));
        } else {
            let i = y - len0 + k;
            assert(u[i].2 == y);
            assert(accepts(nodes3, e, y, w.subrange(i + 1, w.len() as int)));
        }
    }
}

/// With every live node reaching a word, a non-empty path from the root
/// exists exactly when it starts some word.
proof fn lemma_trim(
    nodes: Seq<bool>,
    e: Seq<Seq<(char, usize)>>,
    u: Seq<(usize, char, usize)>,
    m: Seq<usize>,
    dead: Set<int>,
    started: bool,
    s: Seq<char>,
)
    requires
        graph_wf(nodes, e),
        no_root_entry(e),
        live_ok(nodes, e, u, m, dead),
        coacc_ok(nodes, e, dead, started),
        s.len() > 0,
    ensures
        walk(e, 0, s) is Some <==> exists|w: Seq<char>| #[trigger] accepts(nodes, e, 0, w) && is_prefix(s, w),
{
    if walk(e, 0, s) is Some {
        lemma_walk_live(nodes, e, u, m, dead, s);
        lemma_walk_not_root(e, 0, s);
        lemma_walk_bounded(nodes, e, 0, s);
        let v = walk(e, 0, s)->0;
        reveal(coacc_ok);
        assert(coacc(nodes, e, v));
        let t = choose|t: Seq<char>| #[trigger] accepts(nodes, e, v, t);
        lemma_walk_append(e, 0, s, t);
        assert((s + t).take(s.len() as int) =~= s);
        assert(accepts(nodes, e, 0, s + t) && is_prefix(s, s + t));
    }
    if exists|w: Seq<char>| #[trigger] accepts(nodes, e, 0, w) && is_prefix(s, w) {
        let w = choose|w: Seq<char>| #[trigger] accepts(nodes, e, 0, w) && is_prefix(s, w);
        assert(w =~= s + w.skip(s.len() as int));
        lemma_walk_append(e, 0, s, w.skip(s.len() as int));
    }
}

/// Each popped entry from `lo` on either kept its edge to its child, now
/// frozen, or has it going to a frozen node with the child's flag and edges.
#[verifier::opaque]
pub open spec fn popped_ok(
    nodes: Seq<bool>,
    e: Seq<Seq<(char, usize)>>,
    m: Seq<usize>,
    u0: Seq<(usize, char, usize)>,
    lo: int,
) -> bool {
    forall|i: int|
        lo <= i < u0.len() ==> {
            let (p, c, ch) = #[trigger] u0[i];
            ||| (m.contains(ch) && step(e, p as int, c) == Some(ch as int))
            ||| exists|n: usize|
                m.contains(n) && n != ch && step(e, p as int, c) == Some(n as int) && nodes[n as int] == nodes[ch as int]
                    && #[trigger] e[n as int] == e[ch as int]
        }
}

/// Only the parents of the popped entries from `lo` on have other edges than in `e0`.
#[verifier::opaque]
pub open spec fn untouched(
    e0: Seq<Seq<(char, usize)>>,
    e: Seq<Seq<(char, usize)>>,
    u0: Seq<(usize, char, usize)>,
    lo: int,
) -> bool {
    &&& e.len() == e0.len()
    &&& forall|x: int|
        0 <= x < e0.len() && (forall|i: int| lo <= i < u0.len() ==> (#[trigger] u0[i]).0 != x) ==> #[trigger] e[x] == e0[x]
}

/// The frontier entries' nodes come in increasing order.
pub open spec fn chain_order(u0: Seq<(usize, char, usize)>) -> bool {
    &&& forall|i: int| 0 <= i < u0.len() ==> (#[trigger] u0[i]).0 as int == chain_node(u0, i) && u0[i].0 < u0[i].2
    &&& forall|i: int, j: int| 0 <= i < j < u0.len() ==> u0[i].2 < u0[j].2
}

/// Popping entry `last` and sending its edge to `n`.
#[verifier::rlimit(60)]
proof fn lemma_popped_merge(
    nodes: Seq<bool>,
    e0: Seq<Seq<(char, usize)>>,
    e: Seq<Seq<(char, usize)>>,
    e2: Seq<Seq<(char, usize)>>,
    m: Seq<usize>,
    u0: Seq<(usize, char, usize)>,
    last: int,
    n: usize,
)
    requires
        popped_ok(nodes, e, m, u0, last + 1),
        untouched(e0, e, u0, last + 1),
        chain_order(u0),
        0 <= last < u0.len(),
        0 <= u0[last].0 < e.len(),
        e2.len() == e.len(),
        forall|x: int| 0 <= x < e.len() && x != u0[last].0 ==> #[trigger] e2[x] == e[x],
        forall|x: int, d: char| x != u0[last].0 ==> #[trigger] step(e2, x, d) == step(e, x, d),
        step(e2, u0[last].0 as int, u0[last].1) == Some(n as int),
        m.contains(n),
        forall|r: int| 0 <= r < m.len() ==> #[trigger] m[r] != u0[last].0,
        n != u0[last].2,
        nodes[n as int] == nodes[u0[last].2 as int],
        e[n as int] == e[u0[last].2 as int],
        u0[last].2 < e.len(),
        n < e.len(),
        forall|i: int| 0 <= i < u0.len() ==> (#[trigger] u0[i]).2 < e.len(),
        forall|r: int| 0 <= r < m.len() ==> #[trigger] m[r] < e.len(),
    ensures
        popped_ok(nodes, e2, m, u0, last),
        untouched(e0, e2, u0, last),
{
    reveal(popped_ok);
    reveal(untouched);
    let parent = u0[last].0;
    assert forall|i: int| last < i < u0.len() implies (#[trigger] u0[i]).0 != parent && u0[i].2 != parent by {
        assert(u0[i - 1].2 == u0[i].0);
        if last > 0 {
            assert(u0[last - 1].2 == parent);
        }
        if i - 1 > last {
            assert(u0[last].2 < u0[i - 1].2);
        }
    }
    assert forall|i: int| last <= i < u0.len() implies {
        let (p, c, ch) = #[trigger] u0[i];
        ||| (m.contains(ch) && step(e2, p as int, c) == Some(ch as int))
        ||| exists|n: usize|
            m.contains(n) && n != ch && step(e2, p as int, c) == Some(n as int) && nodes[n as int] == nodes[ch as int]
                && #[trigger] e2[n as int] == e2[ch as int]
    } by {
        if i == last {
            let r = choose|r: int| 0 <= r < m.len() && m[r] == n;
            assert(n != parent);
            assert(u0[last].2 != parent);
            assert(e2[n as int] == e[n as int]);
            assert(e2[u0[last].2 as int] == e[u0[last].2 as int]);
            assert(e2[n as int] == e2[u0[last].2 as int]);
        } else {
            let (p, c, ch) = u0[i];
            if m.contains(ch) && step(e, p as int, c) == Some(ch as int) {
            } else {
                let n2 = choose|n2: usize|
                    m.contains(n2) && n2 != ch && step(e, p as int, c) == Some(n2 as int) && nodes[n2 as int] == nodes[ch as int]
                        && #[trigger] e[n2 as int] == e[ch as int];
                let r = choose|r: int| 0 <= r < m.len() && m[r] == n2;
                assert(m[r] != parent);
                assert(step(e, p as int, c) == Some(n2 as int));
                assert(e2[n2 as int] == e[n2 as int]);
                assert(e2[ch as int] == e[ch as int]);
                assert(e2[n2 as int] == e2[ch as int]);
            }
        }
    }
    assert forall|x: int|
        0 <= x < e0.len() && (forall|i: int| last <= i < u0.len() ==> (#[trigger] u0[i]).0 != x) implies #[trigger] e2[x] == e0[x] by {
        assert(u0[last].0 != x);
        assert(e2[x] == e[x]);
    }
}

/// Popping entry `last` and freezing its child.
proof fn lemma_popped_freeze(
    nodes: Seq<bool>,
    e0: Seq<Seq<(char, usize)>>,
    e: Seq<Seq<(char, usize)>>,
    m: Seq<usize>,
    u0: Seq<(usize, char, usize)>,
    last: int,
)
    requires
        popped_ok(nodes, e, m, u0, last + 1),
        untouched(e0, e, u0, last + 1),
        0 <= last < u0.len(),
        step(e, u0[last].0 as int, u0[last].1) == Some(u0[last].2 as int),
    ensures
        popped_ok(nodes, e, m.push(u0[last].2), u0, last),
        untouched(e0, e, u0, last),
{
    reveal(popped_ok);
    reveal(untouched);
    let m2 = m.push(u0[last].2);
    assert(m2[m.len() as int] == u0[last].2);
    assert forall|x: usize| m.contains(x) implies m2.contains(x) by {
        let r = choose|r: int| 0 <= r < m.len() && m[r] == x;
        assert(m2[r] == x);
    }
}

/// `a` comes strictly before `b` in lexicographic order.
pub open spec fn lex_less(a: Seq<char>, b: Seq<char>) -> bool {
    exists|k: int|
        0 <= k <= a.len() && k < b.len() && a.take(k) == b.take(k) && (k == a.len() || (a[k] as u32)
            < (b[k] as u32))
}

/// `p` is a prefix of `w`.
pub open spec fn is_prefix(p: Seq<char>, w: Seq<char>) -> bool {
    p.len() <= w.len() && w.take(p.len() as int) == p
}

/// `row` is the Levenshtein row of the word `p` against every prefix of `q`,
/// each entry capped at `k`.
pub open spec fn row_of(row: Seq<u64>, q: Seq<char>, p: Seq<char>, k: nat) -> bool {
    &&& row.len() == q.len() + 1
    &&& forall|j: int| 0 <= j <= q.len() ==> #[trigger] row[j] as nat == min2(lev(q.take(j), p), k)
}

/// Relies on `FromIterator<char>` for `String`: the characters in order.
#[verifier::external_body]
fn string_of(v: &Vec<char>) -> (r: String)
    ensures
        r@ == v@,
{
    v.iter().collect()
}

/// The target of the first edge labelled `c` in `es`.
fn find_edge(es: &Vec<(char, usize)>, c: char) -> (r: Option<usize>)
    ensures
        r == find_from(es@, c, 0),
{
    let mut i: usize = 0;
    while i < es.len()
        invariant
            i <= es.len(),
            find_from(es@, c, 0) == find_from(es@, c, i as int),
        decreases es.len() - i,
    {
        if es[i].0 == c {
            return Some(es[i].1);
        }
        i += 1;
    }
    None
}

/// The row for `p` extended by `c`, computed from the row for `p`.
fn next_row(row: &Vec<u64>, query: &Vec<char>, c: char, k: u64, Ghost(p): Ghost<Seq<char>>) -> (r: Vec<u64>)
    requires
        1 <= k <= 0x1_0000_0000,
        row_of(row@, query@, p, k as nat),
    ensures
        row_of(r@, query@, p.push(c), k as nat),
{
    let q = Ghost(query@);
    let first: u64 = if row[0] + 1 < k { row[0] + 1 } else { k };
    let mut cur: Vec<u64> = Vec::new();
    cur.push(first);
    proof {
        assert(q@.take(0).len() == 0);
        assert(row@[0] as nat == min2(lev(q@.take(0), p), k as nat));
    }
    let mut j: usize = 0;
    while j < query.len()
        invariant
            j <= query.len(),
            1 <= k <= 0x1_0000_0000,
            q@ == query@,
            row_of(row@, query@, p, k as nat),
            cur.len() == j + 1,
            forall|jj: int| 0 <= jj <= j ==> #[trigger] cur@[jj] as nat == min2(lev(q@.take(jj), p.push(c)), k as nat),
        decreases query.len() - j,
    {
        let ins = cur[j] + 1;
        let del = row[j + 1] + 1;
        let rep = if query[j] == c { row[j] } else { row[j] + 1 };
        let mut v: u64 = if ins < del { ins } else { del };
        if rep < v {
            v = rep;
        }
        if v > k {
            v = k;
        }
        proof {
            let a = q@.take(j + 1);
            let b = p.push(c);
            assert(a.drop_last() =~= q@.take(j as int));
            assert(b.drop_last() =~= p);
            assert(a.last() == query@[j as int]);
            assert(b.last() == c);
            assert(row@[j + 1] as nat == min2(lev(q@.take(j + 1), p), k as nat));
            assert(row@[j as int] as nat == min2(lev(q@.take(j as int), p), k as nat));
            assert(cur@[j as int] as nat == min2(lev(q@.take(j as int), b), k as nat));
        }
        cur.push(v);
        j += 1;
    }
    cur
}


/// The two edge lists are the same.
fn same_edges(a: &Vec<(char, usize)>, b: &Vec<(char, usize)>) -> (r: bool)
    ensures
        r == (a@ == b@),
{
    if a.len() != b.len() {
        return false;
    }
    let mut i: usize = 0;
    while i < a.len()
        invariant
            a.len() == b.len(),
            i <= a.len(),
            forall|j: int| 0 <= j < i ==> a@[j] == b@[j],
        decreases a.len() - i,
    {
        if a[i].0 != b[i].0 || a[i].1 != b[i].1 {
            return false;
        }
        i += 1;
    }
    assert(a@ =~= b@);
    true
}

/// The position of the edge labelled `c` in `es`.
fn label_index(es: &Vec<(char, usize)>, c: char) -> (r: usize)
    requires
        find_from(es@, c, 0) is Some,
    ensures
        r < es.len(),
        es@[r as int].0 == c,
{
    let mut i: usize = 0;
    while i < es.len()
        invariant
            i <= es.len(),
            find_from(es@, c, i as int) is Some,
        decreases es.len() - i,
    {
        if es[i].0 == c {
            return i;
        }
        i += 1;
    }
    i
}

impl PackedDawg {
    /// The edge lists, as sequences.
    pub closed spec fn edge_lists(&self) -> Seq<Seq<(char, usize)>> {
        self.edges@.map_values(|v: Vec<(char, usize)>| v@)
    }

    pub closed spec fn wf(&self) -> bool {
        &&& graph_wf(self.nodes@, self.edge_lists())
        &&& no_root_entry(self.edge_lists())
        &&& sorted_ok(self.edge_lists())
    }

    /// The number of nodes in the arena.
    pub closed spec fn num_nodes(&self) -> nat {
        self.nodes@.len()
    }

    /// Node `v` ends a word.
    pub closed spec fn is_end(&self, v: int) -> bool {
        0 <= v < self.nodes@.len() && self.nodes@[v]
    }

    /// The node that the symbols `s` lead to from the root.
    pub closed spec fn node_of(&self, s: Seq<char>) -> Option<int> {
        walk(self.edge_lists(), 0, s)
    }

    /// No two distinct nodes that non-empty paths from the root reach have the
    /// same end flag and the same transition on every symbol.
    pub open spec fn minimal(&self) -> bool {
        forall|s1: Seq<char>, s2: Seq<char>|
            s1.len() > 0 && s2.len() > 0 && #[trigger] self.node_of(s1) is Some && #[trigger] self.node_of(s2) is Some
                && self.node_of(s1) != self.node_of(s2) ==> !(self.is_end(self.node_of(s1)->0) == self.is_end(
                self.node_of(s2)->0,
            ) && forall|d: char| self.node_of(s1.push(d)) == self.node_of(s2.push(d)))
    }

    /// `s` is a word of the automaton: it leads to a node that ends a word.
    pub open spec fn has(&self, s: Seq<char>) -> bool {
        match self.node_of(s) {
            Some(v) => self.is_end(v),
            None => false,
        }
    }

    /// The node that the symbols `w` lead to from the root; `None` when some
    /// symbol has no transition. Only the empty word leads to the root.
    pub fn lookup_symbols(&self, w: &Vec<char>) -> (r: Option<usize>)
        requires
            self.wf(),
        ensures
            self.node_of(w@) == (match r {
                Some(v) => Some(v as int),
                None => None,
            }),
            r matches Some(v) ==> v < self.num_nodes(),
            r == Some(0usize) <==> w@.len() == 0,
    {
        proof {
            if w@.len() > 0 {
                lemma_walk_not_root(self.edge_lists(), 0, w@);
            }
        }
        let ghost e = self.edge_lists();
        let mut node: usize = 0;
        let mut i: usize = 0;
        assert(w@.subrange(0, w.len() as int) =~= w@);
        while i < w.len()
            invariant
                self.wf(),
                e == self.edge_lists(),
                i <= w.len(),
                node < self.nodes.len(),
                walk(e, 0, w@) == walk(e, node as int, w@.subrange(i as int, w.len() as int)),
            decreases w.len() - i,
        {
            let es = &self.edges[node];
            assert(es@ == e[node as int]);
            let rest = Ghost(w@.subrange(i as int, w.len() as int));
            assert(rest@.drop_first() =~= w@.subrange(i + 1, w.len() as int));
            assert(rest@[0] == w@[i as int]);
            match find_edge(es, w[i]) {
                Some(t) => {
                    proof {
                        lemma_find_some(es@, w@[i as int], 0);
                    }
                    node = t;
                },
                None => {
                    return None;
                },
            }
            i += 1;
        }
        assert(w@.subrange(w.len() as int, w.len() as int).len() == 0);
        Some(node)
    }

    /// The node that `word`, normalized, leads to from the root; `None` when
    /// some symbol has no transition. Only the empty word leads to the root.
    pub fn lookup(&self, word: &str) -> (r: Option<usize>)
        requires
            self.wf(),
        ensures
            self.node_of(normalized(word@)) == (match r {
                Some(v) => Some(v as int),
                None => None,
            }),
            r matches Some(v) ==> v < self.num_nodes(),
            r == Some(0usize) <==> normalized(word@).len() == 0,
    {
        let w = prep_word(word);
        self.lookup_symbols(&w)
    }

    /// The symbols `w` form a word of the automaton.
    pub fn has_symbols(&self, w: &Vec<char>) -> (r: bool)
        requires
            self.wf(),
        ensures
            r == self.has(w@),
    {
        match self.lookup_symbols(w) {
            Some(v) => self.nodes[v],
            None => false,
        }
    }

    /// `word`, normalized, is a word of the automaton: its lookup succeeds
    /// and lands on a node that ends a word.
    pub fn has_word(&self, word: &str) -> (r: bool)
        requires
            self.wf(),
        ensures
            r == self.has(normalized(word@)),
    {
        let w = prep_word(word);
        self.has_symbols(&w)
    }

    /// Builds the automaton from `words`, each normalized; a word that does
    /// not come strictly after the last word kept is skipped.
    pub fn from_words(words: &Vec<&str>) -> (r: Self)
        ensures
            r.wf(),
            r.minimal(),
            forall|s: Seq<char>| r.has(s) == kept(normalized_words(words@)).0.contains(s),
            r.num_nodes() == kept_nodes(normalized_words(words@)),
            words.len() == 0 ==> r.num_nodes() == 1 && !r.is_end(0),
            words.len() == 0 ==> forall|s: Seq<char>| s.len() > 0 ==> #[trigger] r.node_of(s) is None,
            forall|s: Seq<char>|
                s.len() > 0 ==> (#[trigger] r.node_of(s) is Some <==> exists|w: Seq<char>| #[trigger] r.has(w) && is_prefix(s, w)),
            forall|s: Seq<char>| #[trigger] r.node_of(s) == Some(0int) <==> s.len() == 0,
    {
        let ghost ws = normalized_words(words@);
        let mut builder = PackedDawgBuilder::new();
        let mut i: usize = 0;
        while i < words.len()
            invariant
                i <= words.len(),
                ws == normalized_words(words@),
                builder.wf(),
                i == 0 ==> !builder.language().contains(Seq::<char>::empty()),
                builder.num_nodes() == kept_nodes(ws.take(i as int)),
                !builder.started() ==> builder.last_word().len() == 0,
                builder.language() == kept(ws.take(i as int)).0,
                kept(ws.take(i as int)).1 == if builder.started() {
                    Some(builder.last_word())
                } else {
                    None::<Seq<char>>
                },
            decreases words.len() - i,
        {
            let word = prep_word(words[i]);
            proof {
                assert(ws.take(i + 1).drop_last() =~= ws.take(i as int));
                assert(ws.take(i + 1).last() == word@);
                if !builder.started() {
                    assert(builder.last_word() =~= Seq::<char>::empty());
                }
            }
            builder.insert_word(word);
            i += 1;
        }
        assert(ws.take(words.len() as int) =~= ws);
        let r = builder.finish();
        assert(words.len() == 0 ==> !r.has(Seq::<char>::empty()));
        proof {
            if words.len() == 0 {
                assert forall|s: Seq<char>| s.len() > 0 implies #[trigger] r.node_of(s) is None by {
                    if r.node_of(s) is Some {
                        let w = choose|w: Seq<char>| #[trigger] r.has(w) && is_prefix(s, w);
                        assert(kept(ws).0.contains(w));
                    }
                }
            }
        }
        r
    }

    /// What a search for `q` within `max` hands back: words of the automaton with
    /// their distance from `q`, every word within `max` among them, none twice.
    pub open spec fn search_result(&self, q: Seq<char>, max: u32, r: Seq<(String, u32)>) -> bool {
        &&& forall|i: int|
            0 <= i < r.len() ==> {
                let (w, d) = #[trigger] r[i];
                &&& self.has(w@)
                &&& d as nat == lev(q, w@)
                &&& d <= max
            }
        &&& forall|w: Seq<char>| self.has(w) && lev(q, w) <= max ==> exists|i: int| 0 <= i < r.len() && (#[trigger] r[i]).0@ == w
        &&& forall|i: int, j: int| 0 <= i < j < r.len() ==> (#[trigger] r[i]).0@ != (#[trigger] r[j]).0@
    }

    /// A search within distance zero finds the query itself when it is a word,
    /// with cost zero, and nothing else.
    pub proof fn lemma_search_exact(&self, q: Seq<char>, r: Seq<(String, u32)>)
        requires
            self.search_result(q, 0, r),
        ensures
            forall|i: int| 0 <= i < r.len() ==> (#[trigger] r[i]).0@ == q && r[i].1 == 0,
            self.has(q) ==> r.len() == 1 && r[0].0@ == q && r[0].1 == 0,
            !self.has(q) ==> r.len() == 0,
    {
        lemma_lev_self(q);
        assert forall|i: int| 0 <= i < r.len() implies (#[trigger] r[i]).0@ == q && r[i].1 == 0 by {
            lemma_lev_zero(q, r[i].0@);
        }
        if !self.has(q) && r.len() > 0 {
            lemma_lev_zero(q, r[0].0@);
        }
        if self.has(q) {
            assert(exists|i: int| 0 <= i < r.len() && (#[trigger] r[i]).0@ == q);
            if r.len() > 1 {
                assert(r[0].0@ == q && r[1].0@ == q);
            }
        }
    }

    /// Widening the budget by one keeps every result, with the same cost.
    pub proof fn lemma_search_monotonic(&self, q: Seq<char>, n: u32, r1: Seq<(String, u32)>, r2: Seq<(String, u32)>)
        requires
            n < u32::MAX,
            self.search_result(q, n, r1),
            self.search_result(q, (n + 1) as u32, r2),
        ensures
            forall|i: int| 0 <= i < r1.len() ==> has_entry(r2, (#[trigger] r1[i]).0@, r1[i].1),
            forall|i: int| 0 <= i < r1.len() ==> (#[trigger] r1[i]).1 <= n,
            forall|j: int| 0 <= j < r2.len() ==> (#[trigger] r2[j]).1 <= n + 1,
    {
        assert forall|i: int| 0 <= i < r1.len() implies has_entry(r2, (#[trigger] r1[i]).0@, r1[i].1) by {
            let w = r1[i].0@;
            assert(self.has(w) && lev(q, w) <= n + 1);
            let j = choose|j: int| 0 <= j < r2.len() && (#[trigger] r2[j]).0@ == w;
            assert(r2[j].1 as nat == lev(q, w));
            assert(0 <= j < r2.len() && r2[j].0@ == r1[i].0@ && r2[j].1 == r1[i].1);
            assert(has_entry(r2, w, r1[i].1));
        }
    }

    /// Every word of a list in strictly ascending order is a word of the automaton.
    pub proof fn lemma_round_trip(&self, words: Seq<&str>, i: int)
        requires
            forall|s: Seq<char>| self.has(s) == kept(normalized_words(words)).0.contains(s),
            ascending(normalized_words(words)),
            0 <= i < words.len(),
        ensures
            self.has(normalized(words[i]@)),
    {
        lemma_kept_all(normalized_words(words));
        assert(normalized_words(words)[i] == normalized(words[i]@));
    }

    /// Lookups that succeed are closed under prefixes.
    pub proof fn lemma_node_prefix_closed(&self, s: Seq<char>, p: Seq<char>)
        requires
            self.node_of(s) is Some,
            is_prefix(p, s),
        ensures
            self.node_of(p) is Some,
    {
        assert(s =~= p + s.skip(p.len() as int));
        lemma_walk_append(self.edge_lists(), 0, p, s.skip(p.len() as int));
    }

    /// A proper prefix of a word of the list that is not itself in the list
    /// is no word of the automaton, but still leads to a node.
    pub proof fn lemma_prefix(&self, words: Seq<&str>, i: int, k: int)
        requires
            self.wf(),
            forall|s: Seq<char>| self.has(s) == kept(normalized_words(words)).0.contains(s),
            ascending(normalized_words(words)),
            0 <= i < words.len(),
            0 < k < normalized(words[i]@).len(),
            !normalized_words(words).contains(normalized(words[i]@).take(k)),
        ensures
            !self.has(normalized(words[i]@).take(k)),
            self.node_of(normalized(words[i]@).take(k)) is Some,
    {
        let ws = normalized_words(words);
        let w = normalized(words[i]@);
        self.lemma_round_trip(words, i);
        if self.has(w.take(k)) {
            lemma_kept_subset(ws, w.take(k));
        }
        assert(w =~= w.take(k) + w.skip(k));
        lemma_walk_append(self.edge_lists(), 0, w.take(k), w.skip(k));
    }

    /// Depth-first walk below `node`, which `path` leads to: every word below it
    /// within `max_cost` of `query` is appended to `results` with its distance.
    fn search_recursive(
        &self,
        node: usize,
        query: &Vec<char>,
        path: &mut Vec<char>,
        row: &Vec<u64>,
        results: &mut Vec<(String, u32)>,
        max_cost: u32,
        depth: usize,
    )
        requires
            depth == old(path)@.len(),
            self.wf(),
            node < self.nodes.len(),
            self.node_of(old(path)@) == Some(node as int),
            row_of(row@, query@, old(path)@, max_cost as nat + 1),
            old(path)@.len() <= max_cost as int + query@.len() + 1,
        ensures
            final(path)@ == old(path)@,
            final(results)@.len() >= old(results)@.len(),
            forall|i: int| 0 <= i < old(results)@.len() ==> final(results)@[i] == old(results)@[i],
            forall|i: int|
                old(results)@.len() <= i < final(results)@.len() ==> {
                    let (w, d) = #[trigger] final(results)@[i];
                    &&& self.has(w@)
                    &&& d as nat == lev(query@, w@)
                    &&& d <= max_cost
                    &&& is_prefix(old(path)@, w@)
                },
            forall|w: Seq<char>|
                self.has(w) && lev(query@, w) <= max_cost && is_prefix(old(path)@, w) ==> exists|i: int|
                    old(results)@.len() <= i < final(results)@.len() && (#[trigger] final(results)@[i]).0@ == w,
            forall|i: int, j: int|
                old(results)@.len() <= i < j < final(results)@.len() ==> (#[trigger] final(results)@[i]).0@
                    != (#[trigger] final(results)@[j]).0@,
        decreases max_cost as int + query@.len() + 1 - depth,
    {
        let ghost e = self.edge_lists();
        let ghost p = path@;
        let ghost r0 = results@;
        let ghost q = query@;
        let k: u64 = max_cost as u64 + 1;
        let last = row[query.len()];
        proof {
            assert(q.take(q.len() as int) =~= q);
            assert(row@[q.len() as int] as nat == min2(lev(q.take(q.len() as int), p), k as nat));
            assert(p.take(p.len() as int) =~= p);
        }
        if last <= max_cost as u64 && self.nodes[node] {
            let s = string_of(path);
            results.push((s, last as u32));
        }
        let ghost r1 = results@;
        assert(forall|ii: int| 0 <= ii < r0.len() ==> r1[ii] == r0[ii]);
        assert(r1.len() >= r0.len());
        assert(r1.len() <= r0.len() + 1);
        assert(r1.len() == r0.len() + 1 ==> r1[r0.len() as int].0@ == p);
        assert forall|w: Seq<char>|
            self.has(w) && lev(q, w) <= max_cost && w == p implies exists|i: int|
                r0.len() <= i < r1.len() && (#[trigger] r1[i]).0@ == w by {
            assert(r1[r0.len() as int].0@ == w);
        }
        let mut best: u64 = row[0];
        let mut bj: usize = 0;
        let mut j: usize = 1;
        while j <= query.len()
            invariant
                row.len() == query.len() + 1,
                1 <= j <= query.len() + 1,
                bj < j,
                best == row@[bj as int],
                forall|jj: int| 0 <= jj < j ==> best <= #[trigger] row@[jj],
            decreases query.len() + 1 - j,
        {
            if row[j] < best {
                best = row[j];
                bj = j;
            }
            j += 1;
        }
        if best <= max_cost as u64 {
            proof {
                lemma_lev_lower_bound(q.take(bj as int), p);
                assert(row@[bj as int] as nat == min2(lev(q.take(bj as int), p), k as nat));
                assert(q.take(bj as int).len() == bj);
            }
            let es_len = self.edges[node].len();
            let ghost es = e[node as int];
            assert(self.edges@[node as int]@ == es);
            let mut i: usize = 0;
            while i < es_len
                invariant
                    self.wf(),
                    e == self.edge_lists(),
                    q == query@,
                    es == e[node as int],
                    es_len == es.len(),
                    node < self.nodes.len(),
                    self.node_of(p) == Some(node as int),
                    row_of(row@, query@, p, max_cost as nat + 1),
                    k == max_cost as u64 + 1,
                    p.len() <= max_cost as int + q.len(),
                    i <= es_len,
                    path@ == p,
                    results@.len() >= r1.len(),
                    r1.len() >= r0.len(),
                    depth == p.len(),
                    forall|ii: int| 0 <= ii < r1.len() ==> results@[ii] == r1[ii],
                    forall|ii: int|
                        r0.len() <= ii < results@.len() ==> {
                            let (w, d) = #[trigger] results@[ii];
                            &&& self.has(w@)
                            &&& d as nat == lev(q, w@)
                            &&& d <= max_cost
                            &&& is_prefix(p, w@)
                        },
                    forall|w: Seq<char>|
                        self.has(w) && lev(q, w) <= max_cost && w == p ==> exists|ii: int|
                            r0.len() <= ii < results@.len() && (#[trigger] results@[ii]).0@ == w,
                    forall|w: Seq<char>, kk: int|
                        0 <= kk < i && self.has(w) && lev(q, w) <= max_cost && #[trigger] is_prefix(p.push(es[kk].0), w)
                            ==> exists|ii: int| r0.len() <= ii < results@.len() && (#[trigger] results@[ii]).0@ == w,
                    r1.len() <= r0.len() + 1,
                    r1.len() == r0.len() + 1 ==> r1[r0.len() as int].0@ == p,
                    forall|ii: int|
                        r1.len() <= ii < results@.len() ==> p.len() < (#[trigger] results@[ii]).0@.len() && exists|kk: int|
                            0 <= kk < i && results@[ii].0@[p.len() as int] == #[trigger] es[kk].0,
                    forall|ii: int, jj: int|
                        r0.len() <= ii < jj < results@.len() ==> (#[trigger] results@[ii]).0@ != (#[trigger] results@[jj]).0@,
                decreases es_len - i,
            {
                let (c, t) = self.edges[node][i];
                proof {
                    assert(self.edges@[node as int]@ == es);
                    assert(es[i as int] == (c, t));
                    lemma_find_distinct(es, i as int, 0);
                    lemma_walk_push(e, 0, p, c);
                }
                let new_row = next_row(row, query, c, k, Ghost(p));
                let ghost rb = results@;
                path.push(c);
                assert(path@ == p.push(c));
                let d = path.len();
                self.search_recursive(t, query, path, &new_row, results, max_cost, d);
                path.pop();
                proof {
                    assert(path@ =~= p);
                    assert forall|ii: int| r0.len() <= ii < results@.len() implies {
                        let (w, d) = #[trigger] results@[ii];
                        &&& self.has(w@)
                        &&& d as nat == lev(q, w@)
                        &&& d <= max_cost
                        &&& is_prefix(p, w@)
                    } by {
                        if ii >= rb.len() {
                            let w = results@[ii].0@;
                            assert(w.take(p.len() as int) =~= w.take(p.len() as int + 1).take(p.len() as int));
                            assert(p.push(c).take(p.len() as int) =~= p);
                        } else {
                            assert(results@[ii] == rb[ii]);
                        }
                    }
                    assert forall|w: Seq<char>, kk: int|
                        0 <= kk < i + 1 && self.has(w) && lev(q, w) <= max_cost && #[trigger] is_prefix(p.push(es[kk].0), w)
                            implies exists|ii: int| r0.len() <= ii < results@.len() && (#[trigger] results@[ii]).0@ == w by {
                        if kk < i {
                            let ii = choose|ii: int| r0.len() <= ii < rb.len() && (#[trigger] rb[ii]).0@ == w;
                            assert(results@[ii] == rb[ii]);
                        } else {
                            assert(es[kk].0 == c);
                            assert(is_prefix(p.push(c), w));
                            assert(self.has(w) && lev(query@, w) <= max_cost);
                        }
                    }
                    assert forall|w: Seq<char>|
                        self.has(w) && lev(q, w) <= max_cost && w == p implies exists|ii: int|
                            r0.len() <= ii < results@.len() && (#[trigger] results@[ii]).0@ == w by {
                        let ii = choose|ii: int| r0.len() <= ii < rb.len() && (#[trigger] rb[ii]).0@ == w;
                        assert(results@[ii] == rb[ii]);
                    }
                    assert forall|ii: int|
                        r1.len() <= ii < results@.len() implies p.len() < (#[trigger] results@[ii]).0@.len() && exists|kk: int|
                            0 <= kk < i + 1 && results@[ii].0@[p.len() as int] == #[trigger] es[kk].0 by {
                        if ii >= rb.len() {
                            let w = results@[ii].0@;
                            assert(is_prefix(p.push(c), w));
                            assert(w.take(p.len() as int + 1) == p.push(c));
                            assert(w[p.len() as int] == w.take(p.len() as int + 1)[p.len() as int]);
                            assert(es[i as int].0 == c);
                        } else {
                            assert(results@[ii] == rb[ii]);
                        }
                    }
                    assert forall|ii: int, jj: int|
                        r0.len() <= ii < jj < results@.len() implies (#[trigger] results@[ii]).0@ != (#[trigger] results@[jj]).0@ by {
                        if jj >= rb.len() {
                            let wj = results@[jj].0@;
                            assert(is_prefix(p.push(c), wj));
                            assert(wj.take(p.len() as int + 1) == p.push(c));
                            assert(wj[p.len() as int] == wj.take(p.len() as int + 1)[p.len() as int]);
                            if ii < rb.len() {
                                assert(results@[ii] == rb[ii]);
                                if ii >= r1.len() {
                                    let kk = choose|kk: int| 0 <= kk < i && rb[ii].0@[p.len() as int] == #[trigger] es[kk].0;
                                    assert(es[kk].0 != es[i as int].0);
                                } else {
                                    assert(rb[ii] == r1[ii]);
                                }
                            }
                        } else {
                            assert(results@[ii] == rb[ii]);
                            assert(results@[jj] == rb[jj]);
                        }
                    }
                }
                i += 1;
            }
            proof {
                assert forall|w: Seq<char>|
                    self.has(w) && lev(q, w) <= max_cost && is_prefix(p, w) implies exists|ii: int|
                        r0.len() <= ii < results@.len() && (#[trigger] results@[ii]).0@ == w by {
                    if w.len() > p.len() {
                        let c = w[p.len() as int];
                        let w1 = w.take(p.len() as int + 1);
                        assert(w1 =~= p.push(c));
                        assert(w =~= w1 + w.skip(p.len() as int + 1));
                        lemma_walk_append(e, 0, w1, w.skip(p.len() as int + 1));
                        lemma_walk_push(e, 0, p, c);
                        lemma_find_some(es, c, 0);
                        let kk = choose|kk: int| 0 <= kk < es.len() && #[trigger] es[kk] == (c, find_from(es, c, 0)->0);
                        assert(es[kk].0 == c);
                        assert(is_prefix(p.push(es[kk].0), w));
                    } else {
                        assert(w =~= p);
                    }
                }
            }
        } else {
            proof {
                assert forall|w: Seq<char>| self.has(w) && is_prefix(p, w) implies lev(q, w) > max_cost by {
                    assert forall|jj: int| 0 <= jj <= q.len() implies lev(#[trigger] q.take(jj), p) >= max_cost + 1 by {
                        assert(row@[jj] as nat == min2(lev(q.take(jj), p), k as nat));
                    }
                    let s = w.skip(p.len() as int);
                    assert(p + s =~= w);
                    lemma_lev_extend(q, p, s, q.len() as int, max_cost as nat + 1);
                }
            }
        }
    }

    /// Every word of the automaton within `max_cost` edits of `word`,
    /// normalized, each with its Levenshtein distance.
    pub fn search(&self, word: &str, max_cost: u32) -> (r: Vec<(String, u32)>)
        requires
            self.wf(),
        ensures
            self.search_result(normalized(word@), max_cost, r@),
    {
        let query = prep_word(word);
        self.search_symbols(&query, max_cost)
    }

    /// Every word of the automaton within `max_cost` edits of the symbols
    /// `query`, each with its Levenshtein distance.
    pub fn search_symbols(&self, query: &Vec<char>, max_cost: u32) -> (r: Vec<(String, u32)>)
        requires
            self.wf(),
        ensures
            self.search_result(query@, max_cost, r@),
    {
        let k: u64 = max_cost as u64 + 1;
        let mut row: Vec<u64> = Vec::new();
        row.push(0);
        proof {
            assert(query@.take(0).len() == 0);
        }
        let mut j: usize = 0;
        while j < query.len()
            invariant
                k == max_cost as u64 + 1,
                j <= query.len(),
                row.len() == j + 1,
                forall|jj: int| 0 <= jj <= j ==> #[trigger] row@[jj] as nat == min2(lev(query@.take(jj), Seq::empty()), k as nat),
            decreases query.len() - j,
        {
            proof {
                assert(query@.take(j + 1).len() == j + 1);
            }
            let v: u64 = if (j as u64) + 1 < k { j as u64 + 1 } else { k };
            row.push(v);
            j += 1;
        }
        let mut path: Vec<char> = Vec::new();
        let mut results: Vec<(String, u32)> = Vec::new();
        proof {
            assert(self.node_of(path@) == Some(0int));
        }
        self.search_recursive(0, query, &mut path, &row, &mut results, max_cost, 0);
        proof {
            assert forall|w: Seq<char>| is_prefix(Seq::<char>::empty(), w) by {
                assert(w.take(0) =~= Seq::<char>::empty());
            }
        }
        results
    }
}


/// The words that a builder keeps from `ws`, in order: each one that comes
/// strictly after the last word kept; with the last word kept.
pub open spec fn kept(ws: Seq<Seq<char>>) -> (Set<Seq<char>>, Option<Seq<char>>)
    decreases ws.len(),
{
    if ws.len() == 0 {
        (Set::empty(), None)
    } else {
        let (set, last) = kept(ws.drop_last());
        let w = ws.last();
        if last is None || lex_less(last->0, w) {
            (set.insert(w), Some(w))
        } else {
            (set, last)
        }
    }
}

/// `r` holds the word `w` with cost `d`.
pub open spec fn has_entry(r: Seq<(String, u32)>, w: Seq<char>, d: u32) -> bool {
    exists|j: int| 0 <= j < r.len() && r[j].0@ == w && r[j].1 == d
}

/// The symbols of each raw word.
pub open spec fn normalized_words(words: Seq<&str>) -> Seq<Seq<char>> {
    words.map_values(|w: &str| normalized(w@))
}

/// The size of the arena that a builder has after `ws`: the root, then one
/// node for each symbol of a kept word past the prefix it shares with the
/// word kept before it.
pub open spec fn kept_nodes(ws: Seq<Seq<char>>) -> int
    decreases ws.len(),
{
    if ws.len() == 0 {
        1
    } else {
        let last = kept(ws.drop_last()).1;
        let w = ws.last();
        let before = kept_nodes(ws.drop_last());
        if last is None {
            before + w.len()
        } else if lex_less(last->0, w) {
            before + w.len() - shared_len(w, last->0)
        } else {
            before
        }
    }
}

/// Each word comes strictly after the one before it.
pub open spec fn ascending(ws: Seq<Seq<char>>) -> bool {
    forall|i: int| 0 <= i < ws.len() - 1 ==> lex_less(#[trigger] ws[i], ws[i + 1])
}

/// Only words of the list are kept.
pub proof fn lemma_kept_subset(ws: Seq<Seq<char>>, s: Seq<char>)
    requires
        kept(ws).0.contains(s),
    ensures
        ws.contains(s),
    decreases ws.len(),
{
    if ws.len() > 0 {
        let (set, last) = kept(ws.drop_last());
        if set.contains(s) {
            lemma_kept_subset(ws.drop_last(), s);
            let i = choose|i: int| 0 <= i < ws.drop_last().len() && ws.drop_last()[i] == s;
            assert(ws[i] == s);
        } else {
            assert(ws[ws.len() - 1] == s);
        }
    }
}

/// From a list in strictly ascending order every word is kept.
pub proof fn lemma_kept_all(ws: Seq<Seq<char>>)
    requires
        ascending(ws),
    ensures
        forall|i: int| 0 <= i < ws.len() ==> kept(ws).0.contains(#[trigger] ws[i]),
        ws.len() > 0 ==> kept(ws).1 == Some(ws.last()),
    decreases ws.len(),
{
    if ws.len() > 0 {
        let ws1 = ws.drop_last();
        assert(ascending(ws1)) by {
            assert forall|i: int| 0 <= i < ws1.len() - 1 implies lex_less(#[trigger] ws1[i], ws1[i + 1]) by {
                assert(ws1[i] == ws[i] && ws1[i + 1] == ws[i + 1]);
            }
        }
        lemma_kept_all(ws1);
        if ws1.len() > 0 {
            assert(lex_less(ws[ws.len() - 2], ws[ws.len() - 1]));
        }
        assert forall|i: int| 0 <= i < ws.len() implies kept(ws).0.contains(#[trigger] ws[i]) by {
            if i < ws1.len() {
                assert(ws1[i] == ws[i]);
            }
        }
    }
}

impl PackedDawgBuilder {
    pub closed spec fn edge_lists(&self) -> Seq<Seq<(char, usize)>> {
        self.edges@.map_values(|v: Vec<(char, usize)>| v@)
    }

    /// The words inserted so far.
    pub closed spec fn language(&self) -> Set<Seq<char>> {
        self.words@
    }

    /// The last word inserted.
    pub closed spec fn last_word(&self) -> Seq<char> {
        self.previous_word@
    }

    /// The number of nodes in the arena.
    pub closed spec fn num_nodes(&self) -> nat {
        self.nodes@.len()
    }

    /// Some word has been inserted.
    pub closed spec fn started(&self) -> bool {
        self.started
    }

    closed spec fn inv(&self) -> bool {
        &&& frontier_ok(
            self.nodes@,
            self.edge_lists(),
            self.unchecked_nodes@,
            self.minimized_nodes@,
            self.previous_word@,
        )
        &&& forall|s: Seq<char>| accepts(self.nodes@, self.edge_lists(), 0, s) == self.words@.contains(s)
        &&& !self.started ==> self.previous_word@.len() == 0
        &&& self.frozen_distinct()
        &&& live_ok(self.nodes@, self.edge_lists(), self.unchecked_nodes@, self.minimized_nodes@, self.dead@)
        &&& coacc_ok(self.nodes@, self.edge_lists(), self.dead@, self.started)
        &&& sorted_ok(self.edge_lists())
    }

    /// No two frozen nodes have the same end flag and the same edges.
    pub closed spec fn frozen_distinct(&self) -> bool {
        registry_distinct(self.nodes@, self.edge_lists(), self.minimized_nodes@)
    }

    pub closed spec fn wf(&self) -> bool {
        &&& self.inv()
        &&& self.unchecked_nodes@.len() == self.previous_word@.len()
    }

    /// A builder with no word.
    pub fn new() -> (r: Self)
        ensures
            r.wf(),
            r.language() == Set::<Seq<char>>::empty(),
            !r.started(),
            r.num_nodes() == 1,
            r.last_word().len() == 0,
    {
        let mut nodes: Vec<bool> = Vec::new();
        nodes.push(false);
        let mut edges: Vec<Vec<(char, usize)>> = Vec::new();
        edges.push(Vec::new());
        let r = PackedDawgBuilder {
            previous_word: Vec::new(),
            nodes,
            minimized_nodes: Vec::new(),
            unchecked_nodes: Vec::new(),
            edges,
            started: false,
            words: Ghost(Set::empty()),
            dead: Ghost(Set::empty()),
        };
        proof {
            reveal(registry_distinct);
            reveal(live_ok);
            reveal(coacc_ok);
            reveal(sorted_ok);
            let e = r.edge_lists();
            assert(e[0].len() == 0);
            assert forall|s: Seq<char>| !accepts(r.nodes@, e, 0, s) by {
                if s.len() > 0 {
                    lemma_accepts_unfold(r.nodes@, e, 0, s);
                }
            }
        }
        r
    }

    /// A frozen node with the same flag and the same edges as `child`.
    fn find_equivalent(&self, child: usize) -> (r: Option<usize>)
        requires
            child < self.nodes.len(),
            self.nodes.len() == self.edges.len(),
            forall|j: int| 0 <= j < self.minimized_nodes@.len() ==> #[trigger] self.minimized_nodes@[j] < self.nodes.len(),
        ensures
            r matches Some(n) ==> {
                &&& exists|j: int| 0 <= j < self.minimized_nodes@.len() && #[trigger] self.minimized_nodes@[j] == n
                &&& n < self.nodes.len()
                &&& self.nodes@[n as int] == self.nodes@[child as int]
                &&& self.edges@[n as int]@ == self.edges@[child as int]@
            },
            r is None ==> forall|jj: int|
                0 <= jj < self.minimized_nodes@.len() ==> !(self.nodes@[#[trigger] self.minimized_nodes@[jj] as int]
                    == self.nodes@[child as int] && self.edges@[self.minimized_nodes@[jj] as int]@
                    == self.edges@[child as int]@),
    {
        let mut j: usize = 0;
        while j < self.minimized_nodes.len()
            invariant
                j <= self.minimized_nodes.len(),
                child < self.nodes.len(),
                self.nodes.len() == self.edges.len(),
                forall|jj: int| 0 <= jj < self.minimized_nodes@.len() ==> #[trigger] self.minimized_nodes@[jj] < self.nodes.len(),
                forall|jj: int|
                    0 <= jj < j ==> !(self.nodes@[#[trigger] self.minimized_nodes@[jj] as int]
                        == self.nodes@[child as int] && self.edges@[self.minimized_nodes@[jj] as int]@
                        == self.edges@[child as int]@),
            decreases self.minimized_nodes.len() - j,
        {
            let n = self.minimized_nodes[j];
            if self.nodes[n] == self.nodes[child] && same_edges(&self.edges[n], &self.edges[child]) {
                return Some(n);
            }
            j += 1;
        }
        None
    }

    /// Freezes the frontier down to `down_to` entries: each node popped is
    /// merged into an equivalent frozen node if there is one, else frozen.
    fn minimize(&mut self, down_to: usize)
        requires
            old(self).inv(),
        ensures
            final(self).inv(),
            final(self).unchecked_nodes@ == old(self).unchecked_nodes@.take(
                if (down_to as int) < old(self).unchecked_nodes@.len() {
                    down_to as int
                } else {
                    old(self).unchecked_nodes@.len() as int
                },
            ),
            final(self).previous_word@ == old(self).previous_word@,
            final(self).words@ == old(self).words@,
            final(self).started == old(self).started,
            final(self).nodes@ == old(self).nodes@,
            final(self).frozen_distinct(),
            untouched(
                old(self).edge_lists(),
                final(self).edge_lists(),
                old(self).unchecked_nodes@,
                final(self).unchecked_nodes@.len() as int,
            ),
            popped_ok(
                final(self).nodes@,
                final(self).edge_lists(),
                final(self).minimized_nodes@,
                old(self).unchecked_nodes@,
                final(self).unchecked_nodes@.len() as int,
            ),
    {
        let ghost u0 = self.unchecked_nodes@;
        let ghost e0 = self.edge_lists();
        proof {
            reveal(popped_ok);
            reveal(untouched);
            assert(popped_ok(self.nodes@, e0, self.minimized_nodes@, u0, u0.len() as int));
            assert(untouched(e0, e0, u0, u0.len() as int));
            assert(chain_order(u0));
        }
        let ghost target: int = if (down_to as int) < u0.len() { down_to as int } else { u0.len() as int };
        proof {
            assert(u0.take(u0.len() as int) =~= u0);
        }
        while self.unchecked_nodes.len() > down_to
            invariant
                self.inv(),
                self.previous_word@ == old(self).previous_word@,
                self.words@ == old(self).words@,
                self.started == old(self).started,
                self.nodes@ == old(self).nodes@,
                u0 == old(self).unchecked_nodes@,
                target == (if (down_to as int) < u0.len() { down_to as int } else { u0.len() as int }),
                target <= self.unchecked_nodes@.len() <= u0.len(),
                self.unchecked_nodes@ == u0.take(self.unchecked_nodes@.len() as int),
                e0 == old(self).edge_lists(),
                chain_order(u0),
                forall|i: int| 0 <= i < u0.len() ==> (#[trigger] u0[i]).2 < self.nodes@.len(),
                popped_ok(self.nodes@, self.edge_lists(), self.minimized_nodes@, u0, self.unchecked_nodes@.len() as int),
                untouched(e0, self.edge_lists(), u0, self.unchecked_nodes@.len() as int),
            decreases self.unchecked_nodes.len(),
        {
            let last = self.unchecked_nodes.len() - 1;
            let (parent, letter, child) = self.unchecked_nodes[last];
            let ghost u = self.unchecked_nodes@;
            let ghost e = self.edge_lists();
            let ghost nodes = self.nodes@;
            let ghost m = self.minimized_nodes@;
            let ghost w = self.previous_word@;
            let ghost dead = self.dead@;
            self.unchecked_nodes.pop();
            proof {
                assert(self.unchecked_nodes@ =~= u.drop_last());
                assert(u.drop_last() =~= u0.take(last as int));
                assert(u[last as int] == (parent, letter, child));
            }
            match self.find_equivalent(child) {
                Some(n) => {
                    let idx = label_index(&self.edges[parent], letter);
                    self.edges[parent].set(idx, (letter, n));
                    self.dead = Ghost(self.dead@.insert(child as int));
                    proof {
                        let e2 = self.edge_lists();
                        assert(e2 =~= e.update(parent as int, e[parent as int].update(idx as int, (letter, n))));
                        lemma_pop_merge(nodes, e, u, m, w, n, idx as int);
                        lemma_merge_extra(nodes, e, u, m, dead, n, idx as int);
                        lemma_coacc_same(nodes, e, e2, dead, self.dead@, self.started);
                        lemma_sorted_redirect(e, parent as int, idx as int, n);
                        lemma_find_update(e[parent as int], idx as int, letter, n, letter);
                        assert(u[last as int] == u0[last as int]);
                        let jn = choose|j: int| 0 <= j < m.len() && #[trigger] m[j] == n;
                        assert(m.contains(n));
                        assert(e[n as int] == e[child as int]);
                        assert(step(e2, parent as int, letter) == Some(n as int));
                        lemma_popped_merge(nodes, e0, e, e2, m, u0, last as int, n);
                        assert forall|s: Seq<char>| accepts(nodes, e2, 0, s) == accepts(nodes, e, 0, s) by {
                            assert(accepts(nodes, e2, 0, s) == accepts(nodes, e, 0, s));
                        }
                    }
                },
                None => {
                    self.minimized_nodes.push(child);
                    proof {
                        lemma_pop_freeze(nodes, e, u, m, w);
                        lemma_freeze_extra(nodes, e, u, m, dead);
                        assert(u[last as int] == u0[last as int]);
                        lemma_popped_freeze(nodes, e0, e, m, u0, last as int);
                    }
                },
            }
        }
    }

    /// Adds `word` when it comes strictly after every word inserted so far;
    /// ignores it otherwise.
    #[verifier::rlimit(100)]
    #[verifier::spinoff_prover]
    pub fn insert_word(&mut self, word: Vec<char>)
        requires
            old(self).wf(),
        ensures
            final(self).wf(),
            (!old(self).started() || lex_less(old(self).last_word(), word@)) ==> {
                &&& final(self).language() == old(self).language().insert(word@)
                &&& final(self).last_word() == word@
                &&& final(self).started()
                &&& final(self).num_nodes() == old(self).num_nodes() + word@.len() - shared_len(word@, old(self).last_word())
            },
            !(!old(self).started() || lex_less(old(self).last_word(), word@)) ==> *final(self) == *old(self),
    {
        let k = common_prefix(&word, &self.previous_word);
        let in_order = if !self.started {
            true
        } else {
            k < word.len() && (k == self.previous_word.len() || (word[k] as u32) > (self.previous_word[k] as u32))
        };
        proof {
            let a = self.previous_word@;
            let b = word@;
            if self.started {
                if in_order {
                    assert(0 <= k <= a.len() && k < b.len() && a.take(k as int) == b.take(k as int) && (k == a.len()
                        || (a[k as int] as u32) < (b[k as int] as u32)));
                    assert(lex_less(a, b));
                }
                if lex_less(a, b) {
                    let k2 = choose|k2: int|
                        0 <= k2 <= a.len() && k2 < b.len() && a.take(k2) == b.take(k2) && (k2 == a.len() || (
                        a[k2] as u32) < (b[k2] as u32));
                    if k2 < k {
                        assert(a.take(k as int)[k2] == b.take(k as int)[k2]);
                    } else if k2 > k {
                        assert(a.take(k2)[k as int] == b.take(k2)[k as int]);
                    }
                }
            }
        }
        if !in_order {
            return;
        }
        let ghost w0 = self.previous_word@;
        let ghost u0 = self.unchecked_nodes@;
        self.minimize(k);
        let mut node: usize = if k == 0 { 0 } else { self.unchecked_nodes[k - 1].2 };
        let ghost len0 = self.nodes@.len() as int;
        let ghost dead0 = self.dead@;
        proof {
            lemma_tail_start(self.nodes@, self.edge_lists(), self.unchecked_nodes@, self.dead@, self.started, word@, k as int, node as int);
            let e = self.edge_lists();
            let u = self.unchecked_nodes@;
            assert(u.len() == k);
            assert(node as int == chain_node(u, k as int));
            assert forall|i: int| 0 <= i < k implies w0[i] == word@[i] by {
                assert(w0.take(k as int)[i] == word@.take(k as int)[i]);
            }
            assert forall|kk: int| 0 <= kk < e[node as int].len() implies (#[trigger] e[node as int][kk]).0 != word@[k as int]
                && (e[node as int][kk].0 as u32) <= (word@[k as int] as u32) by {
                assert(e[chain_node(u, k as int)][kk] == e[node as int][kk]);
            }
            assert(frontier_ok(self.nodes@, e, u, self.minimized_nodes@, word@));
            lemma_live_chain(self.nodes@, e, u, self.minimized_nodes@, self.dead@, k as int);
        }
        let mut j: usize = k;
        while j < word.len()
            invariant
                frontier_ok(self.nodes@, self.edge_lists(), self.unchecked_nodes@, self.minimized_nodes@, word@),
                forall|s: Seq<char>| accepts(self.nodes@, self.edge_lists(), 0, s) == self.words@.contains(s),
                registry_distinct(self.nodes@, self.edge_lists(), self.minimized_nodes@),
                live_ok(self.nodes@, self.edge_lists(), self.unchecked_nodes@, self.minimized_nodes@, self.dead@),
                !self.dead@.contains(node as int),
                self.dead@ == dead0,
                1 <= len0,
                len0 == old(self).nodes@.len(),
                self.nodes@.len() == len0 + j - k,
                coacc_below(self.nodes@, self.edge_lists(), dead0, old(self).started, len0),
                new_tail(self.edge_lists(), self.unchecked_nodes@, word@, k as int, j as int, len0, node as int),
                sorted_ok(self.edge_lists()),
                self.words@ == old(self).words@,
                self.started == old(self).started,
                k <= j <= word.len(),
                self.unchecked_nodes@.len() == j,
                node as int == chain_node(self.unchecked_nodes@, j as int),
                j < word.len() ==> forall|kk: int|
                    0 <= kk < self.edge_lists()[node as int].len() ==> (#[trigger] self.edge_lists()[node as int][kk]).0
                        != word@[j as int],
            decreases word.len() - j,
        {
            let ghost e = self.edge_lists();
            let ghost nodes = self.nodes@;
            let ghost u = self.unchecked_nodes@;
            let ghost m = self.minimized_nodes@;
            let c = word[j];
            let n = self.nodes.len();
            proof {
                lemma_push_extra(nodes, e, u, m, self.dead@, node, c);
            }
            self.nodes.push(false);
            self.edges.push(Vec::new());
            self.edges[node].push((c, n));
            self.unchecked_nodes.push((node, c, n));
            proof {
                let e2 = self.edge_lists();
                let u2 = self.unchecked_nodes@;
                assert(e2 =~= e.push(Seq::empty()).update(node as int, e[node as int].push((c, n))));
                lemma_find_none(e[node as int], c, 0);
                assert(step(e, node as int, c) is None);
                assert forall|kk: int| 0 <= kk < e[node as int].len() implies ((#[trigger] e[node as int][kk]).0 as u32) < (c as u32) by {
                    assert(e[chain_node(u, j as int)][kk] == e[node as int][kk]);
                    assert((e[chain_node(u, j as int)][kk].0 as u32) <= (word@[j as int] as u32));
                    assert(e[node as int][kk].0 != c);
                    assert(c == word@[j as int]);
                    lemma_char_code_distinct(e[node as int][kk].0, c);
                }
                lemma_sorted_push(e, node as int, c, n);
                lemma_find_push(e[node as int], c, n, c);
                assert forall|y: int, d: char| #[trigger] step(e2, y, d) == if y == node && d == c {
                    Some(n as int)
                } else if y == n {
                    None
                } else {
                    step(e, y, d)
                } by {
                    if y == node {
                        lemma_find_push(e[node as int], c, n, d);
                    }
                }
                assert forall|s: Seq<char>| accepts(self.nodes@, e2, 0, s) == accepts(nodes, e, 0, s) by {
                    lemma_add_leaf(nodes, e, self.nodes@, e2, node as int, c, 0, s);
                }
                assert forall|i: int| 0 <= i <= j + 1 implies chain_node(u2, i) == if i <= j {
                    chain_node(u, i)
                } else {
                    n as int
                } by {}
                assert forall|i: int| 0 <= i < j implies (#[trigger] u[i]).0 != node by {
                    if i > 0 {
                        assert(u[i - 1].2 < u[j - 1].2);
                    } else if j > 0 {
                        assert(u[j - 1].0 < u[j - 1].2);
                    }
                }
                assert forall|y: int, kk: int| 0 <= y < e.len() && 0 <= kk < e[y].len() implies (#[trigger] e2[y][kk])
                    == e[y][kk] by {}
                assert(frontier_ok(self.nodes@, e2, u2, m, word@));
                lemma_live_chain(self.nodes@, e2, u2, m, self.dead@, j + 1);
                lemma_tail_step(nodes, e, self.nodes@, e2, u, dead0, old(self).started, word@, k as int, j as int, len0, node as int);
            }
            node = n;
            j += 1;
        }
        let ghost e = self.edge_lists();
        let ghost nodes = self.nodes@;
        let ghost u = self.unchecked_nodes@;
        let ghost m = self.minimized_nodes@;
        proof {
            lemma_mark_extra(nodes, e, u, m, self.dead@, node as int);
        }
        self.nodes.set(node, true);
        self.previous_word = word;
        self.started = true;
        self.words = Ghost(self.words@.insert(self.previous_word@));
        proof {
            let w = self.previous_word@;
            assert(frontier_ok(self.nodes@, e, u, m, w));
            lemma_walk_chain(nodes, e, u, m, w, w.len() as int);
            assert(w.take(w.len() as int) =~= w);
            lemma_tail_end(nodes, e, u, dead0, old(self).started, w, k as int, len0, node as int);
            assert forall|s: Seq<char>| accepts(self.nodes@, e, 0, s) == self.words@.contains(s) by {
                if walk(e, 0, s) == Some(node as int) {
                    lemma_chain_walk(e, u, w, 0, s, w.len() as int);
                    assert(s =~= w);
                }
            }
        }
    }

    /// Freezes what is left of the frontier and hands out the automaton.
    pub fn finish(self) -> (r: PackedDawg)
        requires
            self.wf(),
        ensures
            r.wf(),
            r.minimal(),
            forall|s: Seq<char>| r.has(s) == self.language().contains(s),
            r.num_nodes() == self.num_nodes(),
            forall|s: Seq<char>|
                s.len() > 0 ==> (#[trigger] r.node_of(s) is Some <==> exists|w: Seq<char>| #[trigger] r.has(w) && is_prefix(s, w)),
            forall|s: Seq<char>| #[trigger] r.node_of(s) == Some(0int) <==> s.len() == 0,
    {
        let mut b = self;
        b.minimize(0);
        let ghost nodes = b.nodes@;
        let ghost e = b.edge_lists();
        let ghost m = b.minimized_nodes@;
        let ghost dead = b.dead@;
        let len = b.nodes.len();
        proof {
            assert(b.unchecked_nodes@ =~= Seq::<(usize, char, usize)>::empty());
            assert(nodes.len() == len);
        }
        let r = PackedDawg { nodes: b.nodes, edges: b.edges };
        assert(r.edge_lists() == e);
        proof {
            assert forall|s1: Seq<char>, s2: Seq<char>|
                s1.len() > 0 && s2.len() > 0 && #[trigger] r.node_of(s1) is Some && #[trigger] r.node_of(s2) is Some
                    && r.node_of(s1) != r.node_of(s2) implies !(r.is_end(r.node_of(s1)->0) == r.is_end(
                    r.node_of(s2)->0,
                ) && forall|d: char| r.node_of(s1.push(d)) == r.node_of(s2.push(d))) by {
                lemma_minimal(nodes, e, m, dead, s1, s2);
                lemma_walk_bounded(nodes, e, 0, s1);
                lemma_walk_bounded(nodes, e, 0, s2);
                let v1 = r.node_of(s1)->0;
                let v2 = r.node_of(s2)->0;
                if r.is_end(v1) == r.is_end(v2) && forall|d: char| r.node_of(s1.push(d)) == r.node_of(s2.push(d)) {
                    assert forall|d: char| find_from(e[v1], d, 0) == find_from(e[v2], d, 0) by {
                        lemma_walk_push(e, 0, s1, d);
                        lemma_walk_push(e, 0, s2, d);
                        assert(r.node_of(s1.push(d)) == r.node_of(s2.push(d)));
                    }
                    reveal(sorted_ok);
                    assert(sorted_labels(e[v1]) && sorted_labels(e[v2]));
                    lemma_sorted_eq(e[v1], e[v2]);
                }
            }
            assert forall|s: Seq<char>|
                s.len() > 0 implies (#[trigger] r.node_of(s) is Some <==> exists|w: Seq<char>| #[trigger] r.has(w) && is_prefix(s, w)) by {
                lemma_trim(nodes, e, Seq::empty(), m, dead, b.started, s);
                if exists|w: Seq<char>| #[trigger] accepts(nodes, e, 0, w) && is_prefix(s, w) {
                    let w = choose|w: Seq<char>| #[trigger] accepts(nodes, e, 0, w) && is_prefix(s, w);
                    assert(r.has(w));
                }
                if exists|w: Seq<char>| #[trigger] r.has(w) && is_prefix(s, w) {
                    let w = choose|w: Seq<char>| #[trigger] r.has(w) && is_prefix(s, w);
                    assert(accepts(nodes, e, 0, w));
                }
            }
            assert forall|s: Seq<char>| #[trigger] r.node_of(s) == Some(0int) <==> s.len() == 0 by {
                if s.len() > 0 {
                    lemma_walk_not_root(e, 0, s);
                }
            }
        }
        r
    }
}

} // verus!
