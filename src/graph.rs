use vstd::prelude::*;

verus! {

/// The target of the first edge labelled `c` in `es`, looking from position `i` on.
pub open spec fn find_from(es: Seq<(char, usize)>, c: char, i: int) -> Option<usize>
    decreases es.len() - i,
{
    if i < 0 || i >= es.len() {
        None
    } else if es[i].0 == c {
        Some(es[i].1)
    } else {
        find_from(es, c, i + 1)
    }
}

/// The transition from node `x` on symbol `c`.
pub open spec fn step(edges: Seq<Seq<(char, usize)>>, x: int, c: char) -> Option<int> {
    if 0 <= x < edges.len() {
        match find_from(edges[x], c, 0) {
            Some(t) => Some(t as int),
            None => None,
        }
    } else {
        None
    }
}

/// The node reached from `x` by consuming all of `s`, if every transition exists.
pub open spec fn walk(edges: Seq<Seq<(char, usize)>>, x: int, s: Seq<char>) -> Option<int>
    decreases s.len(),
{
    if s.len() == 0 {
        Some(x)
    } else {
        match step(edges, x, s[0]) {
            Some(t) => walk(edges, t, s.drop_first()),
            None => None,
        }
    }
}

/// `s` leads from `x` to an accepting node.
pub open spec fn accepts(nodes: Seq<bool>, edges: Seq<Seq<(char, usize)>>, x: int, s: Seq<char>) -> bool {
    match walk(edges, x, s) {
        Some(v) => 0 <= v < nodes.len() && nodes[v],
        None => false,
    }
}

/// No two edges of one node carry the same symbol.
pub open spec fn distinct_labels(es: Seq<(char, usize)>) -> bool {
    forall|k1: int, k2: int| 0 <= k1 < k2 < es.len() ==> es[k1].0 != es[k2].0
}

/// Node arena and edge lists agree in length, the root exists, every edge
/// lands on a node, and the automaton is deterministic.
pub open spec fn graph_wf(nodes: Seq<bool>, edges: Seq<Seq<(char, usize)>>) -> bool {
    &&& nodes.len() == edges.len()
    &&& nodes.len() >= 1
    &&& forall|x: int, k: int|
        0 <= x < edges.len() && 0 <= k < edges[x].len() ==> (#[trigger] edges[x][k]).1 < nodes.len()
    &&& forall|x: int| 0 <= x < edges.len() ==> distinct_labels(#[trigger] edges[x])
}

pub proof fn lemma_find_some(es: Seq<(char, usize)>, c: char, i: int)
    requires
        find_from(es, c, i) is Some,
    ensures
        exists|k: int| i <= k < es.len() && #[trigger] es[k] == (c, find_from(es, c, i)->0),
    decreases es.len() - i,
{
    if es[i].0 != c {
        lemma_find_some(es, c, i + 1);
    } else {
        assert(es[i] == (c, es[i].1));
    }
}

pub proof fn lemma_find_none(es: Seq<(char, usize)>, c: char, i: int)
    requires
        0 <= i,
        forall|k: int| i <= k < es.len() ==> (#[trigger] es[k]).0 != c,
    ensures
        find_from(es, c, i) is None,
    decreases es.len() - i,
{
    if i < es.len() {
        lemma_find_none(es, c, i + 1);
    }
}

pub proof fn lemma_find_distinct(es: Seq<(char, usize)>, k: int, i: int)
    requires
        distinct_labels(es),
        0 <= i <= k < es.len(),
    ensures
        find_from(es, es[k].0, i) == Some(es[k].1),
    decreases k - i,
{
    if i < k {
        lemma_find_distinct(es, k, i + 1);
    }
}

/// Walking `s + t` is walking `s`, then `t`.
pub proof fn lemma_walk_append(edges: Seq<Seq<(char, usize)>>, x: int, s: Seq<char>, t: Seq<char>)
    ensures
        walk(edges, x, s + t) == match walk(edges, x, s) {
            Some(y) => walk(edges, y, t),
            None => None,
        },
    decreases s.len(),
{
    if s.len() == 0 {
        assert(s + t =~= t);
    } else {
        assert((s + t).drop_first() =~= s.drop_first() + t);
        assert((s + t)[0] == s[0]);
        match step(edges, x, s[0]) {
            Some(y) => lemma_walk_append(edges, y, s.drop_first(), t),
            None => {},
        }
    }
}

/// Walking one more symbol is one more step.
pub proof fn lemma_walk_push(edges: Seq<Seq<(char, usize)>>, x: int, s: Seq<char>, c: char)
    ensures
        walk(edges, x, s.push(c)) == match walk(edges, x, s) {
            Some(y) => step(edges, y, c),
            None => None,
        },
{
    lemma_walk_append(edges, x, s, seq![c]);
    assert(s + seq![c] =~= s.push(c));
    match walk(edges, x, s) {
        Some(y) => {
            assert(seq![c].drop_first() =~= Seq::<char>::empty());
            match step(edges, y, c) {
                Some(t) => {
                    assert(walk(edges, t, seq![c].drop_first()) == Some(t));
                },
                None => {},
            }
        },
        None => {},
    }
}


/// One step of `accepts`: follow the edge of the first symbol.
pub proof fn lemma_accepts_unfold(nodes: Seq<bool>, edges: Seq<Seq<(char, usize)>>, x: int, s: Seq<char>)
    requires
        s.len() > 0,
    ensures
        accepts(nodes, edges, x, s) == match step(edges, x, s[0]) {
            Some(t) => accepts(nodes, edges, t, s.drop_first()),
            None => false,
        },
{
}

/// Replacing the target of the edge labelled `c` in one list, and only that.
pub proof fn lemma_find_update(es: Seq<(char, usize)>, idx: int, c: char, n: usize, d: char)
    requires
        distinct_labels(es),
        0 <= idx < es.len(),
        es[idx].0 == c,
    ensures
        distinct_labels(es.update(idx, (c, n))),
        find_from(es.update(idx, (c, n)), d, 0) == if d == c {
            Some(n)
        } else {
            find_from(es, d, 0)
        },
{
    let es2 = es.update(idx, (c, n));
    assert(distinct_labels(es2));
    if d == c {
        lemma_find_distinct(es2, idx, 0);
    } else if exists|kk: int| 0 <= kk < es.len() && (#[trigger] es[kk]).0 == d {
        let kk = choose|kk: int| 0 <= kk < es.len() && (#[trigger] es[kk]).0 == d;
        lemma_find_distinct(es, kk, 0);
        lemma_find_distinct(es2, kk, 0);
    } else {
        lemma_find_none(es, d, 0);
        assert forall|kk: int| 0 <= kk < es2.len() implies (#[trigger] es2[kk]).0 != d by {
            if kk != idx {
                assert(es2[kk] == es[kk]);
            }
        }
        lemma_find_none(es2, d, 0);
    }
}

/// Appending an edge labelled `c`, which the list did not have.
pub proof fn lemma_find_push(es: Seq<(char, usize)>, c: char, n: usize, d: char)
    requires
        distinct_labels(es),
        find_from(es, c, 0) is None,
    ensures
        distinct_labels(es.push((c, n))),
        find_from(es.push((c, n)), d, 0) == if d == c {
            Some(n)
        } else {
            find_from(es, d, 0)
        },
{
    let es2 = es.push((c, n));
    assert forall|kk: int| 0 <= kk < es.len() implies (#[trigger] es[kk]).0 != c by {
        lemma_find_distinct(es, kk, 0);
    }
    assert(distinct_labels(es2));
    if d == c {
        lemma_find_distinct(es2, es.len() as int, 0);
    } else if exists|kk: int| 0 <= kk < es.len() && (#[trigger] es[kk]).0 == d {
        let kk = choose|kk: int| 0 <= kk < es.len() && (#[trigger] es[kk]).0 == d;
        lemma_find_distinct(es, kk, 0);
        lemma_find_distinct(es2, kk, 0);
    } else {
        lemma_find_none(es, d, 0);
        assert forall|kk: int| 0 <= kk < es2.len() implies (#[trigger] es2[kk]).0 != d by {
            if kk < es.len() {
                assert(es2[kk] == es[kk]);
            }
        }
        lemma_find_none(es2, d, 0);
    }
}

/// Sending one edge to a node with the same flag and the same edges as its old
/// target changes no language.
pub proof fn lemma_redirect(
    nodes: Seq<bool>,
    e: Seq<Seq<(char, usize)>>,
    e2: Seq<Seq<(char, usize)>>,
    parent: int,
    sym: char,
    child: int,
    n: int,
    x: int,
    s: Seq<char>,
)
    requires
        forall|y: int, d: char| #[trigger] step(e2, y, d) == if y == parent && d == sym {
            Some(n)
        } else {
            step(e, y, d)
        },
        step(e, parent, sym) == Some(child),
        0 <= n < nodes.len(),
        0 <= child < nodes.len(),
        0 <= n < e.len(),
        0 <= child < e.len(),
        nodes[n] == nodes[child],
        e[n] == e[child],
    ensures
        accepts(nodes, e2, x, s) == accepts(nodes, e, x, s),
    decreases s.len(),
{
    if s.len() > 0 {
        lemma_accepts_unfold(nodes, e, x, s);
        lemma_accepts_unfold(nodes, e2, x, s);
        let s1 = s.drop_first();
        if x == parent && s[0] == sym {
            lemma_redirect(nodes, e, e2, parent, sym, child, n, n, s1);
            if s1.len() > 0 {
                lemma_accepts_unfold(nodes, e, n, s1);
                lemma_accepts_unfold(nodes, e, child, s1);
            }
        } else {
            match step(e, x, s[0]) {
                Some(t) => lemma_redirect(nodes, e, e2, parent, sym, child, n, t, s1),
                None => {},
            }
        }
    }
}

/// Hanging a fresh non-accepting leaf below `a` on a new symbol changes no
/// language of the old nodes.
pub proof fn lemma_add_leaf(
    nodes: Seq<bool>,
    e: Seq<Seq<(char, usize)>>,
    nodes2: Seq<bool>,
    e2: Seq<Seq<(char, usize)>>,
    a: int,
    c: char,
    x: int,
    s: Seq<char>,
)
    requires
        graph_wf(nodes, e),
        nodes2 == nodes.push(false),
        forall|y: int, d: char| #[trigger] step(e2, y, d) == if y == a && d == c {
            Some(nodes.len() as int)
        } else if y == nodes.len() {
            None
        } else {
            step(e, y, d)
        },
        step(e, a, c) is None,
        0 <= x < nodes.len(),
    ensures
        accepts(nodes2, e2, x, s) == accepts(nodes, e, x, s),
    decreases s.len(),
{
    if s.len() > 0 {
        lemma_accepts_unfold(nodes, e, x, s);
        lemma_accepts_unfold(nodes2, e2, x, s);
        let s1 = s.drop_first();
        let n = nodes.len() as int;
        if x == a && s[0] == c {
            if s1.len() > 0 {
                lemma_accepts_unfold(nodes2, e2, n, s1);
            }
        } else {
            match step(e, x, s[0]) {
                Some(t) => {
                    lemma_find_some(e[x], s[0], 0);
                    lemma_add_leaf(nodes, e, nodes2, e2, a, c, t, s1);
                },
                None => {},
            }
        }
    }
}


/// No edge enters the root.
pub open spec fn no_root_entry(edges: Seq<Seq<(char, usize)>>) -> bool {
    forall|y: int, kk: int| 0 <= y < edges.len() && 0 <= kk < edges[y].len() ==> (#[trigger] edges[y][kk]).1 != 0
}

/// Where no edge enters the root, only the empty walk ends there.
pub proof fn lemma_walk_not_root(edges: Seq<Seq<(char, usize)>>, x: int, s: Seq<char>)
    requires
        no_root_entry(edges),
        s.len() > 0,
    ensures
        walk(edges, x, s) != Some(0int),
    decreases s.len(),
{
    match step(edges, x, s[0]) {
        Some(t) => {
            lemma_find_some(edges[x], s[0], 0);
            let kk = choose|kk: int| 0 <= kk < edges[x].len() && #[trigger] edges[x][kk] == (s[0], find_from(edges[x], s[0], 0)->0);
            assert(edges[x][kk].1 != 0);
            if s.len() > 1 {
                lemma_walk_not_root(edges, t, s.drop_first());
            } else {
                assert(s.drop_first().len() == 0);
            }
        },
        None => {},
    }
}


/// A walk from a node of the arena stays in the arena.
pub proof fn lemma_walk_bounded(nodes: Seq<bool>, edges: Seq<Seq<(char, usize)>>, x: int, s: Seq<char>)
    requires
        graph_wf(nodes, edges),
        0 <= x < nodes.len(),
    ensures
        walk(edges, x, s) matches Some(v) ==> 0 <= v < nodes.len(),
    decreases s.len(),
{
    if s.len() > 0 {
        match step(edges, x, s[0]) {
            Some(t) => {
                lemma_find_some(edges[x], s[0], 0);
                lemma_walk_bounded(nodes, edges, t, s.drop_first());
            },
            None => {},
        }
    }
}


/// Where the edges only grow, a walk that existed stays the same.
pub proof fn lemma_walk_mono(e: Seq<Seq<(char, usize)>>, e2: Seq<Seq<(char, usize)>>, x: int, s: Seq<char>)
    requires
        forall|y: int, d: char| #[trigger] step(e, y, d) is Some ==> step(e2, y, d) == step(e, y, d),
        walk(e, x, s) is Some,
    ensures
        walk(e2, x, s) == walk(e, x, s),
    decreases s.len(),
{
    if s.len() > 0 {
        lemma_walk_mono(e, e2, step(e, x, s[0])->0, s.drop_first());
    }
}

/// Some word leads from `y` to an accepting node.
pub open spec fn coacc(nodes: Seq<bool>, edges: Seq<Seq<(char, usize)>>, y: int) -> bool {
    exists|t: Seq<char>| #[trigger] accepts(nodes, edges, y, t)
}


/// The labels of `es` strictly increase.
pub open spec fn sorted_labels(es: Seq<(char, usize)>) -> bool {
    forall|i: int, j: int| 0 <= i < j < es.len() ==> (es[i].0 as u32) < (#[trigger] es[j].0 as u32) && #[trigger] es[i].0 != es[j].0
}

/// Every edge list is sorted by label.
#[verifier::opaque]
pub open spec fn sorted_ok(edges: Seq<Seq<(char, usize)>>) -> bool {
    forall|x: int| 0 <= x < edges.len() ==> sorted_labels(#[trigger] edges[x])
}

proof fn lemma_sorted_prefix(es1: Seq<(char, usize)>, es2: Seq<(char, usize)>, i: int)
    requires
        sorted_labels(es1),
        sorted_labels(es2),
        distinct_labels(es1),
        distinct_labels(es2),
        forall|d: char| find_from(es1, d, 0) == find_from(es2, d, 0),
        0 <= i <= es1.len(),
        i <= es2.len(),
    ensures
        forall|j: int| 0 <= j < i ==> es1[j] == es2[j],
    decreases i,
{
    if i > 0 {
        lemma_sorted_prefix(es1, es2, i - 1);
        let a = i - 1;
        lemma_find_distinct(es1, a, 0);
        lemma_find_some(es2, es1[a].0, 0);
        let k = choose|k: int| 0 <= k < es2.len() && #[trigger] es2[k] == (es1[a].0, find_from(es2, es1[a].0, 0)->0);
        lemma_find_distinct(es2, a, 0);
        lemma_find_some(es1, es2[a].0, 0);
        let k2 = choose|k2: int| 0 <= k2 < es1.len() && #[trigger] es1[k2] == (es2[a].0, find_from(es1, es2[a].0, 0)->0);
        if k < a {
            assert(es1[k] == es2[k]);
            assert(es1[k].0 != es1[a].0);
        }
        if k2 < a {
            assert(es1[k2] == es2[k2]);
            assert(es2[k2].0 != es2[a].0);
        }
        if k > a {
            assert((es2[a].0 as u32) < (es2[k].0 as u32));
            if k2 > a {
                assert((es1[a].0 as u32) < (es1[k2].0 as u32));
            }
        }
        if k2 > a {
            assert((es1[a].0 as u32) < (es1[k2].0 as u32));
        }
    }
}

/// Two sorted edge lists with the same transitions are the same list.
pub proof fn lemma_sorted_eq(es1: Seq<(char, usize)>, es2: Seq<(char, usize)>)
    requires
        sorted_labels(es1),
        sorted_labels(es2),
        forall|d: char| find_from(es1, d, 0) == find_from(es2, d, 0),
    ensures
        es1 == es2,
{
    assert(distinct_labels(es1));
    assert(distinct_labels(es2));
    let n = if es1.len() <= es2.len() { es1.len() as int } else { es2.len() as int };
    lemma_sorted_prefix(es1, es2, n);
    if es1.len() > n {
        lemma_find_distinct(es1, n, 0);
        lemma_find_some(es2, es1[n].0, 0);
        let k = choose|k: int| 0 <= k < es2.len() && #[trigger] es2[k] == (es1[n].0, find_from(es2, es1[n].0, 0)->0);
        assert(es1[k] == es2[k]);
        assert(es1[k].0 != es1[n].0);
    }
    if es2.len() > n {
        lemma_find_distinct(es2, n, 0);
        lemma_find_some(es1, es2[n].0, 0);
        let k = choose|k: int| 0 <= k < es1.len() && #[trigger] es1[k] == (es2[n].0, find_from(es1, es2[n].0, 0)->0);
        assert(es1[k] == es2[k]);
        assert(es2[k].0 != es2[n].0);
    }
    assert(es1 =~= es2);
}


/// Changing the target of one edge keeps every list sorted.
pub proof fn lemma_sorted_redirect(edges: Seq<Seq<(char, usize)>>, p: int, idx: int, n: usize)
    requires
        sorted_ok(edges),
        0 <= p < edges.len(),
        0 <= idx < edges[p].len(),
    ensures
        sorted_ok(edges.update(p, edges[p].update(idx, (edges[p][idx].0, n)))),
{
    reveal(sorted_ok);
    let e2 = edges.update(p, edges[p].update(idx, (edges[p][idx].0, n)));
    assert forall|x: int| 0 <= x < e2.len() implies sorted_labels(#[trigger] e2[x]) by {
        if x == p {
            assert(sorted_labels(edges[p]));
            assert forall|i: int, j: int| 0 <= i < j < e2[x].len() implies (e2[x][i].0 as u32) < (#[trigger] e2[x][j].0 as u32) && #[trigger] e2[x][i].0 != e2[x][j].0 by {
                assert(e2[x][i].0 == edges[p][i].0 && e2[x][j].0 == edges[p][j].0);
            }
        }
    }
}

/// Appending an edge above every label of its list, and a fresh empty list,
/// keeps every list sorted.
pub proof fn lemma_sorted_push(edges: Seq<Seq<(char, usize)>>, node: int, c: char, n: usize)
    requires
        sorted_ok(edges),
        0 <= node < edges.len(),
        forall|kk: int| 0 <= kk < edges[node].len() ==> ((#[trigger] edges[node][kk]).0 as u32) < (c as u32),
    ensures
        sorted_ok(edges.push(Seq::empty()).update(node, edges[node].push((c, n)))),
{
    reveal(sorted_ok);
    let e2 = edges.push(Seq::empty()).update(node, edges[node].push((c, n)));
    assert forall|x: int| 0 <= x < e2.len() implies sorted_labels(#[trigger] e2[x]) by {
        if x == node {
            assert(sorted_labels(edges[node]));
            assert forall|i: int, j: int| 0 <= i < j < e2[x].len() implies (e2[x][i].0 as u32) < (#[trigger] e2[x][j].0 as u32) && #[trigger] e2[x][i].0 != e2[x][j].0 by {
                assert(e2[x][i] == edges[node][i]);
                if j < edges[node].len() {
                    assert(e2[x][j] == edges[node][j]);
                }
            }
        } else if x < edges.len() {
            assert(e2[x] == edges[x]);
        } else {
            assert(e2[x].len() == 0);
        }
    }
}


/// Distinct characters have distinct code points.
pub proof fn lemma_char_code_distinct(a: char, b: char)
    requires
        a != b,
    ensures
        (a as u32) != (b as u32),
{
}
} // verus!
