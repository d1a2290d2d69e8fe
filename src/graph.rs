//! Kahn's algorithm on a dependency graph given by job indices.
use vstd::prelude::*;

verus! {

/// The graph of a `Vec` of dependency lists: `g[i]` lists the jobs that job `i` needs.
pub open spec fn deps_view(deps: &Vec<Vec<usize>>) -> Seq<Seq<usize>> {
    deps@.map_values(|d: Vec<usize>| d@)
}

/// Every dependency names a job of the graph.
pub open spec fn edges_in_range(g: Seq<Seq<usize>>) -> bool {
    forall|i: int, k: int|
        0 <= i < g.len() && 0 <= k < g[i].len() ==> (#[trigger] g[i][k]) < g.len()
}

/// `j` is in `s`.
pub open spec fn member(s: Set<int>, j: int) -> bool {
    s.contains(j)
}

/// `s` is a nonempty set of jobs each of which needs a job of `s`: none of them can
/// ever come first. A finite graph has such a set exactly when it has a cycle.
pub open spec fn is_stuck_set(g: Seq<Seq<usize>>, s: Set<int>) -> bool {
    &&& exists|j: int| s.contains(j)
    &&& forall|j: int|
        #[trigger] member(s, j) ==> 0 <= j < g.len() && exists|k: int|
            0 <= k < g[j].len() && s.contains(g[j][k] as int)
}

pub open spec fn has_cycle(g: Seq<Seq<usize>>) -> bool {
    exists|s: Set<int>| is_stuck_set(g, s)
}

/// `order` lists every job once, and each job after all the jobs it needs.
pub open spec fn is_topological_order(g: Seq<Seq<usize>>, order: Seq<usize>) -> bool {
    &&& order.len() == g.len()
    &&& order.no_duplicates()
    &&& forall|b: int| 0 <= b < order.len() ==> (#[trigger] order[b]) < g.len()
    &&& forall|b: int, k: int|
        0 <= b < order.len() && 0 <= k < g[order[b] as int].len() ==> #[trigger] order.take(
            b,
        ).contains(g[order[b] as int][k])
}

/// Every job in `g[i]` is marked in `done`.
pub open spec fn all_marked(g: Seq<Seq<usize>>, i: int, done: Seq<bool>) -> bool {
    forall|k: int| 0 <= k < g[i].len() ==> done[#[trigger] g[i][k] as int]
}

/// A sequence of distinct indices below `n` has at most `n` entries, and exactly `n`
/// when it holds every index below `n`.
pub proof fn lemma_distinct_indices_len(s: Seq<usize>, n: usize)
    requires
        s.no_duplicates(),
        forall|i: int| 0 <= i < s.len() ==> (#[trigger] s[i]) < n,
    ensures
        s.len() <= n,
        (forall|j: usize| j < n ==> s.contains(j)) ==> s.len() == n,
        s.len() == n ==> (forall|j: usize| j < n ==> s.contains(j)),
{
    let si = s.map_values(|x: usize| x as int);
    assert(si.no_duplicates()) by {
        assert forall|a: int, b: int| 0 <= a < si.len() && 0 <= b < si.len() && a != b implies si[a]
            != si[b] by {
            assert(s[a] != s[b]);
        }
    }
    si.unique_seq_to_set();
    let r = vstd::set_lib::set_int_range(0, n as int);
    vstd::set_lib::lemma_int_range(0, n as int);
    assert(si.to_set().subset_of(r)) by {
        assert forall|x: int| si.to_set().contains(x) implies r.contains(x) by {
            let i = choose|i: int| 0 <= i < si.len() && si[i] == x;
            assert(s[i] < n);
        }
    }
    vstd::set_lib::lemma_len_subset(si.to_set(), r);
    if forall|j: usize| j < n ==> s.contains(j) {
        assert(r.subset_of(si.to_set())) by {
            assert forall|x: int| r.contains(x) implies si.to_set().contains(x) by {
                let j = x as usize;
                assert(s.contains(j));
                let i = choose|i: int| 0 <= i < s.len() && s[i] == j;
                assert(si[i] == x);
            }
        }
        vstd::set_lib::lemma_len_subset(r, si.to_set());
    }
    if s.len() == n {
        vstd::set_lib::lemma_subset_equality(si.to_set(), r);
        assert forall|j: usize| j < n implies s.contains(j) by {
            assert(r.contains(j as int));
            assert(si.to_set().contains(j as int));
            let i = choose|i: int| 0 <= i < si.len() && si[i] == j as int;
            assert(s[i] == j);
        }
    }
}

proof fn lemma_push_fresh(s: Seq<usize>, v: usize)
    requires
        s.no_duplicates(),
        !s.contains(v),
    ensures
        s.push(v).no_duplicates(),
        forall|x: usize| s.push(v).contains(x) <==> (s.contains(x) || x == v),
{
    let t = s.push(v);
    assert forall|a: int, b: int| 0 <= a < t.len() && 0 <= b < t.len() && a != b implies t[a] != t[b] by {
        if a < s.len() && b < s.len() {
            assert(s[a] != s[b]);
        } else if a < s.len() {
            assert(s.contains(s[a]));
        } else {
            assert(s.contains(s[b]));
        }
    }
    assert forall|x: usize| t.contains(x) <==> (s.contains(x) || x == v) by {
        if s.contains(x) {
            let a = choose|a: int| 0 <= a < s.len() && s[a] == x;
            assert(t[a] == x);
        }
        if x == v {
            assert(t[s.len() as int] == x);
        }
        if t.contains(x) {
            let a = choose|a: int| 0 <= a < t.len() && t[a] == x;
            if a < s.len() {
                assert(s[a] == x);
            }
        }
    }
}

/// Every job of `order` comes after all the jobs it needs.
pub open spec fn deps_before(g: Seq<Seq<usize>>, order: Seq<usize>) -> bool {
    forall|b: int, k: int|
        0 <= b < order.len() && 0 <= k < g[order[b] as int].len() ==> #[trigger] order.take(
            b,
        ).contains(g[order[b] as int][k])
}

proof fn lemma_push_keeps_deps_before(g: Seq<Seq<usize>>, order: Seq<usize>, head: int, v: usize)
    requires
        deps_before(g, order),
        0 <= head <= order.len(),
        forall|k: int| 0 <= k < g[v as int].len() ==> order.take(head).contains(#[trigger] g[v as int][k]),
    ensures
        deps_before(g, order.push(v)),
{
    let o2 = order.push(v);
    assert forall|b: int, k: int|
        0 <= b < o2.len() && 0 <= k < g[o2[b] as int].len() implies #[trigger] o2.take(b).contains(
            g[o2[b] as int][k],
        ) by {
        if b < order.len() {
            assert(o2.take(b) =~= order.take(b));
            assert(order.take(b).contains(g[order[b] as int][k]));
        } else {
            let x = g[v as int][k];
            assert(order.take(head).contains(x));
            let a = choose|a: int| 0 <= a < head && order.take(head)[a] == x;
            assert(o2.take(b)[a] == x);
        }
    }
}

/// No job of a stuck set sits among the first `p` jobs of a topological order.
proof fn lemma_stuck_set_absent_from_prefix(g: Seq<Seq<usize>>, order: Seq<usize>, s: Set<int>, p: int)
    requires
        deps_before(g, order),
        is_stuck_set(g, s),
        0 <= p <= order.len(),
    ensures
        forall|b: int| 0 <= b < p ==> !s.contains(#[trigger] order[b] as int),
    decreases p,
{
    if p > 0 {
        lemma_stuck_set_absent_from_prefix(g, order, s, p - 1);
        let b = p - 1;
        if s.contains(order[b] as int) {
            let j = order[b] as int;
            assert(member(s, j));
            let k = choose|k: int| 0 <= k < g[j].len() && s.contains(g[j][k] as int);
            assert(order.take(b).contains(g[j][k]));
            let a = choose|a: int| 0 <= a < b && order.take(b)[a] == g[j][k];
            assert(order[a] == g[j][k]);
        }
    }
}

/// A graph with a topological order has no cycle.
pub proof fn lemma_order_excludes_cycle(g: Seq<Seq<usize>>, order: Seq<usize>)
    requires
        is_topological_order(g, order),
        g.len() <= usize::MAX,
    ensures
        !has_cycle(g),
{
    if has_cycle(g) {
        let s = choose|s: Set<int>| is_stuck_set(g, s);
        let j = choose|j: int| s.contains(j);
        assert(member(s, j));
        lemma_distinct_indices_len(order, g.len() as usize);
        assert(order.contains(j as usize));
        let b = choose|b: int| 0 <= b < order.len() && order[b] == j as usize;
        lemma_stuck_set_absent_from_prefix(g, order, s, order.len() as int);
        assert(!s.contains(order[b] as int));
    }
}

/// For each job, the jobs that need it (once per mention).
fn dependents(deps: &Vec<Vec<usize>>) -> (adj: Vec<Vec<usize>>)
    requires
        edges_in_range(deps_view(deps)),
    ensures
        adj.len() == deps.len(),
        forall|u: int, i: int|
            0 <= u < adj.len() && 0 <= i < adj[u].len() ==> (#[trigger] adj[u][i]) < deps.len(),
        forall|v: int, k: int|
            0 <= v < deps.len() && 0 <= k < deps[v].len() ==> (#[trigger] adj[deps[v][k] as int])@.contains(
                v as usize,
            ),
{
    let n = deps.len();
    let mut adj: Vec<Vec<usize>> = Vec::new();
    while adj.len() < n
        invariant
            adj.len() <= n,
            forall|u: int| 0 <= u < adj.len() ==> (#[trigger] adj[u]).len() == 0,
        decreases n - adj.len(),
    {
        adj.push(Vec::new());
    }
    let mut v: usize = 0;
    while v < n
        invariant
            n == deps.len(),
            adj.len() == n,
            v <= n,
            edges_in_range(deps_view(deps)),
            forall|u: int, i: int|
                0 <= u < adj.len() && 0 <= i < adj[u].len() ==> (#[trigger] adj[u][i]) < n,
            forall|w: int, k: int|
                0 <= w < v && 0 <= k < deps[w].len() ==> (#[trigger] adj[deps[w][k] as int])@.contains(
                    w as usize,
                ),
        decreases n - v,
    {
        let row = &deps[v];
        let mut k: usize = 0;
        while k < row.len()
            invariant
                n == deps.len(),
                adj.len() == n,
                v < n,
                row == deps[v as int],
                k <= row.len(),
                edges_in_range(deps_view(deps)),
                forall|u: int, i: int|
                    0 <= u < adj.len() && 0 <= i < adj[u].len() ==> (#[trigger] adj[u][i]) < n,
                forall|w: int, kk: int|
                    0 <= w < v && 0 <= kk < deps[w].len() ==> (#[trigger] adj[deps[w][kk] as int])@.contains(
                        w as usize,
                    ),
                forall|kk: int|
                    0 <= kk < k ==> (#[trigger] adj[row[kk] as int])@.contains(v),
            decreases row.len() - k,
        {
            let d = row[k];
            assert(deps_view(deps)[v as int][k as int] == d);
            let ghost before = adj@;
            adj[d].push(v);
            proof {
                assert forall|u: int| 0 <= u < adj.len() && u != d implies adj[u] == before[u] by {}
                assert forall|u: int, x: usize| 0 <= u < adj.len() && before[u]@.contains(x) implies adj[u]@.contains(x) by {
                    if u == d {
                        let i = choose|i: int| 0 <= i < before[u]@.len() && before[u]@[i] == x;
                        assert(adj[u]@[i] == x);
                    }
                }
                assert(adj[d as int]@[adj[d as int]@.len() - 1] == v);
                assert forall|w: int, kk: int|
                    0 <= w < v && 0 <= kk < deps[w].len() implies (#[trigger] adj[deps[w][kk] as int])@.contains(
                        w as usize,
                    ) by {
                    assert(deps_view(deps)[w][kk] < n);
                    assert(before[deps[w][kk] as int]@.contains(w as usize));
                }
                assert forall|kk: int| 0 <= kk <= k implies (#[trigger] adj[row[kk] as int])@.contains(v) by {
                    assert(deps_view(deps)[v as int][kk] < n);
                    if kk < k {
                        assert(before[row[kk] as int]@.contains(v));
                    }
                }
            }
            k += 1;
        }
        v += 1;
    }
    adj
}

/// Whether every job listed in `row` is marked in `done`.
fn needs_met(row: &Vec<usize>, done: &Vec<bool>) -> (r: bool)
    requires
        forall|k: int| 0 <= k < row.len() ==> (#[trigger] row[k]) < done.len(),
    ensures
        r == (forall|k: int| 0 <= k < row.len() ==> done@[#[trigger] row@[k] as int]),
{
    let mut k: usize = 0;
    while k < row.len()
        invariant
            k <= row.len(),
            forall|kk: int| 0 <= kk < row.len() ==> (#[trigger] row[kk]) < done.len(),
            forall|kk: int| 0 <= kk < k ==> done@[#[trigger] row@[kk] as int],
        decreases row.len() - k,
    {
        if !done[row[k]] {
            return false;
        }
        k += 1;
    }
    true
}

/// Orders the jobs of a dependency graph so that each comes after all the jobs it
/// needs (Kahn's algorithm: a job joins the worklist once every job it needs has
/// left it). `None` when no such order exists, that is when the graph has a cycle.
pub fn order_indices(deps: &Vec<Vec<usize>>) -> (r: Option<Vec<usize>>)
    requires
        edges_in_range(deps_view(deps)),
    ensures
        match r {
            Some(order) => is_topological_order(deps_view(deps), order@),
            None => has_cycle(deps_view(deps)),
        },
        r is Some <==> !has_cycle(deps_view(deps)),
{
    let ghost g = deps_view(deps);
    let n = deps.len();
    let adj = dependents(deps);
    let mut done: Vec<bool> = Vec::new();
    let mut enq: Vec<bool> = Vec::new();
    while done.len() < n
        invariant
            done.len() == enq.len() <= n,
            forall|j: int| 0 <= j < done.len() ==> !(#[trigger] done[j]),
            forall|j: int| 0 <= j < enq.len() ==> !(#[trigger] enq[j]),
        decreases n - done.len(),
    {
        done.push(false);
        enq.push(false);
    }
    let mut order: Vec<usize> = Vec::new();
    let mut v: usize = 0;
    while v < n
        invariant
            g == deps_view(deps),
            n == g.len(),
            edges_in_range(g),
            done.len() == n,
            enq.len() == n,
            v <= n,
            order.len() <= n,
            order@.no_duplicates(),
            forall|b: int| 0 <= b < order.len() ==> (#[trigger] order[b]) < n,
            forall|j: int| 0 <= j < n ==> !(#[trigger] done[j]),
            forall|j: int| 0 <= j < n ==> (#[trigger] enq[j] <==> order@.contains(j as usize)),
            forall|j: int| v <= j < n ==> !(#[trigger] enq[j]),
            forall|j: int| 0 <= j < v && !(#[trigger] enq[j]) ==> !all_marked(g, j, done@),
            deps_before(g, order@),
        decreases n - v,
    {
        assert(forall|k: int| 0 <= k < deps[v as int].len() ==> (#[trigger] deps[v as int][k]) == g[v as int][k]);
        if needs_met(&deps[v], &done) {
            proof {
                assert(g[v as int].len() == 0) by {
                    if g[v as int].len() > 0 {
                        assert(done@[g[v as int][0] as int]);
                    }
                }
                lemma_push_keeps_deps_before(g, order@, 0, v);
                assert(!enq[v as int]);
                assert(!order@.contains(v));
                lemma_push_fresh(order@, v);
                lemma_distinct_indices_len(order@.push(v), n);
            }
            order.push(v);
            enq.set(v, true);
        }
        v += 1;
    }
    let mut head: usize = 0;
    while head < order.len()
        invariant
            g == deps_view(deps),
            n == g.len(),
            edges_in_range(g),
            adj.len() == n,
            forall|u: int, i: int|
                0 <= u < adj.len() && 0 <= i < adj[u].len() ==> (#[trigger] adj[u][i]) < n,
            forall|w: int, k: int|
                0 <= w < n && 0 <= k < g[w].len() ==> (#[trigger] adj[g[w][k] as int])@.contains(
                    w as usize,
                ),
            done.len() == n,
            enq.len() == n,
            head <= order.len() <= n,
            order@.no_duplicates(),
            forall|b: int| 0 <= b < order.len() ==> (#[trigger] order[b]) < n,
            forall|j: int| 0 <= j < n ==> (#[trigger] done[j] <==> order@.take(head as int).contains(j as usize)),
            forall|j: int| 0 <= j < n ==> (#[trigger] enq[j] <==> order@.contains(j as usize)),
            forall|j: int| 0 <= j < n && !(#[trigger] enq[j]) ==> !all_marked(g, j, done@),
            deps_before(g, order@),
        decreases n - head,
    {
        let u = order[head];
        let ghost old_done = done@;
        let ghost h0 = head as int;
        done.set(u, true);
        head += 1;
        proof {
            assert(order@.take(head as int)[h0] == u);
            assert forall|j: int| 0 <= j < n implies (#[trigger] done[j] <==> order@.take(head as int).contains(j as usize)) by {
                if old_done[j] {
                    let a = choose|a: int| 0 <= a < h0 && order@.take(h0)[a] == j as usize;
                    assert(order@.take(head as int)[a] == j as usize);
                }
                if order@.take(head as int).contains(j as usize) {
                    let a = choose|a: int| 0 <= a < head && order@.take(head as int)[a] == j as usize;
                    if a < h0 {
                        assert(order@.take(h0)[a] == j as usize);
                    }
                }
            }
        }
        let succ = &adj[u];
        let mut i: usize = 0;
        while i < succ.len()
            invariant
                g == deps_view(deps),
                n == g.len(),
                edges_in_range(g),
                u < adj.len(),
                succ == adj[u as int],
                forall|ii: int| 0 <= ii < succ.len() ==> (#[trigger] succ[ii]) < n,
                done.len() == n,
                enq.len() == n,
                i <= succ.len(),
                head <= order.len() <= n,
                order@.no_duplicates(),
                forall|b: int| 0 <= b < order.len() ==> (#[trigger] order[b]) < n,
                forall|j: int| 0 <= j < n ==> (#[trigger] done[j] <==> order@.take(head as int).contains(j as usize)),
                forall|j: int| 0 <= j < n ==> (#[trigger] enq[j] <==> order@.contains(j as usize)),
                forall|j: int|
                    0 <= j < n && !(#[trigger] enq[j]) ==> !all_marked(g, j, done@) || exists|ii: int|
                        i <= ii < succ.len() && succ[ii] == j as usize,
                deps_before(g, order@),
            decreases succ.len() - i,
        {
            let w = succ[i];
            assert(forall|k: int| 0 <= k < deps[w as int].len() ==> (#[trigger] deps[w as int][k]) == g[w as int][k]);
            if !enq[w] && needs_met(&deps[w], &done) {
                proof {
                    assert forall|k: int| 0 <= k < g[w as int].len() implies order@.take(head as int).contains(#[trigger] g[w as int][k]) by {
                        assert(done[g[w as int][k] as int]);
                    }
                    lemma_push_keeps_deps_before(g, order@, head as int, w);
                    lemma_push_fresh(order@, w);
                    lemma_distinct_indices_len(order@.push(w), n);
                    assert(order@.push(w).take(head as int) =~= order@.take(head as int));
                }
                order.push(w);
                enq.set(w, true);
            }
            i += 1;
        }
    }
    let ghost o = order@;
    proof {
        assert(o.take(head as int) =~= o);
    }
    if order.len() == n {
        proof {
            lemma_distinct_indices_len(o, n);
            lemma_order_excludes_cycle(g, o);
        }
        Some(order)
    } else {
        proof {
            lemma_distinct_indices_len(o, n);
            let s = Set::new(|j: int| 0 <= j < n && !enq@[j]);
            assert forall|j: int| #[trigger] member(s, j) implies 0 <= j < g.len() && exists|k: int|
                0 <= k < g[j].len() && s.contains(g[j][k] as int) by {
                assert(!all_marked(g, j, done@));
                let k = choose|k: int| 0 <= k < g[j].len() && !done@[#[trigger] g[j][k] as int];
                assert(s.contains(g[j][k] as int));
            }
            let j0 = choose|j: usize| j < n && !o.contains(j);
            assert(s.contains(j0 as int));
            assert(is_stuck_set(g, s));
        }
        None
    }
}

} // verus!
