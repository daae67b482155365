//! Topological ordering of a finite directed graph, with cycle detection.
use vstd::prelude::*;

verus! {

/// Every edge joins two of the nodes `0..n`.
pub open spec fn edges_in_range(n: nat, edges: Seq<(usize, usize)>) -> bool {
    forall|k: int| 0 <= k < edges.len() ==> (#[trigger] edges[k]).0 < n && edges[k].1 < n
}

/// `o` lists each of the nodes `0..n` once, and every edge goes from an
/// earlier to a later position.
pub open spec fn is_topo_order(n: nat, edges: Seq<(usize, usize)>, o: Seq<usize>) -> bool {
    &&& o.len() == n
    &&& o.no_duplicates()
    &&& forall|i: int| 0 <= i < n ==> #[trigger] o[i] < n
    &&& forall|k: int, i: int, j: int|
        0 <= k < edges.len() && 0 <= i < n && 0 <= j < n && #[trigger] edges[k] == (
            #[trigger] o[i],
            #[trigger] o[j],
        ) ==> i < j
}

/// The graph has no cycle: some order of its nodes respects every edge.
pub open spec fn acyclic(n: nat, edges: Seq<(usize, usize)>) -> bool {
    exists|o: Seq<usize>| is_topo_order(n, edges, o)
}

/// Number of `true` entries.
pub open spec fn count_true(s: Seq<bool>) -> nat
    decreases s.len(),
{
    if s.len() == 0 {
        0
    } else {
        count_true(s.drop_last()) + if s.last() {
            1nat
        } else {
            0nat
        }
    }
}

proof fn lemma_count_true_update(s: Seq<bool>, v: int)
    requires
        0 <= v < s.len(),
        !s[v],
    ensures
        count_true(s.update(v, true)) == count_true(s) + 1,
    decreases s.len(),
{
    let t = s.update(v, true);
    if v == s.len() - 1 {
        assert(t.drop_last() =~= s.drop_last());
    } else {
        assert(t.drop_last() =~= s.drop_last().update(v, true));
        lemma_count_true_update(s.drop_last(), v);
    }
}

proof fn lemma_count_true_bound(s: Seq<bool>)
    ensures
        count_true(s) <= s.len(),
        count_true(s) == s.len() ==> forall|i: int| 0 <= i < s.len() ==> #[trigger] s[i],
        (forall|i: int| 0 <= i < s.len() ==> #[trigger] s[i]) ==> count_true(s) == s.len(),
    decreases s.len(),
{
    if s.len() > 0 {
        lemma_count_true_bound(s.drop_last());
        if forall|i: int| 0 <= i < s.len() ==> #[trigger] s[i] {
            assert forall|i: int| 0 <= i < s.drop_last().len() implies #[trigger] s.drop_last()[i] by {
                assert(s[i]);
            }
            assert(s.last());
        }
        assert forall|i: int| 0 <= i < s.len() && count_true(s) == s.len() implies #[trigger] s[i] by {
            if i < s.len() - 1 {
                assert(s.drop_last()[i] == s[i]);
            }
        }
    }
}

proof fn lemma_count_false_all(n: nat)
    ensures
        count_true(Seq::new(n, |i: int| false)) == 0,
    decreases n,
{
    if n > 0 {
        assert(Seq::new(n, |i: int| false).drop_last() =~= Seq::new((n - 1) as nat, |i: int| false));
        lemma_count_false_all((n - 1) as nat);
    }
}

/// Where every node outside `emitted` has a predecessor outside `emitted`,
/// and some node is outside it, no order respects every edge.
proof fn lemma_stuck_not_acyclic(n: nat, edges: Seq<(usize, usize)>, emitted: Seq<bool>, v: int)
    requires
        n <= usize::MAX,
        emitted.len() == n,
        0 <= v < n,
        !emitted[v],
        forall|w: int|
            0 <= w < n && !#[trigger] emitted[w] ==> exists|k: int|
                0 <= k < edges.len() && (#[trigger] edges[k]).1 == w && !emitted[edges[k].0 as int],
        edges_in_range(n, edges),
    ensures
        !acyclic(n, edges),
{
    if acyclic(n, edges) {
        let o = choose|o: Seq<usize>| is_topo_order(n, edges, o);
        lemma_prefix_emitted(n, edges, emitted, o, n as int);
        assert(o.contains(v as usize)) by {
            lemma_perm_contains(n, o, v);
        }
        let j = choose|j: int| 0 <= j < o.len() && o[j] == v as usize;
        assert(emitted[o[j] as int]);
    }
}

/// Under the hypotheses of `lemma_stuck_not_acyclic`, the first `m` nodes of
/// a topological order all lie in `emitted`.
proof fn lemma_prefix_emitted(
    n: nat,
    edges: Seq<(usize, usize)>,
    emitted: Seq<bool>,
    o: Seq<usize>,
    m: int,
)
    requires
        n <= usize::MAX,
        0 <= m <= n,
        is_topo_order(n, edges, o),
        emitted.len() == n,
        edges_in_range(n, edges),
        forall|w: int|
            0 <= w < n && !#[trigger] emitted[w] ==> exists|k: int|
                0 <= k < edges.len() && (#[trigger] edges[k]).1 == w && !emitted[edges[k].0 as int],
    ensures
        forall|i: int| 0 <= i < m ==> emitted[#[trigger] o[i] as int],
    decreases m,
{
    if m > 0 {
        lemma_prefix_emitted(n, edges, emitted, o, m - 1);
        let w = o[m - 1] as int;
        if !emitted[w] {
            let k = choose|k: int|
                0 <= k < edges.len() && (#[trigger] edges[k]).1 == w && !emitted[edges[k].0 as int];
            let u = edges[k].0;
            assert(o.contains(u)) by {
                lemma_perm_contains(n, o, u as int);
            }
            let j = choose|j: int| 0 <= j < o.len() && o[j] == u;
            assert(edges[k] == (o[j], o[m - 1]));
            assert(j < m - 1);
            assert(false);
        }
    }
}

/// A duplicate-free sequence of `n` nodes below `n` holds every node.
proof fn lemma_perm_contains(n: nat, o: Seq<usize>, v: int)
    requires
        n <= usize::MAX,
        o.len() == n,
        o.no_duplicates(),
        forall|i: int| 0 <= i < n ==> #[trigger] o[i] < n,
        0 <= v < n,
    ensures
        o.contains(v as usize),
{
    if !o.contains(v as usize) {
        // o maps 0..n injectively into 0..n minus v
        let s = o.to_set();
        o.unique_seq_to_set();
        let r = Set::new(|x: usize| x < n && x != v as usize);
        assert(s.subset_of(r));
        let full = Set::new(|x: usize| x < n);
        lemma_usize_range_len(n);
        assert(r =~= full.remove(v as usize));
        vstd::set_lib::lemma_len_subset(s, r);
    }
}

/// A cycle of same-instant edges (each node of `cycle` has an edge to the
/// next, and the last one to the first) leaves the graph without any
/// topological order, so its assembly is rejected.
pub proof fn lemma_cycle_not_acyclic(n: nat, edges: Seq<(usize, usize)>, cycle: Seq<usize>)
    requires
        n <= usize::MAX,
        cycle.len() >= 1,
        forall|i: int| 0 <= i < cycle.len() ==> #[trigger] cycle[i] < n,
        forall|i: int| 0 <= i < cycle.len() - 1 ==> edges.contains((cycle[i], #[trigger] cycle[i + 1])),
        edges.contains((cycle[cycle.len() - 1], cycle[0])),
    ensures
        !acyclic(n, edges),
{
    if acyclic(n, edges) {
        let o = choose|o: Seq<usize>| is_topo_order(n, edges, o);
        let m = cycle.len() as int;
        assert forall|i: int| 0 <= i < m implies exists|j: int| 0 <= j < n && o[j] == #[trigger] cycle[i] by {
            lemma_order_contains(n, edges, o, cycle[i] as int);
        }
        let pos = |x: usize| choose|j: int| 0 <= j < n && o[j] == x;
        assert forall|i: int| 0 <= i < m implies 0 <= #[trigger] pos(cycle[i]) < n
            && o[pos(cycle[i])] == cycle[i] by {
            assert(exists|j: int| 0 <= j < n && o[j] == cycle[i]);
        }
        lemma_cycle_positions(n, edges, cycle, o, pos, m - 1);
        let k = choose|k: int| 0 <= k < edges.len() && edges[k] == (cycle[m - 1], cycle[0]);
        assert(0 <= pos(cycle[m - 1]) < n && o[pos(cycle[m - 1])] == cycle[m - 1]);
        assert(0 <= pos(cycle[0]) < n && o[pos(cycle[0])] == cycle[0]);
        assert(edges[k] == (o[pos(cycle[m - 1])], o[pos(cycle[0])]));
        assert(pos(cycle[m - 1]) < pos(cycle[0]));
    }
}

proof fn lemma_cycle_positions(
    n: nat,
    edges: Seq<(usize, usize)>,
    cycle: Seq<usize>,
    o: Seq<usize>,
    pos: spec_fn(usize) -> int,
    i: int,
)
    requires
        is_topo_order(n, edges, o),
        0 <= i < cycle.len(),
        forall|x: int| 0 <= x < cycle.len() - 1 ==> edges.contains((cycle[x], #[trigger] cycle[x + 1])),
        forall|x: int| 0 <= x < cycle.len() ==> 0 <= #[trigger] pos(cycle[x]) < n
            && o[pos(cycle[x])] == cycle[x],
    ensures
        pos(cycle[0]) <= pos(cycle[i]),
    decreases i,
{
    if i > 0 {
        lemma_cycle_positions(n, edges, cycle, o, pos, i - 1);
        let x = i - 1;
        assert(edges.contains((cycle[x], cycle[x + 1])));
        assert(x + 1 == i);
        let k = choose|k: int| 0 <= k < edges.len() && edges[k] == (cycle[x], cycle[x + 1]);
        assert(0 <= pos(cycle[x]) < n && o[pos(cycle[x])] == cycle[x]);
        assert(0 <= pos(cycle[i]) < n && o[pos(cycle[i])] == cycle[i]);
        assert(edges[k] == (o[pos(cycle[x])], o[pos(cycle[i])]));
    }
}

/// A topological order lists every node.
pub proof fn lemma_order_contains(n: nat, edges: Seq<(usize, usize)>, o: Seq<usize>, x: int)
    requires
        n <= usize::MAX,
        is_topo_order(n, edges, o),
        0 <= x < n,
    ensures
        exists|j: int| 0 <= j < n && o[j] == x,
{
    lemma_perm_contains(n, o, x);
    let j = choose|j: int| 0 <= j < o.len() && o[j] == x as usize;
    assert(o[j] == x);
}

proof fn lemma_usize_range_len(n: nat)
    requires
        n <= usize::MAX + 1,
    ensures
        Set::new(|x: usize| x < n).finite(),
        Set::new(|x: usize| x < n).len() == n,
    decreases n,
{
    if n == 0 {
        assert(Set::new(|x: usize| x < n) =~= Set::empty());
    } else {
        lemma_usize_range_len((n - 1) as nat);
        assert(Set::new(|x: usize| x < n) =~= Set::new(|x: usize| x < (n - 1) as nat).insert(
            (n - 1) as usize,
        ));
    }
}

/// `c` is a cycle: each of its nodes has an edge to the next, and the last
/// one to the first.
pub open spec fn is_cycle(n: nat, edges: Seq<(usize, usize)>, c: Seq<usize>) -> bool {
    &&& c.len() >= 1
    &&& forall|i: int| 0 <= i < c.len() ==> #[trigger] c[i] < n
    &&& forall|i: int| #![trigger c[i], c[i + 1]] 0 <= i < c.len() - 1 ==> edges.contains((c[i], c[i + 1]))
    &&& edges.contains((c[c.len() - 1], c[0]))
}

/// Node `x` lies on a cycle.
pub open spec fn on_cycle(n: nat, edges: Seq<(usize, usize)>, x: usize) -> bool {
    exists|c: Seq<usize>| #[trigger] is_cycle(n, edges, c) && c[0] == x
}

/// A duplicate-free sequence of nodes below `n` has at most `n` entries.
proof fn lemma_nodup_len(n: nat, p: Seq<usize>)
    requires
        n <= usize::MAX,
        p.no_duplicates(),
        forall|i: int| 0 <= i < p.len() ==> #[trigger] p[i] < n,
    ensures
        p.len() <= n,
{
    p.unique_seq_to_set();
    lemma_usize_range_len(n);
    assert(p.to_set().subset_of(Set::new(|x: usize| x < n)));
    vstd::set_lib::lemma_len_subset(p.to_set(), Set::new(|x: usize| x < n));
}

/// A predecessor of `v` outside `emitted`.
fn find_pred(n: usize, edges: &Vec<(usize, usize)>, emitted: &Vec<bool>, v: usize) -> (r: Option<usize>)
    requires
        emitted@.len() == n,
        edges_in_range(n as nat, edges@),
    ensures
        r matches Some(u) ==> u < n && !emitted@[u as int] && edges@.contains((u, v)),
        r is None ==> forall|q: int|
            0 <= q < edges@.len() ==> !((#[trigger] edges@[q]).1 == v && !emitted@[edges@[q].0 as int]),
{
    let mut k: usize = 0;
    while k < edges.len()
        invariant
            k <= edges.len(),
            emitted@.len() == n,
            edges_in_range(n as nat, edges@),
            forall|q: int| 0 <= q < k ==> !((#[trigger] edges@[q]).1 == v && !emitted@[edges@[q].0 as int]),
        decreases edges.len() - k,
    {
        let (a, b) = edges[k];
        if b == v && !emitted[a] {
            proof {
                assert(edges@[k as int] == (a, b));
            }
            return Some(a);
        }
        k = k + 1;
    }
    None
}

/// A path walked back along edges (`p[j+1] -> p[j]`), whose last node has an
/// edge from `p[i]`, closes a cycle through `p[i]`.
proof fn lemma_path_cycle(n: nat, edges: Seq<(usize, usize)>, path: Seq<usize>, i: int)
    requires
        0 <= i < path.len(),
        forall|j: int| 0 <= j < path.len() ==> #[trigger] path[j] < n,
        forall|j: int| #![trigger path[j], path[j + 1]] 0 <= j < path.len() - 1
            ==> edges.contains((path[j + 1], path[j])),
        edges.contains((path[i], path[path.len() - 1])),
    ensures
        on_cycle(n, edges, path[i]),
{
    let m = path.len() - 1;
    let c = Seq::new((m - i + 1) as nat, |k: int| if k == 0 {
        path[i]
    } else {
        path[m - k + 1]
    });
    assert forall|j: int| #![trigger c[j], c[j + 1]] 0 <= j < c.len() - 1 implies edges.contains((c[j],
        c[j + 1])) by {
        if j == 0 {
            assert(c[1] == path[m]);
        } else {
            let q = m - j;
            assert(c[j] == path[q + 1]);
            assert(c[j + 1] == path[q]);
            assert(0 <= q < path.len() - 1);
        }
    }
    assert forall|j: int| 0 <= j < c.len() implies #[trigger] c[j] < n by {
        if j > 0 {
            assert(c[j] == path[m - j + 1]);
        }
    }
    if m > i {
        assert(c[c.len() - 1] == path[i + 1]);
        assert(edges.contains((path[i + 1], path[i])));
    }
    assert(is_cycle(n, edges, c));
}

/// Index of `u` in `p`.
fn index_of(p: &Vec<usize>, u: usize) -> (r: Option<usize>)
    ensures
        r matches Some(i) ==> i < p@.len() && p@[i as int] == u,
        r is None ==> forall|j: int| 0 <= j < p@.len() ==> p@[j] != u,
{
    let mut i: usize = 0;
    while i < p.len()
        invariant
            i <= p@.len(),
            forall|j: int| 0 <= j < i ==> p@[j] != u,
        decreases p.len() - i,
    {
        if p[i] == u {
            return Some(i);
        }
        i = i + 1;
    }
    None
}

/// Every node outside `emitted` has a predecessor outside `emitted`.
#[verifier::opaque]
pub open spec fn stuck(n: nat, edges: Seq<(usize, usize)>, emitted: Seq<bool>) -> bool {
    forall|v: int|
        0 <= v < n && !#[trigger] emitted[v] ==> exists|k: int|
            0 <= k < edges.len() && (#[trigger] edges[k]).1 == v && !emitted[edges[k].0 as int]
}

/// Walking back from `w` along predecessors outside `emitted`, finds a node
/// on a cycle among them.
fn find_cycle_node(n: usize, edges: &Vec<(usize, usize)>, emitted: &Vec<bool>, w: usize) -> (x: usize)
    requires
        emitted@.len() == n,
        w < n,
        !emitted@[w as int],
        edges_in_range(n as nat, edges@),
        stuck(n as nat, edges@, emitted@),
    ensures
        x < n,
        on_cycle(n as nat, edges@, x),
{
    let mut path: Vec<usize> = Vec::new();
    path.push(w);
    loop
        invariant
            emitted@.len() == n,
            edges_in_range(n as nat, edges@),
            stuck(n as nat, edges@, emitted@),
            path@.len() >= 1,
            path@.no_duplicates(),
            forall|j: int| 0 <= j < path@.len() ==> #[trigger] path@[j] < n && !emitted@[path@[j] as int],
            forall|j: int| #![trigger path@[j], path@[j + 1]]
                0 <= j < path@.len() - 1 ==> edges@.contains((path@[j + 1], path@[j])),
        decreases n - path@.len(),
    {
        proof {
            lemma_nodup_len(n as nat, path@);
        }
        let last = path[path.len() - 1];
        let u = match find_pred(n, edges, emitted, last) {
            Some(u) => u,
            None => {
                proof {
                    reveal(stuck);
                    assert(!emitted@[last as int]);
                    let q = choose|q: int|
                        0 <= q < edges@.len() && (#[trigger] edges@[q]).1 == last && !emitted@[edges@[q].0 as int];
                }
                return w;
            },
        };
        match index_of(&path, u) {
            Some(i) => {
                proof {
                    lemma_path_cycle(n as nat, edges@, path@, i as int);
                }
                return u;
            },
            None => {},
        }
        proof {
            let p0 = path@;
            assert forall|a: int, b: int| 0 <= a < b < p0.push(u).len() implies p0.push(u)[a] != p0.push(u)[b] by {
                if b == p0.len() {
                    assert(p0[a] != u);
                }
            }
        }
        let ghost old_path = path@;
        path.push(u);
        proof {
            assert(path@ == old_path.push(u));
            assert forall|j: int| #![trigger path@[j], path@[j + 1]]
                0 <= j < path@.len() - 1 implies edges@.contains((path@[j + 1], path@[j])) by {
                if j < old_path.len() - 1 {
                    assert(path@[j] == old_path[j] && path@[j + 1] == old_path[j + 1]);
                } else {
                    assert(path@[j] == last && path@[j + 1] == u);
                }
            }
            assert forall|j: int| 0 <= j < path@.len() implies #[trigger] path@[j] < n
                && !emitted@[path@[j] as int] by {
                if j < old_path.len() {
                    assert(path@[j] == old_path[j]);
                }
            }
            lemma_nodup_len(n as nat, path@);
        }
    }
}

/// Orders the nodes `0..n` so that every edge goes forward. Fails, naming a
/// node that lies on a cycle, exactly where the graph has a cycle.
pub fn topo_sort(n: usize, edges: &Vec<(usize, usize)>) -> (r: Result<Vec<usize>, usize>)
    requires
        edges_in_range(n as nat, edges@),
    ensures
        r is Ok <==> acyclic(n as nat, edges@),
        r matches Ok(o) ==> is_topo_order(n as nat, edges@, o@),
        r matches Err(v) ==> v < n && on_cycle(n as nat, edges@, v),
{
    let mut emitted: Vec<bool> = Vec::new();
    let mut pos: Vec<usize> = Vec::new();
    let mut i: usize = 0;
    while i < n
        invariant
            i <= n,
            emitted@ == Seq::new(i as nat, |j: int| false),
            pos.len() == i,
        decreases n - i,
    {
        emitted.push(false);
        pos.push(0);
        i = i + 1;
        proof {
            assert(emitted@ =~= Seq::new(i as nat, |j: int| false));
        }
    }
    proof {
        lemma_count_false_all(n as nat);
    }
    let mut order: Vec<usize> = Vec::new();
    while order.len() < n
        invariant
            edges_in_range(n as nat, edges@),
            emitted.len() == n,
            pos.len() == n,
            order.len() <= n,
            count_true(emitted@) == order.len(),
            forall|p: int| 0 <= p < order.len() ==> #[trigger] order[p] < n && emitted[order[p] as int]
                && pos[order[p] as int] == p,
            forall|w: int| 0 <= w < n && #[trigger] emitted[w] ==> pos[w] < order.len(),
            forall|k: int|
                0 <= k < edges.len() && emitted[(#[trigger] edges[k]).1 as int] ==> emitted[edges[k].0 as int]
                    && pos[edges[k].0 as int] < pos[edges[k].1 as int],
        decreases n - order.len(),
    {
        let ghost start = emitted@;
        let mut progress = false;
        let mut v: usize = 0;
        while v < n
            invariant
                edges_in_range(n as nat, edges@),
                v <= n,
                emitted.len() == n,
                pos.len() == n,
                order.len() <= n,
                count_true(emitted@) == order.len(),
                forall|p: int| 0 <= p < order.len() ==> #[trigger] order[p] < n && emitted[order[p] as int]
                    && pos[order[p] as int] == p,
                forall|w: int| 0 <= w < n && #[trigger] emitted[w] ==> pos[w] < order.len(),
                forall|k: int|
                    0 <= k < edges.len() && emitted[(#[trigger] edges[k]).1 as int]
                        ==> emitted[edges[k].0 as int]
                        && pos[edges[k].0 as int] < pos[edges[k].1 as int],
                !progress ==> emitted@ == start,
                progress ==> order.len() > count_true(start),
                count_true(start) <= order.len(),
                !progress ==> forall|w: int|
                    0 <= w < v && !#[trigger] emitted[w] ==> exists|k: int|
                        0 <= k < edges.len() && (#[trigger] edges[k]).1 == w && !emitted[edges[k].0 as int],
            decreases n - v,
        {
            if !emitted[v] {
                let mut ready = true;
                let mut k: usize = 0;
                while k < edges.len()
                    invariant
                        edges_in_range(n as nat, edges@),
                        v < n,
                        k <= edges.len(),
                        emitted.len() == n,
                        ready ==> forall|q: int|
                            0 <= q < k && (#[trigger] edges[q]).1 == v ==> emitted[edges[q].0 as int],
                        !ready ==> exists|q: int|
                            0 <= q < edges.len() && (#[trigger] edges[q]).1 == v
                                && !emitted[edges[q].0 as int],
                    decreases edges.len() - k,
                {
                    let (a, b) = edges[k];
                    if b == v && !emitted[a] {
                        ready = false;
                    }
                    k = k + 1;
                }
                if ready {
                    proof {
                        lemma_count_true_update(emitted@, v as int);
                        lemma_count_true_bound(emitted@);
                    }
                    let p = order.len();
                    emitted.set(v, true);
                    pos.set(v, p);
                    order.push(v);
                    progress = true;
                    proof {
                        assert forall|q: int|
                            0 <= q < edges.len()
                                && emitted[(#[trigger] edges[q]).1 as int] implies emitted[edges[q].0
                                as int] && pos[edges[q].0 as int] < pos[edges[q].1 as int] by {
                            if edges[q].1 == v {
                                assert(edges[q].0 != v);
                            }
                        }
                    }
                }
            }
            v = v + 1;
        }
        if !progress {
            proof {
                lemma_count_true_bound(emitted@);
            }
            let mut w: usize = 0;
            while w < n
                invariant
                    w <= n,
                    emitted.len() == n,
                    edges_in_range(n as nat, edges@),
                    forall|x: int| 0 <= x < w ==> #[trigger] emitted[x],
                    forall|x: int|
                        0 <= x < n && !#[trigger] emitted[x] ==> exists|k: int|
                            0 <= k < edges.len() && (#[trigger] edges[k]).1 == x
                                && !emitted[edges[k].0 as int],
                decreases n - w,
            {
                if !emitted[w] {
                    proof {
                        lemma_stuck_not_acyclic(n as nat, edges@, emitted@, w as int);
                    }
                    proof {
                        reveal(stuck);
                    }
                    let x = find_cycle_node(n, edges, &emitted, w);
                    return Err(x);
                }
                w = w + 1;
            }
            proof {
                lemma_count_true_bound(emitted@);
                assert(false);
            }
        }
    }
    proof {
        assert forall|x: int, y: int| 0 <= x < n && 0 <= y < n && x != y implies order[x] != order[y] by {
            if order[x] == order[y] {
                assert(pos[order[x] as int] == x);
            }
        }
        assert forall|k: int, x: int, y: int|
            0 <= k < edges.len() && 0 <= x < n && 0 <= y < n && #[trigger] edges@[k] == (
                #[trigger] order@[x],
                #[trigger] order@[y],
            ) implies x < y by {
            assert(emitted[order[y] as int]);
        }
        assert(is_topo_order(n as nat, edges@, order@));
    }
    Ok(order)
}

} // verus!
