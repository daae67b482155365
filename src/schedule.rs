//! The executable schedule: a topological order of all nodes of the
//! dependency graph, and for each trigger the positions (in that order) of
//! the reactions that setting it fires.
use crate::graph::{
    fires, instant_pair, lemma_collect_pairs_contains, node_in_range, node_number, DepEdge, DepGraph, DepNode,
    EdgeKind,
};
use crate::ids::{GlobalReactionId, TriggerId};
use crate::toposort::{acyclic, is_topo_order, topo_sort};
use vstd::prelude::*;

verus! {

/// Strictly increasing sequence.
pub open spec fn increasing(s: Seq<usize>) -> bool {
    forall|a: int, b: int| 0 <= a < b < s.len() ==> s[a] < s[b]
}

/// The graph, consumed into what the scheduler needs at run time.
pub struct Schedule {
    order: Vec<usize>,
    n_triggers: usize,
    reactions: Vec<GlobalReactionId>,
    pos: Vec<usize>,
    downstream: Vec<Vec<usize>>,
}

/// Boolean matrix with `rows` rows of `cols` entries.
pub open spec fn is_matrix(m: Seq<Vec<bool>>, rows: nat, cols: nat) -> bool {
    m.len() == rows && forall|t: int| 0 <= t < rows ==> (#[trigger] m[t])@.len() == cols
}

/// Entry `(t, i)` of `m` says whether reaction `i` fires on trigger `t`
/// within `fuel` forwarding steps.
pub open spec fn fires_matrix(
    m: Seq<Vec<bool>>,
    fwd: Seq<(usize, usize)>,
    trig: Seq<(usize, usize)>,
    rows: nat,
    cols: nat,
    fuel: nat,
) -> bool {
    is_matrix(m, rows, cols) && forall|t: int, i: int|
        0 <= t < rows && 0 <= i < cols ==> (#[trigger] m[t]@[i]) == fires(fwd, trig, t as usize,
            i as usize, fuel)
}

pub open spec fn fwd_in_range(fwd: Seq<(usize, usize)>, rows: nat) -> bool {
    forall|k: int| 0 <= k < fwd.len() ==> (#[trigger] fwd[k]).0 < rows && fwd[k].1 < rows
}

/// Once one more forwarding step changes nothing, no further step does.
proof fn lemma_fires_stable(
    fwd: Seq<(usize, usize)>,
    trig: Seq<(usize, usize)>,
    rows: nat,
    cols: nat,
    r: nat,
    m: nat,
)
    requires
        fwd_in_range(fwd, rows),
        r <= m,
        forall|t: usize, i: usize|
            t < rows && i < cols ==> fires(fwd, trig, t, i, r + 1) == #[trigger] fires(fwd, trig, t, i, r),
    ensures
        forall|t: usize, i: usize|
            t < rows && i < cols ==> fires(fwd, trig, t, i, m) == #[trigger] fires(fwd, trig, t, i, r),
    decreases m - r,
{
    if m > r {
        lemma_fires_stable(fwd, trig, rows, cols, r, (m - 1) as nat);
        assert forall|t: usize, i: usize| t < rows && i < cols implies fires(fwd, trig, t, i, m)
            == #[trigger] fires(fwd, trig, t, i, r) by {
            assert forall|k: int| 0 <= k < fwd.len() && (#[trigger] fwd[k]).0 == t implies fires(
                fwd,
                trig,
                fwd[k].1,
                i,
                (m - 1) as nat,
            ) == fires(fwd, trig, fwd[k].1, i, r) by {
                assert(fwd[k].1 < rows);
            }
            assert(fires(fwd, trig, t, i, m) == fires(fwd, trig, t, i, r + 1));
        }
    }
}

/// Row `t` of the direct trigger relation.
fn direct_row(t: usize, cols: usize, trig: &Vec<(usize, usize)>) -> (row: Vec<bool>)
    ensures
        row@.len() == cols,
        forall|i: int| 0 <= i < cols ==> (#[trigger] row@[i]) == trig@.contains((t, i as usize)),
{
    let mut row: Vec<bool> = Vec::new();
    let mut i: usize = 0;
    while i < cols
        invariant
            i <= cols,
            row@ == Seq::new(i as nat, |j: int| false),
        decreases cols - i,
    {
        row.push(false);
        i = i + 1;
        proof {
            assert(row@ =~= Seq::new(i as nat, |j: int| false));
        }
    }
    let mut k: usize = 0;
    while k < trig.len()
        invariant
            k <= trig.len(),
            row@.len() == cols,
            forall|i: int|
                0 <= i < cols ==> (#[trigger] row@[i]) == exists|j: int| 0 <= j < k
                    && trig@[j] == (t, i as usize),
        decreases trig.len() - k,
    {
        let (a, b) = trig[k];
        if a == t && b < cols {
            row.set(b, true);
        }
        proof {
            assert forall|i: int| 0 <= i < cols implies (#[trigger] row@[i]) == exists|j: int|
                0 <= j < k + 1 && trig@[j] == (t, i as usize) by {
                if trig@[k as int] == (t, i as usize) {
                    assert(exists|j: int| 0 <= j < k + 1 && trig@[j] == (t, i as usize));
                }
                if exists|j: int| 0 <= j < k + 1 && trig@[j] == (t, i as usize) {
                    let j = choose|j: int| 0 <= j < k + 1 && trig@[j] == (t, i as usize);
                    if j < k {
                    }
                }
            }
        }
        k = k + 1;
    }
    proof {
        assert forall|i: int| 0 <= i < cols implies (#[trigger] row@[i]) == trig@.contains((t,
            i as usize)) by {
            if trig@.contains((t, i as usize)) {
                let j = choose|j: int| 0 <= j < trig@.len() && trig@[j] == (t, i as usize);
            }
        }
    }
    row
}

/// One forwarding step: from the matrix for `fuel`, the one for `fuel + 1`.
fn step_matrix(
    rows: usize,
    cols: usize,
    fwd: &Vec<(usize, usize)>,
    trig: &Vec<(usize, usize)>,
    f: &Vec<Vec<bool>>,
    Ghost(fuel): Ghost<nat>,
) -> (g: Vec<Vec<bool>>)
    requires
        fwd_in_range(fwd@, rows as nat),
        fires_matrix(f@, fwd@, trig@, rows as nat, cols as nat, fuel),
    ensures
        fires_matrix(g@, fwd@, trig@, rows as nat, cols as nat, fuel + 1),
{
    let mut g: Vec<Vec<bool>> = Vec::new();
    let mut t: usize = 0;
    while t < rows
        invariant
            t <= rows,
            fwd_in_range(fwd@, rows as nat),
            fires_matrix(f@, fwd@, trig@, rows as nat, cols as nat, fuel),
            g.len() == t,
            forall|u: int| 0 <= u < t ==> (#[trigger] g@[u])@.len() == cols,
            forall|u: int, i: int|
                0 <= u < t && 0 <= i < cols ==> (#[trigger] g@[u]@[i]) == fires(
                    fwd@,
                    trig@,
                    u as usize,
                    i as usize,
                    fuel + 1,
                ),
        decreases rows - t,
    {
        let mut row = direct_row(t, cols, trig);
        let mut k: usize = 0;
        while k < fwd.len()
            invariant
                t < rows,
                k <= fwd.len(),
                fwd_in_range(fwd@, rows as nat),
                fires_matrix(f@, fwd@, trig@, rows as nat, cols as nat, fuel),
                row@.len() == cols,
                forall|i: int|
                    0 <= i < cols ==> (#[trigger] row@[i]) == (trig@.contains((t, i as usize))
                        || exists|j: int|
                        0 <= j < k && (#[trigger] fwd@[j]).0 == t && f@[fwd@[j].1 as int]@[i]),
            decreases fwd.len() - k,
        {
            let (a, b) = fwd[k];
            if a == t {
                let ghost before = row@;
                let mut i: usize = 0;
                while i < cols
                    invariant
                        b < rows,
                        i <= cols,
                        is_matrix(f@, rows as nat, cols as nat),
                        row@.len() == cols,
                        forall|x: int| 0 <= x < i ==> (#[trigger] row@[x]) == (before[x] || f@[b as int]@[x]),
                        forall|x: int| i <= x < cols ==> (#[trigger] row@[x]) == before[x],
                    decreases cols - i,
                {
                    if f[b][i] {
                        row.set(i, true);
                    }
                    i = i + 1;
                }
            }
            proof {
                assert forall|i: int| 0 <= i < cols implies (#[trigger] row@[i]) == (trig@.contains(
                    (t, i as usize),
                ) || exists|j: int| 0 <= j < k + 1 && (#[trigger] fwd@[j]).0 == t
                    && f@[fwd@[j].1 as int]@[i]) by {
                    if exists|j: int| 0 <= j < k + 1 && (#[trigger] fwd@[j]).0 == t
                        && f@[fwd@[j].1 as int]@[i] {
                        let j = choose|j: int|
                            0 <= j < k + 1 && (#[trigger] fwd@[j]).0 == t && f@[fwd@[j].1 as int]@[i];
                        if j < k {
                        }
                    }
                }
            }
            k = k + 1;
        }
        proof {
            assert forall|i: int| 0 <= i < cols implies (#[trigger] row@[i]) == fires(
                fwd@,
                trig@,
                t,
                i as usize,
                fuel + 1,
            ) by {
                if exists|j: int|
                    0 <= j < fwd@.len() && (#[trigger] fwd@[j]).0 == t && fires(fwd@, trig@,
                        fwd@[j].1, i as usize, fuel) {
                    let j = choose|j: int|
                        0 <= j < fwd@.len() && (#[trigger] fwd@[j]).0 == t && fires(fwd@, trig@,
                            fwd@[j].1, i as usize, fuel);
                    assert(f@[fwd@[j].1 as int]@[i]);
                }
                if exists|j: int| 0 <= j < fwd@.len() && (#[trigger] fwd@[j]).0 == t
                    && f@[fwd@[j].1 as int]@[i] {
                    let j = choose|j: int| 0 <= j < fwd@.len() && (#[trigger] fwd@[j]).0 == t
                        && f@[fwd@[j].1 as int]@[i];
                    assert(fires(fwd@, trig@, fwd@[j].1, i as usize, fuel));
                }
            }
        }
        g.push(row);
        t = t + 1;
    }
    g
}

fn same_matrix(a: &Vec<Vec<bool>>, b: &Vec<Vec<bool>>, rows: usize, cols: usize) -> (r: bool)
    requires
        is_matrix(a@, rows as nat, cols as nat),
        is_matrix(b@, rows as nat, cols as nat),
    ensures
        r == forall|t: int, i: int| 0 <= t < rows && 0 <= i < cols ==> #[trigger] a@[t]@[i] == b@[t]@[i],
{
    let mut t: usize = 0;
    while t < rows
        invariant
            t <= rows,
            is_matrix(a@, rows as nat, cols as nat),
            is_matrix(b@, rows as nat, cols as nat),
            forall|u: int, i: int| 0 <= u < t && 0 <= i < cols ==> #[trigger] a@[u]@[i] == b@[u]@[i],
        decreases rows - t,
    {
        let mut i: usize = 0;
        while i < cols
            invariant
                t < rows,
                i <= cols,
                is_matrix(a@, rows as nat, cols as nat),
                is_matrix(b@, rows as nat, cols as nat),
                forall|u: int, x: int| 0 <= u < t && 0 <= x < cols ==> #[trigger] a@[u]@[x] == b@[u]@[x],
                forall|x: int| 0 <= x < i ==> #[trigger] a@[t as int]@[x] == b@[t as int]@[x],
            decreases cols - i,
        {
            if a[t][i] != b[t][i] {
                return false;
            }
            i = i + 1;
        }
        t = t + 1;
    }
    true
}

/// The matrix of `fires` with as much fuel as there are forwarding edges.
fn fires_closure(rows: usize, cols: usize, fwd: &Vec<(usize, usize)>, trig: &Vec<(usize,
    usize)>) -> (m: Vec<Vec<bool>>)
    requires
        fwd_in_range(fwd@, rows as nat),
    ensures
        fires_matrix(m@, fwd@, trig@, rows as nat, cols as nat, fwd@.len()),
{
    let mut f: Vec<Vec<bool>> = Vec::new();
    let mut t: usize = 0;
    while t < rows
        invariant
            t <= rows,
            f.len() == t,
            forall|u: int| 0 <= u < t ==> (#[trigger] f@[u])@.len() == cols,
            forall|u: int, i: int|
                0 <= u < t && 0 <= i < cols ==> (#[trigger] f@[u]@[i]) == fires(fwd@, trig@,
                    u as usize, i as usize, 0),
        decreases rows - t,
    {
        let row = direct_row(t, cols, trig);
        f.push(row);
        t = t + 1;
    }
    let mut r: usize = 0;
    while r < fwd.len()
        invariant
            r <= fwd.len(),
            fwd_in_range(fwd@, rows as nat),
            fires_matrix(f@, fwd@, trig@, rows as nat, cols as nat, r as nat),
        decreases fwd.len() - r,
    {
        let g = step_matrix(rows, cols, fwd, trig, &f, Ghost(r as nat));
        if same_matrix(&g, &f, rows, cols) {
            proof {
                assert forall|t: usize, i: usize| t < rows && i < cols implies fires(fwd@, trig@,
                    t, i, (r + 1) as nat)
                    == #[trigger] fires(fwd@, trig@, t, i, r as nat) by {
                    assert(g@[t as int]@[i as int] == f@[t as int]@[i as int]);
                }
                lemma_fires_stable(fwd@, trig@, rows as nat, cols as nat, r as nat, fwd@.len());
                assert forall|t: int, i: int| 0 <= t < rows && 0 <= i < cols implies (#[trigger] f@[t]@[i])
                    == fires(fwd@, trig@, t as usize, i as usize, fwd@.len()) by {
                    assert(fires(fwd@, trig@, t as usize, i as usize, fwd@.len()) == fires(fwd@,
                        trig@, t as usize, i as usize, r as nat));
                }
            }
            return f;
        }
        f = g;
        r = r + 1;
    }
    f
}

/// Every same-instant edge goes forward in a topological order of the
/// graph; in particular a reaction that takes precedence over another (a
/// priority edge, declaration order within one reactor) comes first, and a
/// wave, which runs pending reactions by increasing position, runs it first.
pub proof fn lemma_instant_edge_forward(g: DepGraph, o: Seq<usize>, k: int, a: int, b: int)
    requires
        g.wf(),
        is_topo_order(g.n_nodes(), g.instant_edges(), o),
        0 <= k < g.spec_edges().len(),
        g.spec_edges()[k].kind != EdgeKind::Triggers,
        0 <= a < g.n_nodes(),
        0 <= b < g.n_nodes(),
        o[a] == node_number(g.spec_triggers().len(), g.spec_edges()[k].from),
        o[b] == node_number(g.spec_triggers().len(), g.spec_edges()[k].to),
    ensures
        a < b,
{
    let f = |e: DepEdge| instant_pair(g.spec_triggers(), e);
    lemma_collect_pairs_contains(g.spec_edges(), f, k);
    let pair = f(g.spec_edges()[k])->Some_0;
    assert(g.instant_edges().contains(pair));
    let j = choose|j: int| 0 <= j < g.instant_edges().len() && g.instant_edges()[j] == pair;
    assert(g.instant_edges()[j] == (o[a], o[b]));
}

impl Schedule {
    pub closed spec fn spec_order(&self) -> Seq<usize> {
        self.order@
    }

    pub closed spec fn spec_n_triggers(&self) -> nat {
        self.n_triggers as nat
    }

    pub closed spec fn spec_reactions(&self) -> Seq<GlobalReactionId> {
        self.reactions@
    }

    /// Positions of the reactions that setting trigger `t` fires.
    pub closed spec fn spec_downstream(&self, t: int) -> Seq<usize> {
        self.downstream@[t]@
    }

    /// A well-formed schedule holds the startup trigger and at most as many
    /// triggers as their ids can number.
    pub proof fn lemma_trigger_count(&self)
        requires
            self.wf(),
        ensures
            1 <= self.spec_n_triggers() <= u32::MAX,
    {
    }

    pub open spec fn node_count(&self) -> nat {
        self.spec_n_triggers() + self.spec_reactions().len()
    }

    /// Position `p` holds a reaction.
    pub open spec fn is_reaction_position(&self, p: int) -> bool {
        0 <= p < self.node_count() && self.spec_order()[p] >= self.spec_n_triggers()
    }

    /// The reaction at position `p`.
    pub open spec fn reaction_at_position(&self, p: int) -> GlobalReactionId {
        self.spec_reactions()[self.spec_order()[p] - self.spec_n_triggers()]
    }

    pub closed spec fn spec_position(&self, node: int) -> usize {
        self.pos@[node]
    }

    pub closed spec fn wf(&self) -> bool {
        &&& self.order.len() == self.n_triggers + self.reactions.len()
        &&& self.pos.len() == self.order.len()
        &&& self.downstream.len() == self.n_triggers
        &&& 1 <= self.n_triggers <= u32::MAX
        &&& self.order@.no_duplicates()
        &&& forall|i: int| 0 <= i < self.order.len() ==> #[trigger] self.order@[i] < self.order.len()
        &&& forall|i: int| 0 <= i < self.order.len() ==> self.pos@[#[trigger] self.order@[i] as int] == i
        &&& forall|x: int| 0 <= x < self.order.len()
            ==> #[trigger] self.pos@[x] < self.order.len() && self.order@[self.pos@[x] as int] == x
        &&& forall|t: int| 0 <= t < self.n_triggers ==> increasing(#[trigger] self.downstream@[t]@)
        &&& forall|t: int, j: int|
            0 <= t < self.n_triggers && 0 <= j < self.downstream@[t]@.len() ==> self.is_reaction_position(
                #[trigger] self.downstream@[t]@[j] as int,
            )
    }

    /// Consumes the graph into a schedule. Fails, naming a node on a cycle,
    /// exactly where the same-instant edges close a cycle.
    pub fn from_graph(g: &DepGraph) -> (r: Result<Schedule, DepNode>)
        requires
            g.wf(),
        ensures
            r is Ok <==> acyclic(g.n_nodes(), g.instant_edges()),
            r matches Err(x) ==> node_in_range(g.spec_triggers().len(), g.spec_reactions().len(), x),
            r matches Err(x) ==> crate::toposort::on_cycle(
                g.n_nodes(),
                g.instant_edges(),
                node_number(g.spec_triggers().len(), x) as usize,
            ),
            r matches Ok(s) ==> {
                &&& s.wf()
                &&& s.spec_n_triggers() == g.spec_triggers().len()
                &&& s.spec_reactions() == g.spec_reactions()
                &&& is_topo_order(g.n_nodes(), g.instant_edges(), s.spec_order())
                &&& forall|x: int| 0 <= x < g.n_nodes()
                    ==> s.spec_order()[#[trigger] s.spec_position(x) as int] == x
                &&& forall|t: int, p: int|
                    0 <= t < g.spec_triggers().len()
                        ==> (#[trigger] s.spec_downstream(t).contains(p as usize) && 0 <= p
                        <= usize::MAX <==> s.is_reaction_position(p) && fires(
                        g.forward_edges(),
                        g.trigger_edges(),
                        t as usize,
                        (s.spec_order()[p] - g.spec_triggers().len()) as usize,
                        g.forward_edges().len(),
                    ))
            },
    {
        let nt = g.trigger_count();
        let nr = g.reaction_count();
        let n = nt + nr;
        let ie = g.instant_edge_list();
        let order = match topo_sort(n, &ie) {
            Err(v) => {
                if v < nt {
                    return Err(DepNode::Trigger(v));
                } else {
                    return Err(DepNode::Reaction(v - nt));
                }
            },
            Ok(o) => o,
        };
        let mut pos: Vec<usize> = Vec::new();
        let mut i: usize = 0;
        while i < n
            invariant
                i <= n,
                pos.len() == i,
            decreases n - i,
        {
            pos.push(0);
            i = i + 1;
        }
        let mut i: usize = 0;
        while i < n
            invariant
                i <= n,
                pos.len() == n,
                is_topo_order(n as nat, ie@, order@),
                forall|j: int| 0 <= j < i ==> pos@[#[trigger] order@[j] as int] == j,
            decreases n - i,
        {
            let v = order[i];
            pos.set(v, i);
            proof {
                assert forall|j: int| 0 <= j < i + 1 implies pos@[#[trigger] order@[j] as int] == j by {
                    if j < i {
                        assert(order@[j] != order@[i as int]);
                    }
                }
            }
            i = i + 1;
        }
        proof {
            assert forall|x: int| 0 <= x < n implies #[trigger] pos@[x] < n
                && order@[pos@[x] as int] == x by {
                crate::toposort::lemma_order_contains(n as nat, ie@, order@, x);
                let j = choose|j: int| 0 <= j < n && order@[j] == x;
                assert(pos@[order@[j] as int] == j);
            }
        }
        let fwd = g.forward_edge_list();
        let trig = g.trigger_edge_list();
        let m = fires_closure(nt, nr, &fwd, &trig);
        let mut downstream: Vec<Vec<usize>> = Vec::new();
        let mut t: usize = 0;
        while t < nt
            invariant
                t <= nt,
                n == nt + nr,
                is_topo_order(n as nat, ie@, order@),
                fires_matrix(m@, fwd@, trig@, nt as nat, nr as nat, fwd@.len()),
                downstream.len() == t,
                forall|u: int| 0 <= u < t ==> increasing(#[trigger] downstream@[u]@),
                forall|u: int, j: int|
                    0 <= u < t && 0 <= j < downstream@[u]@.len() ==> #[trigger] downstream@[u]@[j] < n
                        && order@[downstream@[u]@[j] as int] >= nt,
                forall|u: int, p: int|
                    0 <= u < t ==> (#[trigger] downstream@[u]@.contains(p as usize)
                        && 0 <= p <= usize::MAX <==> 0
                        <= p < n && order@[p] >= nt && m@[u]@[order@[p] - nt]),
            decreases nt - t,
        {
            let mut list: Vec<usize> = Vec::new();
            let mut p: usize = 0;
            while p < n
                invariant
                    t < nt,
                    p <= n,
                    n == nt + nr,
                    is_topo_order(n as nat, ie@, order@),
                    is_matrix(m@, nt as nat, nr as nat),
                    increasing(list@),
                    forall|j: int| 0 <= j < list.len() ==> #[trigger] list@[j] < p
                        && order@[list@[j] as int] >= nt,
                    forall|q: int|
                        #[trigger] list@.contains(q as usize) && 0 <= q <= usize::MAX
                            <==> 0 <= q < p && order@[q] >= nt
                            && m@[t as int]@[order@[q] - nt],
                decreases n - p,
            {
                let v = order[p];
                if v >= nt && m[t][v - nt] {
                    proof {
                        assert forall|q: int|
                            #[trigger] list@.push(p).contains(q as usize)
                                && 0 <= q <= usize::MAX <==> 0 <= q < p + 1
                                && order@[q] >= nt && m@[t as int]@[order@[q] - nt] by {
                            if q == p {
                                assert(list@.push(p)[list@.len() as int] == p);
                            }
                            if list@.push(p).contains(q as usize) && q != p && 0 <= q <= usize::MAX {
                                let j = choose|j: int| 0 <= j < list@.push(p).len()
                                    && list@.push(p)[j] == q as usize;
                                assert(list@.contains(q as usize)) by {
                                    assert(list@[j] == q as usize);
                                }
                            }
                            if 0 <= q < p {
                                if list@.contains(q as usize) {
                                    let j = choose|j: int| 0 <= j < list@.len() && list@[j] == q as usize;
                                    assert(list@.push(p)[j] == q as usize);
                                }
                            }
                        }
                    }
                    list.push(p);
                } else {
                    proof {
                        assert forall|q: int|
                            #[trigger] list@.contains(q as usize) && 0 <= q <= usize::MAX <==> 0 <= q < p + 1
                                && order@[q] >= nt && m@[t as int]@[order@[q] - nt] by {
                            if list@.contains(q as usize) && 0 <= q <= usize::MAX {
                                let j = choose|j: int| 0 <= j < list@.len() && list@[j] == q as usize;
                                assert(list@[j] < p);
                            }
                        }
                    }
                }
                p = p + 1;
            }
            downstream.push(list);
            t = t + 1;
        }
        let s = Schedule { order, n_triggers: nt, reactions: g.reaction_list(), pos, downstream };
        proof {
            assert forall|t: int, p: int|
                0 <= t < nt implies (#[trigger] s.spec_downstream(t).contains(p as usize)
                    && 0 <= p <= usize::MAX
                    <==> s.is_reaction_position(p) && fires(
                    g.forward_edges(),
                    g.trigger_edges(),
                    t as usize,
                    (s.spec_order()[p] - nt) as usize,
                    g.forward_edges().len(),
                )) by {
                if 0 <= p < n && order@[p] >= nt {
                    assert(m@[t]@[order@[p] - nt] == fires(
                        fwd@,
                        trig@,
                        t as usize,
                        (order@[p] - nt) as usize,
                        fwd@.len(),
                    ));
                }
            }
        }
        Ok(s)
    }

    /// Number of nodes, triggers and reactions together: positions range
    /// below it.
    pub fn len(&self) -> (r: usize)
        requires
            self.wf(),
        ensures
            r == self.node_count(),
    {
        self.order.len()
    }

    /// Number of triggers.
    pub fn trigger_count(&self) -> (r: usize)
        requires
            self.wf(),
        ensures
            r == self.spec_n_triggers(),
            1 <= r <= u32::MAX,
    {
        self.n_triggers
    }

    /// The reaction at position `p`, if a reaction stands there.
    pub fn reaction_at(&self, p: usize) -> (r: Option<GlobalReactionId>)
        requires
            self.wf(),
        ensures
            self.is_reaction_position(p as int) ==> r == Some(self.reaction_at_position(p as int)),
            !self.is_reaction_position(p as int) ==> r is None,
    {
        if p < self.order.len() && self.order[p] >= self.n_triggers {
            Some(self.reactions[self.order[p] - self.n_triggers])
        } else {
            None
        }
    }

    /// Position of reaction `r` in the order, if it was recorded.
    pub fn position_of(&self, r: GlobalReactionId) -> (res: Option<usize>)
        requires
            self.wf(),
        ensures
            res matches Some(p) ==> self.is_reaction_position(p as int)
                && self.reaction_at_position(p as int) == r,
            res is None ==> !self.spec_reactions().contains(r),
    {
        let mut i: usize = 0;
        while i < self.reactions.len()
            invariant
                self.wf(),
                i <= self.reactions.len(),
                forall|j: int| 0 <= j < i ==> self.reactions@[j] != r,
            decreases self.reactions.len() - i,
        {
            if self.reactions[i] == r {
                let p = self.pos[self.n_triggers + i];
                return Some(p);
            }
            i = i + 1;
        }
        None
    }

    /// Positions of the reactions that setting trigger `t` fires, in
    /// increasing order; empty for a trigger that was not recorded.
    pub fn downstream(&self, t: TriggerId) -> (r: Vec<usize>)
        requires
            self.wf(),
        ensures
            t.0 < self.spec_n_triggers() ==> r@ == self.spec_downstream(t.0 as int),
            t.0 >= self.spec_n_triggers() ==> r@.len() == 0,
            increasing(r@),
            forall|j: int| 0 <= j < r@.len() ==> self.is_reaction_position(#[trigger] r@[j] as int),
    {
        let i = t.0 as usize;
        if i >= self.n_triggers {
            return Vec::new();
        }
        let src = &self.downstream[i];
        let mut out: Vec<usize> = Vec::new();
        let mut j: usize = 0;
        while j < src.len()
            invariant
                self.wf(),
                i < self.n_triggers,
                src == &self.downstream@[i as int],
                j <= src.len(),
                out@ == src@.take(j as int),
            decreases src.len() - j,
        {
            out.push(src[j]);
            j = j + 1;
            proof {
                assert(out@ =~= src@.take(j as int));
            }
        }
        assert(src@.take(j as int) =~= src@);
        out
    }
}

} // verus!
