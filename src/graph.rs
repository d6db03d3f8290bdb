//! Kahn's algorithm on an index graph, tolerant of cycles.
use vstd::prelude::*;
use vstd::set_lib::*;

verus! {

/// Every node's dependency list is free of repeats and names nodes of the graph.
pub open spec fn graph_ok(deps: Seq<Seq<usize>>) -> bool {
    forall|i: int|
        0 <= i < deps.len() ==> {
            &&& (#[trigger] deps[i]).no_duplicates()
            &&& forall|k: int| 0 <= k < deps[i].len() ==> deps[i][k] < deps.len()
        }
}

/// `order` holds each node of an `n`-node graph exactly once.
pub open spec fn is_permutation(order: Seq<usize>, n: nat) -> bool {
    &&& order.len() == n
    &&& order.no_duplicates()
    &&& forall|k: int| 0 <= k < order.len() ==> order[k] < n
    &&& forall|i: usize| i < n ==> order.contains(i)
}

/// The node `d` stands in `order` before position `k`.
pub open spec fn placed_before(order: Seq<usize>, d: usize, k: int) -> bool {
    order.take(k).contains(d)
}

/// `order[..resolved]` lists nodes after all of their dependencies.
pub open spec fn resolved_prefix_ok(deps: Seq<Seq<usize>>, order: Seq<usize>, resolved: int) -> bool {
    forall|k: int, m: int|
        0 <= k < resolved && 0 <= m < deps[order[k] as int].len() ==> placed_before(
            order,
            #[trigger] deps[order[k] as int][m],
            k,
        )
}

/// Each node after `resolved` waits on a dependency that is not resolved, and
/// these nodes come in increasing order.
pub open spec fn remainder_ok(deps: Seq<Seq<usize>>, order: Seq<usize>, resolved: int) -> bool {
    &&& forall|k: int| resolved <= k < order.len() ==> waits_on_outside(deps, order.take(resolved), #[trigger] order[k])
    &&& forall|a: int, b: int| resolved <= a < b < order.len() ==> order[a] < order[b]
}

/// Node `i` has a dependency that `placed` does not hold.
pub open spec fn waits_on_outside(deps: Seq<Seq<usize>>, placed: Seq<usize>, i: usize) -> bool {
    exists|m: int| 0 <= m < deps[i as int].len() && !placed.contains(#[trigger] deps[i as int][m])
}

/// What a deployment order of the graph `deps` is: every node exactly once; a
/// resolved prefix in which each node follows all of its dependencies; then the
/// nodes that a cycle holds up, in index order.
pub open spec fn deployment_ok(deps: Seq<Seq<usize>>, order: Seq<usize>, resolved: int) -> bool {
    &&& is_permutation(order, deps.len())
    &&& 0 <= resolved <= order.len()
    &&& resolved_prefix_ok(deps, order, resolved)
    &&& remainder_ok(deps, order, resolved)
}

/// How many entries of `ds` are not yet marked in `done`.
pub open spec fn pending(ds: Seq<usize>, done: Seq<bool>) -> nat
    decreases ds.len(),
{
    if ds.len() == 0 {
        0
    } else {
        pending(ds.drop_last(), done) + if done[ds.last() as int] {
            0nat
        } else {
            1nat
        }
    }
}

proof fn lemma_pending_none_done(ds: Seq<usize>, done: Seq<bool>)
    requires
        forall|k: int| 0 <= k < ds.len() ==> ds[k] < done.len() && !done[ds[k] as int],
    ensures
        pending(ds, done) == ds.len(),
    decreases ds.len(),
{
    if ds.len() > 0 {
        lemma_pending_none_done(ds.drop_last(), done);
    }
}

proof fn lemma_pending_zero(ds: Seq<usize>, done: Seq<bool>)
    requires
        forall|k: int| 0 <= k < ds.len() ==> ds[k] < done.len(),
    ensures
        pending(ds, done) == 0 <==> forall|k: int| 0 <= k < ds.len() ==> done[ds[k] as int],
    decreases ds.len(),
{
    if ds.len() > 0 {
        lemma_pending_zero(ds.drop_last(), done);
        if pending(ds, done) == 0 {
            assert forall|k: int| 0 <= k < ds.len() implies done[ds[k] as int] by {
                if k < ds.len() - 1 {
                    assert(ds.drop_last()[k] == ds[k]);
                }
            }
        } else if forall|k: int| 0 <= k < ds.len() ==> done[ds[k] as int] {
            assert forall|k: int| 0 <= k < ds.drop_last().len() implies done[ds.drop_last()[k] as int] by {
                assert(ds.drop_last()[k] == ds[k]);
            }
            assert(done[ds.last() as int]);
        }
    }
}

proof fn lemma_pending_mark(ds: Seq<usize>, done: Seq<bool>, j: usize)
    requires
        ds.no_duplicates(),
        forall|k: int| 0 <= k < ds.len() ==> ds[k] < done.len(),
        j < done.len(),
        !done[j as int],
    ensures
        pending(ds, done.update(j as int, true)) + (if ds.contains(j) { 1nat } else { 0nat }) == pending(ds, done),
    decreases ds.len(),
{
    if ds.len() > 0 {
        let init = ds.drop_last();
        assert(init.no_duplicates());
        lemma_pending_mark(init, done, j);
        if ds.last() == j {
            assert(!init.contains(j));
        } else {
            assert(ds.contains(j) == init.contains(j)) by {
                if ds.contains(j) {
                    let k = choose|k: int| 0 <= k < ds.len() && ds[k] == j;
                    assert(init[k] == j);
                }
            }
        }
    }
}

/// A repeat-free sequence of indices below `n` has at most `n` entries, and
/// exactly `n` where it holds each of them.
proof fn lemma_index_count(s: Seq<usize>, n: nat)
    requires
        n <= usize::MAX,
        s.no_duplicates(),
        forall|k: int| 0 <= k < s.len() ==> s[k] < n,
    ensures
        s.len() <= n,
        (forall|i: usize| i < n ==> s.contains(i)) ==> s.len() == n,
{
    let t = s.map_values(|x: usize| x as int);
    assert(t.no_duplicates()) by {
        assert forall|a: int, b: int| 0 <= a < b < t.len() implies t[a] != t[b] by {
            assert(s[a] != s[b]);
        }
    }
    t.unique_seq_to_set();
    let r = set_int_range(0, n as int);
    lemma_int_range(0, n as int);
    assert(t.to_set().subset_of(r)) by {
        assert forall|x: int| t.to_set().contains(x) implies r.contains(x) by {
            let k = choose|k: int| 0 <= k < t.len() && t[k] == x;
        }
    }
    lemma_len_subset(t.to_set(), r);
    if forall|i: usize| i < n ==> s.contains(i) {
        assert(r.subset_of(t.to_set())) by {
            assert forall|x: int| r.contains(x) implies t.to_set().contains(x) by {
                let i = x as usize;
                assert(s.contains(i));
                let k = choose|k: int| 0 <= k < s.len() && s[k] == i;
                assert(t[k] == x);
            }
        }
        lemma_len_subset(r, t.to_set());
    }
}

/// A permutation of `n` indices has `n` at most `usize::MAX + 1`.
pub proof fn lemma_permutation_bound(order: Seq<usize>, n: nat)
    requires
        is_permutation(order, n),
    ensures
        n <= usize::MAX + 1,
{
    if n > usize::MAX + 1 {
        let t = order.map_values(|x: usize| x as int);
        assert(t.no_duplicates()) by {
            assert forall|a: int, b: int| 0 <= a < b < t.len() implies t[a] != t[b] by {
                assert(order[a] != order[b]);
            }
        }
        t.unique_seq_to_set();
        let r = set_int_range(0, usize::MAX + 1);
        lemma_int_range(0, usize::MAX + 1);
        assert(t.to_set().subset_of(r)) by {
            assert forall|x: int| t.to_set().contains(x) implies r.contains(x) by {
                let k = choose|k: int| 0 <= k < t.len() && t[k] == x;
            }
        }
        lemma_len_subset(t.to_set(), r);
    }
}

/// What a sequence holds after one more entry.
pub proof fn lemma_push_contains<A>(s: Seq<A>, y: A)
    ensures
        forall|x: A| #[trigger] s.push(y).contains(x) <==> (s.contains(x) || x == y),
{
    assert forall|x: A| #[trigger] s.push(y).contains(x) <==> (s.contains(x) || x == y) by {
        if s.contains(x) {
            let k = choose|k: int| 0 <= k < s.len() && s[k] == x;
            assert(s.push(y)[k] == x);
        }
        if x == y {
            assert(s.push(y)[s.len() as int] == x);
        }
        if s.push(y).contains(x) {
            let k = choose|k: int| 0 <= k < s.len() + 1 && s.push(y)[k] == x;
            if k < s.len() {
                assert(s[k] == x);
            }
        }
    }
}

/// Whether `v` holds `x`.
fn holds(v: &Vec<usize>, x: usize) -> (r: bool)
    ensures
        r == v@.contains(x),
{
    for k in 0..v.len()
        invariant
            forall|m: int| 0 <= m < k ==> v@[m] != x,
    {
        if v[k] == x {
            return true;
        }
    }
    false
}

/// For each node, the nodes that depend on it, in increasing order.
fn dependents_of(deps: &Vec<Vec<usize>>) -> (r: Vec<Vec<usize>>)
    ensures
        r@.len() == deps@.len(),
        forall|j: int|
            0 <= j < r@.len() ==> {
                &&& (#[trigger] r@[j])@.no_duplicates()
                &&& forall|i: usize| r@[j]@.contains(i) <==> (i < deps@.len() && deps@[i as int]@.contains(j as usize))
            },
{
    let n = deps.len();
    let mut r: Vec<Vec<usize>> = Vec::new();
    for j in 0..n
        invariant
            n == deps@.len(),
            r@.len() == j,
            forall|j2: int|
                0 <= j2 < j ==> {
                    &&& (#[trigger] r@[j2])@.no_duplicates()
                    &&& forall|i: usize| r@[j2]@.contains(i) <==> (i < n && deps@[i as int]@.contains(j2 as usize))
                },
    {
        let mut v: Vec<usize> = Vec::new();
        for i in 0..n
            invariant
                n == deps@.len(),
                forall|a: int, b: int| 0 <= a < b < v@.len() ==> v@[a] < v@[b],
                forall|k: int| 0 <= k < v@.len() ==> v@[k] < i,
                forall|x: usize| v@.contains(x) <==> (x < i && deps@[x as int]@.contains(j)),
        {
            if holds(&deps[i], j) {
                proof {
                    lemma_push_contains(v@, i);
                }
                v.push(i);
            }
        }
        r.push(v);
    }
    r
}

/// A deployment order: a permutation of the nodes and the length of its
/// resolved prefix.
pub struct Linearization {
    pub order: Vec<usize>,
    pub resolved: usize,
}

/// Kahn's algorithm proper: the queue of released nodes, in the order they
/// were released, and which nodes it holds.
fn release_order(deps: &Vec<Vec<usize>>) -> (r: (Vec<usize>, Vec<bool>))
    requires
        graph_ok(deps@.map_values(|d: Vec<usize>| d@)),
    ensures
        ({
            let g = deps@.map_values(|d: Vec<usize>| d@);
            let (queue, done) = r;
            &&& done@.len() == deps@.len()
            &&& queue@.no_duplicates()
            &&& forall|k: int| 0 <= k < queue@.len() ==> queue@[k] < deps@.len()
            &&& forall|i: usize| i < deps@.len() ==> (done@[i as int] <==> queue@.contains(i))
            &&& forall|k: int, m: int| 0 <= k < queue@.len() && 0 <= m < g[queue@[k] as int].len()
                ==> placed_before(queue@, #[trigger] g[queue@[k] as int][m], k)
            &&& forall|i: usize| i < deps@.len() && !done@[i as int] ==> waits_on_outside(g, queue@, i)
        }),
{
    let ghost g = deps@.map_values(|d: Vec<usize>| d@);
    let n = deps.len();
    let dependents = dependents_of(deps);

    let mut done: Vec<bool> = Vec::new();
    let mut count: Vec<usize> = Vec::new();
    for i in 0..n
        invariant
            n == deps@.len(),
            done@.len() == i,
            count@.len() == i,
            forall|k: int| 0 <= k < i ==> !done@[k],
            forall|k: int| 0 <= k < i ==> count@[k] == deps@[k]@.len(),
    {
        done.push(false);
        count.push(deps[i].len());
    }
    proof {
        assert forall|i: int| 0 <= i < n implies count@[i] == pending(g[i], done@) by {
            lemma_pending_none_done(g[i], done@);
        }
    }

    let mut queue: Vec<usize> = Vec::new();
    for i in 0..n
        invariant
            n == deps@.len(),
            g == deps@.map_values(|d: Vec<usize>| d@),
            done@.len() == n,
            count@.len() == n,
            forall|k: int| 0 <= k < n ==> !done@[k],
            forall|k: int| 0 <= k < n ==> count@[k] == g[k].len(),
            forall|a: int, b: int| 0 <= a < b < queue@.len() ==> queue@[a] < queue@[b],
            forall|k: int| 0 <= k < queue@.len() ==> queue@[k] < i,
            forall|x: usize| queue@.contains(x) <==> (x < i && count@[x as int] == 0),
    {
        if count[i] == 0 {
            proof {
                lemma_push_contains(queue@, i);
            }
            queue.push(i);
        }
    }

    let mut head: usize = 0;
    proof {
        lemma_index_count(queue@, n as nat);
        assert forall|k: int, m: int| 0 <= k < queue@.len() && 0 <= m < g[queue@[k] as int].len()
            implies placed_before(queue@, #[trigger] g[queue@[k] as int][m], k) by {
            assert(count@[queue@[k] as int] == 0);
        }
    }
    while head < queue.len()
        invariant
            n == deps@.len(),
            g == deps@.map_values(|d: Vec<usize>| d@),
            graph_ok(g),
            dependents@.len() == n,
            forall|j: int|
                0 <= j < n ==> {
                    &&& (#[trigger] dependents@[j])@.no_duplicates()
                    &&& forall|i: usize| dependents@[j]@.contains(i) <==> (i < n && g[i as int].contains(j as usize))
                },
            done@.len() == n,
            count@.len() == n,
            forall|i: int| 0 <= i < n ==> count@[i] == pending(g[i], done@),
            queue@.no_duplicates(),
            forall|k: int| 0 <= k < queue@.len() ==> queue@[k] < n,
            head <= queue@.len(),
            forall|i: usize| i < n ==> (done@[i as int] <==> queue@.take(head as int).contains(i)),
            forall|i: usize| i < n ==> (queue@.contains(i) <==> count@[i as int] == 0),
            forall|k: int, m: int| 0 <= k < queue@.len() && 0 <= m < g[queue@[k] as int].len()
                ==> placed_before(queue@, #[trigger] g[queue@[k] as int][m], k),
        decreases n - head,
    {
        proof {
            lemma_index_count(queue@, n as nat);
        }
        let j = queue[head];
        let ghost before = done@;
        proof {
            assert(!done@[j as int]) by {
                if queue@.take(head as int).contains(j) {
                    let k = choose|k: int| 0 <= k < head && queue@.take(head as int)[k] == j;
                    assert(queue@[k] == queue@[head as int]);
                }
            }
        }
        done.set(j, true);
        head = head + 1;
        proof {
            let pre = queue@.take(head - 1);
            let now = queue@.take(head as int);
            assert(now =~= pre.push(j));
            assert forall|i: usize| i < n implies (done@[i as int] <==> now.contains(i)) by {
                if i == j {
                    assert(now[head - 1] == j);
                } else {
                    assert(done@[i as int] == before[i as int]);
                    if pre.contains(i) {
                        let k = choose|k: int| 0 <= k < pre.len() && pre[k] == i;
                        assert(now[k] == i);
                    }
                    if now.contains(i) {
                        let k = choose|k: int| 0 <= k < now.len() && now[k] == i;
                        assert(pre[k] == i);
                    }
                }
            }
            assert forall|i: int| 0 <= i < n implies
                pending(g[i], done@) + (if g[i].contains(j) { 1nat } else { 0nat }) == pending(g[i], before) by {
                lemma_pending_mark(g[i], before, j);
            }
        }
        let ds = &dependents[j];
        proof {
            assert(ds@.skip(0) =~= ds@);
        }
        for t in 0..ds.len()
            invariant
                n == deps@.len(),
                g == deps@.map_values(|d: Vec<usize>| d@),
                graph_ok(g),
                j < n,
                ds@ == dependents@[j as int]@,
                ds@.no_duplicates(),
                forall|i: usize| ds@.contains(i) <==> (i < n && g[i as int].contains(j)),
                done@.len() == n,
                done@[j as int],
                count@.len() == n,
                forall|i: int|
                    0 <= i < n ==> #[trigger] count@[i] == pending(g[i], done@) + (if ds@.skip(t as int).contains(i as usize) { 1nat } else { 0nat }),
                queue@.no_duplicates(),
                forall|k: int| 0 <= k < queue@.len() ==> queue@[k] < n,
                1 <= head <= queue@.len(),
                forall|i: usize| i < n ==> (done@[i as int] <==> queue@.take(head as int).contains(i)),
                forall|i: usize| i < n ==> (queue@.contains(i) <==> count@[i as int] == 0),
                forall|k: int, m: int| 0 <= k < queue@.len() && 0 <= m < g[queue@[k] as int].len()
                    ==> placed_before(queue@, #[trigger] g[queue@[k] as int][m], k),
        {
            let i = ds[t];
            proof {
                let cur = ds@.skip(t as int);
                let rest = ds@.skip(t + 1);
                assert(cur[0] == i);
                assert(ds@.contains(i));
                assert(cur =~= seq![i] + rest);
                assert(!rest.contains(i)) by {
                    if rest.contains(i) {
                        let k = choose|k: int| 0 <= k < rest.len() && rest[k] == i;
                        assert(ds@[t + 1 + k] == ds@[t as int]);
                    }
                }
                assert forall|x: usize| x < n && x != i implies
                    (#[trigger] cur.contains(x) == rest.contains(x)) by {
                    if cur.contains(x) {
                        let k = choose|k: int| 0 <= k < cur.len() && cur[k] == x;
                        assert(k != 0);
                        assert(rest[k - 1] == x);
                    }
                    if rest.contains(x) {
                        let k = choose|k: int| 0 <= k < rest.len() && rest[k] == x;
                        assert(cur[k + 1] == x);
                    }
                }
            }
            let c = count[i] - 1;
            count.set(i, c);
            if c == 0 {
                proof {
                    lemma_pending_zero(g[i as int], done@);
                    let L = queue@.len() as int;
                    assert forall|m: int| 0 <= m < g[i as int].len() implies placed_before(queue@.push(i), g[i as int][m], L) by {
                        let d = g[i as int][m];
                        assert(done@[d as int]);
                        assert(queue@.take(head as int).contains(d));
                        let k = choose|k: int| 0 <= k < head && queue@.take(head as int)[k] == d;
                        assert(queue@.push(i).take(L)[k] == d);
                    }
                    assert forall|k: int, m: int| 0 <= k < L && 0 <= m < g[queue@[k] as int].len()
                        implies placed_before(queue@.push(i), #[trigger] g[queue@[k] as int][m], k) by {
                        assert(queue@.push(i).take(k) =~= queue@.take(k));
                    }
                    assert(queue@.push(i).take(head as int) =~= queue@.take(head as int));
                    lemma_push_contains(queue@, i);
                }
                queue.push(i);
            }
        }
        proof {
            assert forall|i: int| 0 <= i < n implies count@[i] == pending(g[i], done@) by {
                assert(ds@.skip(ds@.len() as int).len() == 0);
            }
        }
    }

    proof {
        assert(queue@.take(head as int) =~= queue@);
        assert forall|i: usize| i < n && !done@[i as int] implies waits_on_outside(g, queue@, i) by {
            assert(!queue@.contains(i));
            lemma_pending_zero(g[i as int], done@);
            let m = choose|m: int| 0 <= m < g[i as int].len() && !done@[g[i as int][m] as int];
            assert(!queue@.contains(g[i as int][m]));
        }
    }
    (queue, done)
}

/// Orders the nodes of `deps` dependencies first by Kahn's algorithm: the nodes
/// with no dependency seed a queue in index order; taking a node from the queue
/// releases each dependent whose last pending dependency it was. The nodes that
/// are never released follow, in index order.
pub fn linearize(deps: &Vec<Vec<usize>>) -> (r: Linearization)
    requires
        graph_ok(deps@.map_values(|d: Vec<usize>| d@)),
    ensures
        deployment_ok(deps@.map_values(|d: Vec<usize>| d@), r.order@, r.resolved as int),
{
    let ghost g = deps@.map_values(|d: Vec<usize>| d@);
    let n = deps.len();
    let (queue, done) = release_order(deps);
    let resolved = queue.len();
    let ghost rp = queue@;
    let mut rest: Vec<usize> = Vec::new();
    for i in 0..n
        invariant
            n == deps@.len(),
            done@.len() == n,
            forall|a: int, b: int| 0 <= a < b < rest@.len() ==> rest@[a] < rest@[b],
            forall|k: int| 0 <= k < rest@.len() ==> rest@[k] < i && !done@[rest@[k] as int],
            forall|x: usize| x < i && !done@[x as int] ==> rest@.contains(x),
            forall|x: usize| x < n && !done@[x as int] ==> waits_on_outside(g, rp, x),
            forall|k: int| 0 <= k < rest@.len() ==> waits_on_outside(g, rp, #[trigger] rest@[k]),
    {
        if !done[i] {
            proof {
                lemma_push_contains(rest@, i);
            }
            rest.push(i);
        }
    }
    let ghost rs = rest@;
    let mut order = queue;
    order.append(&mut rest);
    proof {
        lemma_assemble(g, rp, rs, done@);
        assert(order@ == rp + rs);
    }
    Linearization { order, resolved }
}

/// A released prefix and the nodes left over make a deployment order.
proof fn lemma_assemble(g: Seq<Seq<usize>>, rp: Seq<usize>, rs: Seq<usize>, done: Seq<bool>)
    requires
        graph_ok(g),
        g.len() <= usize::MAX,
        done.len() == g.len(),
        rp.no_duplicates(),
        forall|k: int| 0 <= k < rp.len() ==> rp[k] < g.len(),
        forall|i: usize| i < g.len() ==> (done[i as int] <==> rp.contains(i)),
        forall|k: int, m: int| 0 <= k < rp.len() && 0 <= m < g[rp[k] as int].len()
            ==> placed_before(rp, #[trigger] g[rp[k] as int][m], k),
        forall|a: int, b: int| 0 <= a < b < rs.len() ==> rs[a] < rs[b],
        forall|k: int| 0 <= k < rs.len() ==> rs[k] < g.len() && !done[rs[k] as int],
        forall|k: int| 0 <= k < rs.len() ==> waits_on_outside(g, rp, #[trigger] rs[k]),
        forall|x: usize| x < g.len() && !done[x as int] ==> rs.contains(x),
    ensures
        deployment_ok(g, rp + rs, rp.len() as int),
{
    let n = g.len();
    let order = rp + rs;
    let resolved = rp.len();
    assert(order.take(resolved as int) =~= rp);
    assert forall|k: int| 0 <= k < order.len() implies order[k] < n by {
        if k >= resolved {
            assert(order[k] == rs[k - resolved]);
        }
    }
    assert(order.no_duplicates()) by {
        assert forall|a: int, b: int| 0 <= a < b < order.len() implies order[a] != order[b] by {
            if b >= resolved && a < resolved {
                let x = rs[b - resolved];
                assert(!done[x as int]);
                assert(rp.contains(order[a]));
            } else if a >= resolved {
                assert(rs[a - resolved] < rs[b - resolved]);
            }
        }
    }
    assert forall|x: usize| x < n implies order.contains(x) by {
        if done[x as int] {
            let k = choose|k: int| 0 <= k < rp.len() && rp[k] == x;
            assert(order[k] == x);
        } else {
            let k = choose|k: int| 0 <= k < rs.len() && rs[k] == x;
            assert(order[resolved + k] == x);
        }
    }
    lemma_index_count(order, n as nat);
    assert(is_permutation(order, n as nat));
    assert forall|k: int, m: int| 0 <= k < resolved && 0 <= m < g[order[k] as int].len()
        implies placed_before(order, #[trigger] g[order[k] as int][m], k) by {
        assert(order[k] == rp[k]);
        assert(placed_before(rp, g[rp[k] as int][m], k));
        assert(order.take(k) =~= rp.take(k));
    }
    lemma_remainder(g, rp, rs);
}


proof fn lemma_remainder(g: Seq<Seq<usize>>, rp: Seq<usize>, rs: Seq<usize>)
    requires
        forall|a: int, b: int| 0 <= a < b < rs.len() ==> rs[a] < rs[b],
        forall|k: int| 0 <= k < rs.len() ==> waits_on_outside(g, rp, #[trigger] rs[k]),
    ensures
        remainder_ok(g, rp + rs, rp.len() as int),
{
    let order = rp + rs;
    let resolved = rp.len() as int;
    assert(order.take(resolved) =~= rp);
    assert forall|k: int| resolved <= k < order.len() implies waits_on_outside(g, order.take(resolved), #[trigger] order[k]) by {
        assert(order[k] == rs[k - resolved]);
    }
    assert forall|a: int, b: int| resolved <= a < b < order.len() implies order[a] < order[b] by {
        assert(rs[a - resolved] < rs[b - resolved]);
    }
}

} // verus!
