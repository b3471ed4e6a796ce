//! Topological leveling of nodes by the names they require and provide.
//!
//! A node depends on the node that provides a name it requires (the last such
//! node when several provide it). Levels are peeled off repeatedly: each level
//! holds, in input order, the nodes whose providers all sit in earlier levels.
//! Nodes that can never be peeled, because they lie on or behind a cycle, form
//! one trailing level in input order.
use crate::names::{name_at, names_len, names_of};
use crate::tangle::Tangle;
use topological_sort::TopologicalSort;
use vstd::prelude::*;

verus! {

/// `topological_sort::TopologicalSort`, held opaque; `topo_nodes` and
/// `topo_edges` name what it holds.
#[verifier::external_type_specification]
#[verifier::external_body]
#[verifier::reject_recursive_types(T)]
pub struct ExTopologicalSort<T>(TopologicalSort<T>);

/// The nodes a `TopologicalSort<usize>` still holds.
pub uninterp spec fn topo_nodes(t: TopologicalSort<usize>) -> Set<usize>;

/// The dependencies (predecessor, successor) a `TopologicalSort<usize>` holds.
pub uninterp spec fn topo_edges(t: TopologicalSort<usize>) -> Set<(usize, usize)>;

/// Relies on `TopologicalSort::new`: no nodes, no dependencies.
#[verifier::external_body]
fn topo_new() -> (r: TopologicalSort<usize>)
    ensures
        topo_nodes(r) == Set::<usize>::empty(),
        topo_edges(r) == Set::<(usize, usize)>::empty(),
{
    TopologicalSort::new()
}

/// Relies on `TopologicalSort::insert`: adds a node, keeps the dependencies.
#[verifier::external_body]
fn topo_insert(t: &mut TopologicalSort<usize>, a: usize)
    ensures
        topo_nodes(*final(t)) == topo_nodes(*old(t)).insert(a),
        topo_edges(*final(t)) == topo_edges(*old(t)),
{
    t.insert(a);
}

/// Relies on `TopologicalSort::add_dependency`: both nodes are held and `p`
/// precedes `s`.
#[verifier::external_body]
fn topo_add_dependency(t: &mut TopologicalSort<usize>, p: usize, s: usize)
    ensures
        topo_nodes(*final(t)) == topo_nodes(*old(t)).insert(p).insert(s),
        topo_edges(*final(t)) == topo_edges(*old(t)).insert((p, s)),
{
    t.add_dependency(p, s);
}

/// Relies on `TopologicalSort::pop_all`: removes and returns, once each, the
/// nodes that no held node precedes; dependencies from them are dropped.
#[verifier::external_body]
fn topo_pop_all(t: &mut TopologicalSort<usize>) -> (r: Vec<usize>)
    ensures
        r@.no_duplicates(),
        r@.to_set() == Set::new(
            |a: usize|
                topo_nodes(*old(t)).contains(a) && forall|b: usize|
                    #![trigger topo_edges(*old(t)).contains((b, a))]
                    topo_nodes(*old(t)).contains(b) ==> !topo_edges(*old(t)).contains((b, a)),
        ),
        topo_nodes(*final(t)) == topo_nodes(*old(t)).difference(r@.to_set()),
        topo_edges(*final(t)) == Set::new(
            |e: (usize, usize)| topo_edges(*old(t)).contains(e) && !r@.contains(e.0),
        ),
{
    t.pop_all()
}

/// What the scheduler reads of a node: the names it requires and provides.
pub type Iface = (Seq<Seq<char>>, Seq<Seq<char>>);

pub open spec fn ifaces(g: Seq<&Tangle>) -> Seq<Iface> {
    g.map_values(|t: &Tangle| (t.spec_requires(), t.spec_provides()))
}

/// The last of the first `k` nodes that provides `x`, or -1.
pub open spec fn provider_upto(g: Seq<Iface>, x: Seq<char>, k: int) -> int
    decreases k,
{
    if k <= 0 {
        -1
    } else if g[k - 1].1.contains(x) {
        k - 1
    } else {
        provider_upto(g, x, k - 1)
    }
}

/// The node that provides `x`: the last one when several do, -1 when none does.
pub open spec fn provider(g: Seq<Iface>, x: Seq<char>) -> int {
    provider_upto(g, x, g.len() as int)
}

/// Node `n` depends on node `m`: `m` provides one of the names `n` requires.
pub open spec fn edge(g: Seq<Iface>, m: int, n: int) -> bool {
    0 <= n < g.len() && 0 <= m && exists|j: int|
        0 <= j < g[n].0.len() && #[trigger] provider(g, g[n].0[j]) == m
}

/// The nodes not yet placed whose providers are all placed.
pub open spec fn ready(g: Seq<Iface>, done: Set<int>) -> Set<int> {
    Set::new(
        |n: int|
            0 <= n < g.len() && !done.contains(n) && forall|m: int|
                #![trigger edge(g, m, n)]
                edge(g, m, n) ==> done.contains(m),
    )
}

/// The members of `s` below `len`, in increasing order.
pub open spec fn in_order(len: int, s: Set<int>) -> Seq<int>
    decreases len,
{
    if len <= 0 {
        Seq::<int>::empty()
    } else if s.contains(len - 1) {
        in_order(len - 1, s).push(len - 1)
    } else {
        in_order(len - 1, s)
    }
}

/// The levels peeled once `done` is placed; `fuel` bounds their number.
pub open spec fn levels(g: Seq<Iface>, done: Set<int>, fuel: nat) -> Seq<Seq<int>>
    decreases fuel,
{
    if fuel == 0 {
        Seq::<Seq<int>>::empty()
    } else {
        let r = in_order(g.len() as int, ready(g, done));
        if r.len() == 0 {
            let rest = in_order(g.len() as int, Set::new(|n: int| !done.contains(n)));
            if rest.len() == 0 {
                Seq::<Seq<int>>::empty()
            } else {
                seq![rest]
            }
        } else {
            seq![r] + levels(g, done.union(ready(g, done)), (fuel - 1) as nat)
        }
    }
}

/// The schedule of the nodes, as indices: an empty first level, then the
/// peeled levels, then the trailing level of nodes that could not be peeled.
pub open spec fn schedule(g: Seq<Iface>) -> Seq<Seq<int>> {
    seq![Seq::<int>::empty()] + levels(g, Set::empty(), (g.len() + 1) as nat)
}

pub open spec fn levels_view(r: Seq<Vec<usize>>) -> Seq<Seq<int>> {
    r.map_values(|l: Vec<usize>| l@.map_values(|i: usize| i as int))
}

pub open spec fn count_false(d: Seq<bool>) -> nat
    decreases d.len(),
{
    if d.len() == 0 {
        0
    } else {
        count_false(d.drop_last()) + if d.last() {
            0nat
        } else {
            1nat
        }
    }
}

pub open spec fn done_set(d: Seq<bool>) -> Set<int> {
    Set::new(|a: int| 0 <= a < d.len() && d[a])
}

proof fn lemma_count_false_update(d: Seq<bool>, a: int)
    requires
        0 <= a < d.len(),
        !d[a],
    ensures
        count_false(d.update(a, true)) + 1 == count_false(d),
    decreases d.len(),
{
    if a < d.len() - 1 {
        lemma_count_false_update(d.drop_last(), a);
        assert(d.update(a, true).drop_last() == d.drop_last().update(a, true));
    } else {
        assert(d.update(a, true).drop_last() == d.drop_last());
    }
}

pub proof fn lemma_in_order(len: int, s: Set<int>)
    ensures
        forall|i: int| #[trigger]
            in_order(len, s).contains(i) <==> (0 <= i < len && s.contains(i)),
        forall|p: int, q: int|
            0 <= p < q < in_order(len, s).len() ==> in_order(len, s)[p] < in_order(len, s)[q],
        forall|p: int| 0 <= p < in_order(len, s).len() ==> 0 <= #[trigger] in_order(len, s)[p] < len,
    decreases len,
{
    if len > 0 {
        lemma_in_order(len - 1, s);
        let o = in_order(len - 1, s);
        if s.contains(len - 1) {
            assert(o.push(len - 1)[o.len() as int] == len - 1);
            assert forall|i: int| #[trigger] o.push(len - 1).contains(i) <==> (0 <= i < len && s.contains(i)) by {
                if o.push(len - 1).contains(i) && i != len - 1 {
                    let op = o.push(len - 1);
                    let j = choose|j: int| 0 <= j < op.len() && #[trigger] op[j] == i;
                    assert(o[j] == i);
                    assert(o.contains(i));
                }
                if i == len - 1 {
                    assert(o.push(len - 1)[o.len() as int] == i);
                }
                if 0 <= i < len - 1 && s.contains(i) {
                    assert(o.contains(i));
                    let j = choose|j: int| 0 <= j < o.len() && #[trigger] o[j] == i;
                    assert(o.push(len - 1)[j] == i);
                }
            }
        }
    }
}

/// Finds the provider of `x` among the nodes.
fn find_provider(g: &Vec<&Tangle>, x: &String) -> (r: Option<usize>)
    ensures
        match r {
            Some(p) => provider(ifaces(g@), x@) == p && p < g.len(),
            None => provider(ifaces(g@), x@) == -1,
        },
{
    let ghost gi = ifaces(g@);
    let mut k: usize = g.len();
    while k > 0
        invariant
            k <= g.len(),
            gi == ifaces(g@),
            provider(gi, x@) == provider_upto(gi, x@, k as int),
        decreases k,
    {
        let (_, prov) = g[k - 1].deps();
        if crate::names::contains_name(prov, x) {
            return Some(k - 1);
        }
        k = k - 1;
    }
    None
}

/// Builds the dependency structure: every node, and an edge from each
/// provider to each node that requires one of its names.
fn build_topo(g: &Vec<&Tangle>) -> (t: TopologicalSort<usize>)
    ensures
        topo_nodes(t) == Set::new(|a: usize| a < g.len()),
        forall|a: usize, b: usize|
            #[trigger] topo_edges(t).contains((a, b)) <==> edge(ifaces(g@), a as int, b as int),
{
    let ghost gi = ifaces(g@);
    let n = g.len();
    let mut t = topo_new();
    let mut i: usize = 0;
    while i < n
        invariant
            i <= n == g.len(),
            topo_nodes(t) == Set::new(|a: usize| a < i),
            topo_edges(t) == Set::<(usize, usize)>::empty(),
        decreases n - i,
    {
        topo_insert(&mut t, i);
        i = i + 1;
        assert(topo_nodes(t) =~= Set::new(|a: usize| a < i));
    }
    i = 0;
    while i < n
        invariant
            i <= n == g.len(),
            gi == ifaces(g@),
            topo_nodes(t) == Set::new(|a: usize| a < n),
            forall|a: usize, b: usize|
                #[trigger] topo_edges(t).contains((a, b)) <==> (b < i && edge(gi, a as int, b as int)),
        decreases n - i,
    {
        let (req, _) = g[i].deps();
        let k = names_len(req);
        let mut j: usize = 0;
        while j < k
            invariant
                i < n == g.len(),
                j <= k == gi[i as int].0.len(),
                gi == ifaces(g@),
                names_of(*req) == gi[i as int].0,
                topo_nodes(t) == Set::new(|a: usize| a < n),
                forall|a: usize, b: usize|
                    #[trigger] topo_edges(t).contains((a, b)) <==> ((b < i && edge(
                        gi,
                        a as int,
                        b as int,
                    )) || (b == i && exists|jj: int|
                        0 <= jj < j && #[trigger] provider(gi, gi[i as int].0[jj]) == a)),
            decreases k - j,
        {
            let x = name_at(req, j);
            match find_provider(g, x) {
                Some(p) => {
                    topo_add_dependency(&mut t, p, i);
                    assert(topo_nodes(t) =~= Set::new(|a: usize| a < n));
                },
                None => {},
            }
            j = j + 1;
            assert forall|a: usize, b: usize|
                #[trigger] topo_edges(t).contains((a, b)) <==> ((b < i && edge(
                    gi,
                    a as int,
                    b as int,
                )) || (b == i && exists|jj: int|
                    0 <= jj < j && #[trigger] provider(gi, gi[i as int].0[jj]) == a)) by {
                if b == i && exists|jj: int|
                    0 <= jj < j && #[trigger] provider(gi, gi[i as int].0[jj]) == a {
                    let jj = choose|jj: int|
                        0 <= jj < j && #[trigger] provider(gi, gi[i as int].0[jj]) == a;
                    if jj == j - 1 {
                        assert(provider(gi, x@) == a);
                    }
                }
            }
        }
        i = i + 1;
        assert forall|a: usize, b: usize|
            #[trigger] topo_edges(t).contains((a, b)) <==> (b < i && edge(gi, a as int, b as int)) by {
            if b == i - 1 && edge(gi, a as int, b as int) {
                let jj = choose|jj: int|
                    0 <= jj < gi[b as int].0.len() && #[trigger] provider(gi, gi[b as int].0[jj]) == a;
                assert(0 <= jj < k);
            }
        }
    }
    t
}

/// The schedule of the nodes as positions in `g`.
pub fn schedule_indices(g: &Vec<&Tangle>) -> (r: Vec<Vec<usize>>)
    ensures
        levels_view(r@) == schedule(ifaces(g@)),
{
    let ghost gi = ifaces(g@);
    let n = g.len();
    let mut t = build_topo(g);
    let mut done: Vec<bool> = Vec::new();
    let mut i: usize = 0;
    while i < n
        invariant
            i <= n,
            done@.len() == i,
            forall|a: int| 0 <= a < i ==> !done@[a],
            count_false(done@) == i,
        decreases n - i,
    {
        let ghost d0 = done@;
        done.push(false);
        i = i + 1;
        assert(done@.drop_last() =~= d0);
    }
    let mut r: Vec<Vec<usize>> = Vec::new();
    r.push(Vec::new());
    let ghost mut fuel: nat = (n + 1) as nat;
    assert(levels_view(r@)[0] =~= Seq::<int>::empty());
    assert(levels_view(r@) =~= seq![Seq::<int>::empty()]);
    assert(done_set(done@) =~= Set::<int>::empty());
    loop
        invariant
            n == g.len() == done@.len(),
            gi == ifaces(g@),
            topo_nodes(t) == Set::new(|a: usize| a < n && !done@[a as int]),
            forall|a: usize, b: usize|
                topo_nodes(t).contains(a) && topo_nodes(t).contains(b) ==> (
                #[trigger] topo_edges(t).contains((a, b)) <==> edge(gi, a as int, b as int)),
            fuel >= count_false(done@) + 1,
            levels_view(r@) + levels(gi, done_set(done@), fuel) == schedule(gi),
        ensures
            n == g.len() == done@.len(),
            fuel >= 1,
            in_order(n as int, ready(gi, done_set(done@))).len() == 0,
            levels_view(r@) + levels(gi, done_set(done@), fuel) == schedule(gi),
        decreases count_false(done@),
    {
        let ghost ds = done_set(done@);
        let ghost rd = ready(gi, ds);
        let ghost t0 = t;
        let popped = topo_pop_all(&mut t);
        assert forall|a: int| 0 <= a < n implies (rd.contains(a) <==> popped@.to_set().contains(
            a as usize,
        )) by {
            if rd.contains(a) {
                assert forall|b: usize| topo_nodes(t0).contains(b) implies !topo_edges(
                    t0,
                ).contains((b, a as usize)) by {
                    if topo_edges(t0).contains((b, a as usize)) {
                        assert(edge(gi, b as int, a));
                    }
                }
            }
            if popped@.to_set().contains(a as usize) {
                assert forall|m: int| #[trigger] edge(gi, m, a) implies ds.contains(m) by {
                    let jj = choose|jj: int|
                        0 <= jj < gi[a].0.len() && #[trigger] provider(gi, gi[a].0[jj]) == m;
                    crate::schedule::lemma_provider_range(gi, gi[a].0[jj]);
                    if !ds.contains(m) {
                        assert(topo_nodes(t0).contains(m as usize));
                        assert(topo_edges(t0).contains((m as usize, a as usize)));
                    }
                }
            }
        }
        proof {
            lemma_in_order(n as int, rd);
        }
        if popped.len() == 0 {
            assert(in_order(n as int, rd) =~= Seq::<int>::empty()) by {
                if in_order(n as int, rd).len() > 0 {
                    let a = in_order(n as int, rd)[0];
                    assert(in_order(n as int, rd).contains(a));
                    assert(popped@.to_set().contains(a as usize));
                }
            }
            break;
        }
        assert forall|q: int| 0 <= q < popped.len() implies (#[trigger] popped@[q] as int) < n by {
            assert(popped@.to_set().contains(popped@[q]));
        }
        assert(popped@.to_set().contains(popped@[0]));
        assert(in_order(n as int, rd).contains(popped@[0] as int));
        // mark the popped nodes
        let mut mark: Vec<bool> = Vec::new();
        let mut a: usize = 0;
        while a < n
            invariant
                a <= n,
                mark@.len() == a,
                forall|b: int| 0 <= b < a ==> !mark@[b],
            decreases n - a,
        {
            mark.push(false);
            a = a + 1;
        }
        let mut p: usize = 0;
        while p < popped.len()
            invariant
                p <= popped.len(),
                mark@.len() == n,
                popped@.no_duplicates(),
                forall|b: int|
                    0 <= b < n ==> (mark@[b] <==> exists|q: int|
                        0 <= q < p && #[trigger] popped@[q] == b as usize),
                forall|q: int| 0 <= q < popped.len() ==> (#[trigger] popped@[q] as int) < n,
            decreases popped.len() - p,
        {
            let x = popped[p];
            mark.set(x, true);
            p = p + 1;
        }
        assert forall|b: int| 0 <= b < n implies (mark@[b] <==> rd.contains(b)) by {
            if mark@[b] {
                let q = choose|q: int| 0 <= q < popped.len() && #[trigger] popped@[q] == b as usize;
                assert(popped@.to_set().contains(b as usize));
            }
            if rd.contains(b) {
                assert(popped@.to_set().contains(b as usize));
                assert(popped@.contains(b as usize));
            }
        }
        // the level in input order
        let mut level: Vec<usize> = Vec::new();
        let ghost old_done = done@;
        a = 0;
        while a < n
            invariant
                a <= n == mark@.len() == done@.len() == old_done.len(),
                forall|b: int| 0 <= b < n ==> (mark@[b] <==> rd.contains(b)),
                rd == ready(gi, done_set(old_done)),
                level@.map_values(|i: usize| i as int) == in_order(a as int, rd),
                forall|b: int|
                    0 <= b < n ==> #[trigger] done@[b] == (old_done[b] || (b < a && mark@[b])),
                count_false(done@) + level@.len() == count_false(old_done),
            decreases n - a,
        {
            let ghost d1 = done@;
            if mark[a] {
                proof {
                    assert(rd.contains(a as int));
                    assert(!done_set(old_done).contains(a as int));
                    assert(!old_done[a as int]);
                    lemma_count_false_update(done@, a as int);
                }
                level.push(a);
                done.set(a, true);
            }
            let ghost a0 = a;
            a = a + 1;
            assert forall|b: int| 0 <= b < n implies #[trigger] done@[b] == (old_done[b] || (b < a
                && mark@[b])) by {
                assert(d1[b] == (old_done[b] || (b < a0 && mark@[b])));
                if b == a0 {
                    assert(done@[b] == (d1[b] || mark@[b]));
                }
            }
            assert(level@.map_values(|i: usize| i as int) =~= in_order(a as int, rd));
        }
        assert(done_set(done@) =~= ds.union(rd));
        assert(topo_nodes(t) =~= Set::new(|a: usize| a < n && !done@[a as int]));
        proof {
            let rest = in_order(n as int, Set::new(|m: int| !ds.contains(m)));
            assert(levels(gi, ds, fuel) == seq![in_order(n as int, rd)] + levels(
                gi,
                ds.union(rd),
                (fuel - 1) as nat,
            ));
        }
        let ghost before = levels_view(r@);
        r.push(level);
        proof {
            assert(levels_view(r@) =~= before.push(in_order(n as int, rd)));
            assert(before + levels(gi, ds, fuel) =~= levels_view(r@) + levels(
                gi,
                ds.union(rd),
                (fuel - 1) as nat,
            ));
            fuel = (fuel - 1) as nat;
        }
    }
    // the nodes that could not be peeled, in input order
    let ghost ds = done_set(done@);
    let mut rest: Vec<usize> = Vec::new();
    let mut a: usize = 0;
    while a < n
        invariant
            a <= n == done@.len(),
            ds == done_set(done@),
            rest@.map_values(|i: usize| i as int) == in_order(
                a as int,
                Set::new(|m: int| !ds.contains(m)),
            ),
        decreases n - a,
    {
        if !done[a] {
            rest.push(a);
        }
        a = a + 1;
        assert(rest@.map_values(|i: usize| i as int) =~= in_order(
            a as int,
            Set::new(|m: int| !ds.contains(m)),
        ));
    }
    if rest.len() > 0 {
        let ghost before = levels_view(r@);
        r.push(rest);
        assert(levels_view(r@) =~= before.push(
            in_order(n as int, Set::new(|m: int| !ds.contains(m))),
        ));
    }
    assert(levels_view(r@) =~= schedule(gi));
    r
}

pub proof fn lemma_provider_range(g: Seq<Iface>, x: Seq<char>)
    ensures
        -1 <= provider(g, x) < g.len(),
        provider(g, x) >= 0 ==> g[provider(g, x)].1.contains(x),
{
    lemma_provider_upto_range(g, x, g.len() as int);
}

proof fn lemma_provider_upto_range(g: Seq<Iface>, x: Seq<char>, k: int)
    requires
        k <= g.len(),
    ensures
        -1 <= provider_upto(g, x, k) < k || (k <= 0 && provider_upto(g, x, k) == -1),
        provider_upto(g, x, k) >= 0 ==> g[provider_upto(g, x, k)].1.contains(x),
    decreases k,
{
    if k > 0 {
        lemma_provider_upto_range(g, x, k - 1);
    }
}


pub open spec fn schedule_names(g: Seq<&Tangle>) -> Seq<Seq<Seq<char>>> {
    schedule(ifaces(g)).map_values(|l: Seq<int>| l.map_values(|i: int| g[i].spec_name()))
}

pub open spec fn names_view(r: Seq<Vec<String>>) -> Seq<Seq<Seq<char>>> {
    r.map_values(|l: Vec<String>| l@.map_values(|x: String| x@))
}

/// Groups the nodes into levels by their names: an empty first level, then
/// each level of nodes whose providers all sit in earlier levels, in input
/// order, then one level of the nodes left over by a cycle, in input order.
pub fn topo_sort(flows: Vec<&Tangle>) -> (r: Vec<Vec<String>>)
    ensures
        names_view(r@) == schedule_names(flows@),
{
    let idx = schedule_indices(&flows);
    let ghost sch = schedule(ifaces(flows@));
    let ghost want = schedule_names(flows@);
    let mut r: Vec<Vec<String>> = Vec::new();
    let mut k: usize = 0;
    while k < idx.len()
        invariant
            k <= idx.len() == sch.len() == want.len(),
            levels_view(idx@) == sch,
            want == schedule_names(flows@),
            sch == schedule(ifaces(flows@)),
            names_view(r@) == want.subrange(0, k as int),
        decreases idx.len() - k,
    {
        proof {
            lemma_schedule_in_range(ifaces(flows@));
            assert(levels_view(idx@)[k as int] == idx@[k as int]@.map_values(|i: usize| i as int));
        }
        let lvl = &idx[k];
        let mut names: Vec<String> = Vec::new();
        let mut j: usize = 0;
        while j < lvl.len()
            invariant
                k < idx.len() == sch.len(),
                j <= lvl.len() == sch[k as int].len(),
                lvl@.map_values(|i: usize| i as int) == sch[k as int],
                forall|p: int| 0 <= p < sch[k as int].len() ==> 0 <= #[trigger] sch[k as int][p] < flows@.len(),
                names@.map_values(|x: String| x@) == sch[k as int].subrange(0, j as int).map_values(
                    |i: int| flows@[i].spec_name(),
                ),
            decreases lvl.len() - j,
        {
            assert(sch[k as int][j as int] == lvl@[j as int] as int);
            let x = flows[lvl[j]].name().clone();
            let ghost before = names@.map_values(|x: String| x@);
            let ghost xv = x@;
            names.push(x);
            j = j + 1;
            assert(names@.map_values(|x: String| x@) =~= before.push(xv));
            assert(sch[k as int].subrange(0, j as int).map_values(|i: int| flows@[i].spec_name())
                =~= sch[k as int].subrange(0, j - 1).map_values(|i: int| flows@[i].spec_name()).push(
                flows@[sch[k as int][j - 1]].spec_name(),
            ));
        }
        assert(sch[k as int].subrange(0, j as int) == sch[k as int]);
        let ghost before = names_view(r@);
        let ghost nv = names@.map_values(|x: String| x@);
        assert(want[k as int] == sch[k as int].map_values(|i: int| flows@[i].spec_name()));
        assert(nv =~= want[k as int]);
        r.push(names);
        k = k + 1;
        assert(names_view(r@) =~= before.push(nv));
        assert(names_view(r@) =~= want.subrange(0, k as int));
    }
    assert(want.subrange(0, k as int) == want);
    r
}

/// How many of the nodes below `len` are not in `done`.
pub open spec fn count_out(len: int, done: Set<int>) -> nat
    decreases len,
{
    if len <= 0 {
        0
    } else {
        count_out(len - 1, done) + if done.contains(len - 1) {
            0nat
        } else {
            1nat
        }
    }
}

proof fn lemma_count_out_grow(len: int, d: Set<int>, e: Set<int>, a: int)
    requires
        d.subset_of(e),
        0 <= a < len,
        !d.contains(a),
        e.contains(a),
    ensures
        count_out(len, e) < count_out(len, d),
    decreases len,
{
    lemma_count_out_mono(len - 1, d, e);
    if a < len - 1 {
        lemma_count_out_grow(len - 1, d, e, a);
    }
}

proof fn lemma_count_out_mono(len: int, d: Set<int>, e: Set<int>)
    requires
        d.subset_of(e),
    ensures
        count_out(len, e) <= count_out(len, d),
    decreases len,
{
    if len > 0 {
        lemma_count_out_mono(len - 1, d, e);
    }
}

/// An acyclic node set: some ranking puts every provider before its dependents.
pub open spec fn acyclic(g: Seq<Iface>) -> bool {
    exists|rank: spec_fn(int) -> nat| #[trigger] ranked(g, rank)
}

/// `rank` puts every provider before its dependents.
pub open spec fn ranked(g: Seq<Iface>, rank: spec_fn(int) -> nat) -> bool {
    forall|m: int, n: int| #[trigger] edge(g, m, n) ==> rank(m) < rank(n)
}

/// In an acyclic node set some node is ready as long as one is not placed.
proof fn lemma_acyclic_ready(g: Seq<Iface>, done: Set<int>, a: int)
    requires
        acyclic(g),
        0 <= a < g.len(),
        !done.contains(a),
    ensures
        exists|n: int| #[trigger] ready(g, done).contains(n),
{
    let rank = choose|rank: spec_fn(int) -> nat| #[trigger] ranked(g, rank);
    lemma_min_rank(g, done, rank, g.len() as int, a);
    let n = choose|n: int|
        0 <= n < g.len() && !done.contains(n) && forall|b: int|
            0 <= b < g.len() && !done.contains(b) ==> rank(n) <= #[trigger] rank(b);
    assert forall|m: int| #[trigger] edge(g, m, n) implies done.contains(m) by {
        let j = choose|j: int| 0 <= j < g[n].0.len() && #[trigger] provider(g, g[n].0[j]) == m;
        lemma_provider_range(g, g[n].0[j]);
    }
    assert(ready(g, done).contains(n));
}

proof fn lemma_min_rank(g: Seq<Iface>, done: Set<int>, rank: spec_fn(int) -> nat, k: int, a: int)
    requires
        0 <= a < k <= g.len(),
        !done.contains(a),
    ensures
        exists|n: int|
            0 <= n < k && !done.contains(n) && forall|b: int|
                0 <= b < k && !done.contains(b) ==> rank(n) <= #[trigger] rank(b),
    decreases k,
{
    if a == k - 1 && forall|b: int| 0 <= b < k - 1 ==> done.contains(b) {
        assert(forall|b: int| 0 <= b < k && !done.contains(b) ==> b == a);
    } else {
        let a2 = if a < k - 1 {
            a
        } else {
            choose|b: int| 0 <= b < k - 1 && !done.contains(b)
        };
        lemma_min_rank(g, done, rank, k - 1, a2);
        let n = choose|n: int|
            0 <= n < k - 1 && !done.contains(n) && forall|b: int|
                0 <= b < k - 1 && !done.contains(b) ==> rank(n) <= #[trigger] rank(b);
        if !done.contains(k - 1) && rank(k - 1) < rank(n) {
            assert forall|b: int| 0 <= b < k && !done.contains(b) implies rank(k - 1) <= #[trigger] rank(b) by {
                if b < k - 1 {
                    assert(rank(n) <= rank(b));
                }
            }
        } else {
            assert forall|b: int| 0 <= b < k && !done.contains(b) implies rank(n) <= #[trigger] rank(b) by {
                if b < k - 1 {
                    assert(rank(n) <= rank(b));
                }
            }
        }
    }
}

/// What the levels hold: nodes not yet placed, each in one level only, and
/// (for an acyclic set, where no level is left over) each after its providers.
proof fn lemma_levels(g: Seq<Iface>, done: Set<int>, fuel: nat)
    ensures
        forall|k: int, i: int|
            0 <= k < levels(g, done, fuel).len() && 0 <= i < levels(g, done, fuel)[k].len() ==> {
                let n = #[trigger] levels(g, done, fuel)[k][i];
                0 <= n < g.len() && !done.contains(n)
            },
        forall|k1: int, i1: int, k2: int, i2: int|
            0 <= k1 < levels(g, done, fuel).len() && 0 <= i1 < levels(g, done, fuel)[k1].len()
                && 0 <= k2 < levels(g, done, fuel).len() && 0 <= i2 < levels(
                g,
                done,
                fuel,
            )[k2].len() && #[trigger] levels(g, done, fuel)[k1][i1] == #[trigger] levels(
                g,
                done,
                fuel,
            )[k2][i2] ==> k1 == k2,
        forall|k: int, p: int, q: int|
            0 <= k < levels(g, done, fuel).len() && 0 <= p < q < levels(g, done, fuel)[k].len()
                ==> #[trigger] levels(g, done, fuel)[k][p] < #[trigger] levels(g, done, fuel)[k][q],
        acyclic(g) ==> forall|k: int, i: int, m: int|
            0 <= k < levels(g, done, fuel).len() && 0 <= i < levels(g, done, fuel)[k].len()
                && #[trigger] edge(g, m, #[trigger] levels(g, done, fuel)[k][i]) ==> done.contains(m)
                || exists|k2: int, i2: int|
                0 <= k2 < k && 0 <= i2 < levels(g, done, fuel)[k2].len()
                    && #[trigger] levels(g, done, fuel)[k2][i2] == m,
    decreases fuel,
{
    let len = g.len() as int;
    let l = levels(g, done, fuel);
    if fuel > 0 {
        let rd = ready(g, done);
        let r = in_order(len, rd);
        lemma_in_order(len, rd);
        if r.len() == 0 {
            let notdone = Set::new(|n: int| !done.contains(n));
            lemma_in_order(len, notdone);
            let rest = in_order(len, notdone);
            if rest.len() > 0 {
                assert(l == seq![rest]);
                assert forall|k: int, i: int| 0 <= k < l.len() && 0 <= i < l[k].len() implies {
                    let n = #[trigger] l[k][i];
                    0 <= n < g.len() && !done.contains(n)
                } by {
                    assert(rest.contains(rest[i]));
                }
            }
            if acyclic(g) {
                let rest = in_order(len, notdone);
                if rest.len() > 0 {
                    assert(rest.contains(rest[0]));
                    lemma_acyclic_ready(g, done, rest[0]);
                    let n = choose|n: int| #[trigger] rd.contains(n);
                    assert(r.contains(n));
                }
            }
        } else {
            let done2 = done.union(rd);
            let l2 = levels(g, done2, (fuel - 1) as nat);
            lemma_levels(g, done2, (fuel - 1) as nat);
            assert(l == seq![r] + l2);
            assert forall|k: int, i: int| 0 <= k < l.len() && 0 <= i < l[k].len() implies {
                let n = #[trigger] l[k][i];
                0 <= n < g.len() && !done.contains(n)
            } by {
                if k == 0 {
                    assert(r.contains(r[i]));
                } else {
                    assert(l[k][i] == l2[k - 1][i]);
                }
            }
            assert forall|k1: int, i1: int, k2: int, i2: int|
                0 <= k1 < l.len() && 0 <= i1 < l[k1].len() && 0 <= k2 < l.len() && 0 <= i2
                    < l[k2].len() && #[trigger] l[k1][i1] == #[trigger] l[k2][i2] implies k1 == k2 by {
                if k1 == 0 && k2 > 0 {
                    assert(r.contains(r[i1]));
                    assert(l[k2][i2] == l2[k2 - 1][i2]);
                } else if k2 == 0 && k1 > 0 {
                    assert(r.contains(r[i2]));
                    assert(l[k1][i1] == l2[k1 - 1][i1]);
                } else if k1 > 0 && k2 > 0 {
                    assert(l[k1][i1] == l2[k1 - 1][i1]);
                    assert(l[k2][i2] == l2[k2 - 1][i2]);
                }
            }
            assert forall|k: int, p: int, q: int|
                0 <= k < l.len() && 0 <= p < q < l[k].len() implies #[trigger] l[k][p]
                < #[trigger] l[k][q] by {
                if k > 0 {
                    assert(l[k][p] == l2[k - 1][p]);
                    assert(l[k][q] == l2[k - 1][q]);
                }
            }
            if acyclic(g) {
                assert forall|k: int, i: int, m: int|
                    0 <= k < l.len() && 0 <= i < l[k].len() && #[trigger] edge(g, m, #[trigger] l[k][i])
                        implies done.contains(m) || exists|k2: int, i2: int|
                    0 <= k2 < k && 0 <= i2 < l[k2].len() && #[trigger] l[k2][i2] == m by {
                    if k == 0 {
                        assert(r.contains(r[i]));
                    } else {
                        assert(l[k][i] == l2[k - 1][i]);
                        assert(edge(g, m, l2[k - 1][i]));
                        if done2.contains(m) && !done.contains(m) {
                            assert(r.contains(m));
                            let i2 = choose|i2: int| 0 <= i2 < r.len() && r[i2] == m;
                            assert(l[0][i2] == m);
                        } else if !done2.contains(m) {
                            let (k3, i3) = choose|k3: int, i3: int|
                                0 <= k3 < k - 1 && 0 <= i3 < l2[k3].len() && #[trigger] l2[k3][i3] == m;
                            assert(l[k3 + 1][i3] == m);
                        }
                    }
                }
            }
        }
    }
}

/// Every node of the set is placed once: the levels after the first cover
/// the nodes not in `done`, when `fuel` exceeds their number.
proof fn lemma_levels_cover(g: Seq<Iface>, done: Set<int>, fuel: nat, a: int)
    requires
        0 <= a < g.len(),
        !done.contains(a),
        fuel > count_out(g.len() as int, done),
    ensures
        exists|k: int, i: int|
            0 <= k < levels(g, done, fuel).len() && 0 <= i < levels(g, done, fuel)[k].len()
                && #[trigger] levels(g, done, fuel)[k][i] == a,
    decreases fuel,
{
    let len = g.len() as int;
    let l = levels(g, done, fuel);
    let rd = ready(g, done);
    let r = in_order(len, rd);
    lemma_in_order(len, rd);
    if r.len() == 0 {
        let notdone = Set::new(|n: int| !done.contains(n));
        lemma_in_order(len, notdone);
        let rest = in_order(len, notdone);
        assert(rest.contains(a));
        let i = choose|i: int| 0 <= i < rest.len() && rest[i] == a;
        assert(l[0][i] == a);
    } else if rd.contains(a) {
        assert(r.contains(a));
        let i = choose|i: int| 0 <= i < r.len() && r[i] == a;
        assert(l[0][i] == a);
    } else {
        let done2 = done.union(rd);
        assert(r.contains(r[0]));
        lemma_count_out_grow(len, done, done2, r[0]);
        lemma_levels_cover(g, done2, (fuel - 1) as nat, a);
        let l2 = levels(g, done2, (fuel - 1) as nat);
        assert(l == seq![r] + l2);
        let (k, i) = choose|k: int, i: int|
            0 <= k < l2.len() && 0 <= i < l2[k].len() && #[trigger] l2[k][i] == a;
        assert(l[k + 1][i] == a);
    }
}

proof fn lemma_count_out_bound(len: int, done: Set<int>)
    ensures
        count_out(len, done) <= if len < 0 {
            0
        } else {
            len
        },
    decreases len,
{
    if len > 0 {
        lemma_count_out_bound(len - 1, done);
    }
}

proof fn lemma_schedule_in_range(g: Seq<Iface>)
    ensures
        forall|k: int, i: int|
            0 <= k < schedule(g).len() && 0 <= i < schedule(g)[k].len() ==> 0 <= #[trigger] schedule(
                g,
            )[k][i] < g.len(),
{
    let l = levels(g, Set::empty(), (g.len() + 1) as nat);
    lemma_levels(g, Set::empty(), (g.len() + 1) as nat);
    assert forall|k: int, i: int|
        0 <= k < schedule(g).len() && 0 <= i < schedule(g)[k].len() implies 0 <= #[trigger] schedule(
        g,
    )[k][i] < g.len() by {
        assert(schedule(g)[k][i] == l[k - 1][i]);
    }
}

/// Node `a` stands in some level of `s`.
pub open spec fn placed(s: Seq<Seq<int>>, a: int) -> bool {
    exists|k: int, i: int| 0 <= k < s.len() && 0 <= i < s[k].len() && #[trigger] s[k][i] == a
}

/// The schedule places every node exactly once, whatever cycles the node set
/// holds, and each level lists its nodes in input order.
pub proof fn lemma_schedule_places_each_node_once(g: Seq<Iface>)
    ensures
        forall|a: int| 0 <= a < g.len() ==> #[trigger] placed(schedule(g), a),
        forall|k1: int, i1: int, k2: int, i2: int|
            0 <= k1 < schedule(g).len() && 0 <= i1 < schedule(g)[k1].len() && 0 <= k2 < schedule(
                g,
            ).len() && 0 <= i2 < schedule(g)[k2].len() && #[trigger] schedule(g)[k1][i1]
                == #[trigger] schedule(g)[k2][i2] ==> k1 == k2 && i1 == i2,
        forall|k: int, p: int, q: int|
            0 <= k < schedule(g).len() && 0 <= p < q < schedule(g)[k].len() ==> #[trigger] schedule(
                g,
            )[k][p] < #[trigger] schedule(g)[k][q],
        forall|k: int, i: int|
            0 <= k < schedule(g).len() && 0 <= i < schedule(g)[k].len() ==> 0 <= #[trigger] schedule(
                g,
            )[k][i] < g.len(),
{
    let fuel = (g.len() + 1) as nat;
    let l = levels(g, Set::empty(), fuel);
    let s = schedule(g);
    lemma_levels(g, Set::empty(), fuel);
    lemma_schedule_in_range(g);
    lemma_count_out_bound(g.len() as int, Set::empty());
    assert(s == seq![Seq::<int>::empty()] + l);
    assert forall|a: int| 0 <= a < g.len() implies #[trigger] placed(s, a) by {
        lemma_levels_cover(g, Set::empty(), fuel, a);
        let (k, i) = choose|k: int, i: int| 0 <= k < l.len() && 0 <= i < l[k].len() && #[trigger] l[k][i] == a;
        assert(s[k + 1][i] == a);
    }
    assert forall|k: int, p: int, q: int| 0 <= k < s.len() && 0 <= p < q < s[k].len() implies #[trigger] s[k][p]
        < #[trigger] s[k][q] by {
        assert(s[k][p] == l[k - 1][p]);
        assert(s[k][q] == l[k - 1][q]);
    }
    assert forall|k1: int, i1: int, k2: int, i2: int|
        0 <= k1 < s.len() && 0 <= i1 < s[k1].len() && 0 <= k2 < s.len() && 0 <= i2 < s[k2].len()
            && #[trigger] s[k1][i1] == #[trigger] s[k2][i2] implies k1 == k2 && i1 == i2 by {
        assert(s[k1][i1] == l[k1 - 1][i1]);
        assert(s[k2][i2] == l[k2 - 1][i2]);
        if i1 < i2 {
            assert(l[k1 - 1][i1] < l[k1 - 1][i2]);
        } else if i2 < i1 {
            assert(l[k1 - 1][i2] < l[k1 - 1][i1]);
        }
    }
}

/// In an acyclic node set, a node that provides a name another node requires
/// stands in a strictly earlier level than that node.
pub proof fn lemma_schedule_respects_dependencies(g: Seq<Iface>, k1: int, i1: int, k2: int, i2: int)
    requires
        acyclic(g),
        0 <= k1 < schedule(g).len(),
        0 <= i1 < schedule(g)[k1].len(),
        0 <= k2 < schedule(g).len(),
        0 <= i2 < schedule(g)[k2].len(),
        edge(g, schedule(g)[k1][i1], schedule(g)[k2][i2]),
    ensures
        k1 < k2,
{
    let fuel = (g.len() + 1) as nat;
    let l = levels(g, Set::empty(), fuel);
    let s = schedule(g);
    lemma_levels(g, Set::empty(), fuel);
    lemma_schedule_places_each_node_once(g);
    assert(s == seq![Seq::<int>::empty()] + l);
    let m = s[k1][i1];
    assert(s[k2][i2] == l[k2 - 1][i2]);
    assert(edge(g, m, l[k2 - 1][i2]));
    let (k3, i3) = choose|k3: int, i3: int| 0 <= k3 < k2 - 1 && 0 <= i3 < l[k3].len() && #[trigger] l[k3][i3] == m;
    assert(s[k3 + 1][i3] == m);
}

/// The nodes that stand in some level of `ls`.
pub open spec fn members_of(ls: Seq<Seq<int>>) -> Set<int> {
    Set::new(
        |x: int| exists|k: int, i: int| 0 <= k < ls.len() && 0 <= i < ls[k].len() && #[trigger] ls[k][i] == x,
    )
}

/// `level` is a peel once `placed` is placed: the ready nodes, in input order,
/// and there are some.
pub open spec fn is_peel(g: Seq<Iface>, placed: Set<int>, level: Seq<int>) -> bool {
    in_order(g.len() as int, ready(g, placed)).len() > 0 && level == in_order(
        g.len() as int,
        ready(g, placed),
    )
}

/// `level` holds, in input order, every node not placed, and none is ready:
/// the nodes no peel reaches.
pub open spec fn is_rest(g: Seq<Iface>, placed: Set<int>, level: Seq<int>) -> bool {
    in_order(g.len() as int, ready(g, placed)).len() == 0 && level == in_order(
        g.len() as int,
        Set::new(|x: int| !placed.contains(x)),
    )
}

proof fn lemma_levels_shape(g: Seq<Iface>, done: Set<int>, fuel: nat)
    ensures
        forall|k: int|
            0 <= k < levels(g, done, fuel).len() ==> is_peel(
                g,
                done.union(members_of(levels(g, done, fuel).subrange(0, k))),
                #[trigger] levels(g, done, fuel)[k],
            ) || (k == levels(g, done, fuel).len() - 1 && is_rest(
                g,
                done.union(members_of(levels(g, done, fuel).subrange(0, k))),
                levels(g, done, fuel)[k],
            )),
    decreases fuel,
{
    let n = g.len() as int;
    let l = levels(g, done, fuel);
    if fuel > 0 {
        let rd = ready(g, done);
        let r = in_order(n, rd);
        lemma_in_order(n, rd);
        assert(members_of(l.subrange(0, 0)) =~= Set::<int>::empty());
        assert(done.union(Set::<int>::empty()) =~= done);
        if r.len() > 0 {
            let done2 = done.union(rd);
            let l2 = levels(g, done2, (fuel - 1) as nat);
            lemma_levels_shape(g, done2, (fuel - 1) as nat);
            assert(l == seq![r] + l2);
            assert forall|k: int| 0 <= k < l.len() implies is_peel(
                g,
                done.union(members_of(l.subrange(0, k))),
                #[trigger] l[k],
            ) || (k == l.len() - 1 && is_rest(g, done.union(members_of(l.subrange(0, k))), l[k])) by {
                if k > 0 {
                    let p1 = done.union(members_of(l.subrange(0, k)));
                    let p2 = done2.union(members_of(l2.subrange(0, k - 1)));
                    assert(l[k] == l2[k - 1]);
                    assert(p1 =~= p2) by {
                        assert forall|x: int| p1.contains(x) implies p2.contains(x) by {
                            if !done.contains(x) {
                                let (kk, i) = choose|kk: int, i: int|
                                    0 <= kk < k && 0 <= i < l.subrange(0, k)[kk].len()
                                        && #[trigger] l.subrange(0, k)[kk][i] == x;
                                if kk == 0 {
                                    assert(r[i] == x);
                                    assert(r.contains(x));
                                } else {
                                    assert(l2.subrange(0, k - 1)[kk - 1][i] == x);
                                }
                            }
                        }
                        assert forall|x: int| p2.contains(x) implies p1.contains(x) by {
                            if rd.contains(x) && !done.contains(x) {
                                assert(r.contains(x));
                                let i = choose|i: int| 0 <= i < r.len() && r[i] == x;
                                assert(l.subrange(0, k)[0][i] == x);
                            } else if !done2.contains(x) {
                                let (kk, i) = choose|kk: int, i: int|
                                    0 <= kk < k - 1 && 0 <= i < l2.subrange(0, k - 1)[kk].len()
                                        && #[trigger] l2.subrange(0, k - 1)[kk][i] == x;
                                assert(l.subrange(0, k)[kk + 1][i] == x);
                            }
                        }
                    }
                }
            }
        }
    }
}

/// The levels after the first are peels: each holds, in input order, the
/// nodes whose providers all stand in earlier levels. Only the last level may
/// differ: it then holds, in input order, every node no peel reaches (the
/// nodes on or behind a cycle), and no node is left ready.
pub proof fn lemma_schedule_levels(g: Seq<Iface>)
    ensures
        forall|k: int|
            1 <= k < schedule(g).len() ==> is_peel(
                g,
                members_of(schedule(g).subrange(1, k)),
                #[trigger] schedule(g)[k],
            ) || (k == schedule(g).len() - 1 && is_rest(
                g,
                members_of(schedule(g).subrange(1, k)),
                schedule(g)[k],
            )),
{
    let fuel = (g.len() + 1) as nat;
    let l = levels(g, Set::empty(), fuel);
    let s = schedule(g);
    lemma_levels_shape(g, Set::empty(), fuel);
    assert(s == seq![Seq::<int>::empty()] + l);
    assert forall|k: int| 1 <= k < s.len() implies is_peel(
        g,
        members_of(s.subrange(1, k)),
        #[trigger] s[k],
    ) || (k == s.len() - 1 && is_rest(g, members_of(s.subrange(1, k)), s[k])) by {
        assert(s[k] == l[k - 1]);
        assert(s.subrange(1, k) =~= l.subrange(0, k - 1));
        assert(Set::<int>::empty().union(members_of(l.subrange(0, k - 1))) =~= members_of(
            l.subrange(0, k - 1),
        ));
    }
}
} // verus!
