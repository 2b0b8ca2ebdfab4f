//! Layers of a directed graph, which may hold cycles.

use vstd::prelude::*;

verus! {

/// A graph: whether an edge leads from one node to another.
pub type Graph = Seq<Seq<bool>>;

/// Every row of the graph is as long as there are nodes.
pub open spec fn is_square(g: Graph) -> bool {
    forall|i: int| 0 <= i < g.len() ==> (#[trigger] g[i]).len() == g.len()
}

/// An edge leads from `i` to `j`.
pub open spec fn edge(g: Graph, i: int, j: int) -> bool {
    0 <= i < g.len() && 0 <= j < g.len() && g[i][j]
}

/// `n` edges, one after the other, lead from `i` to `j`.
pub open spec fn leads(g: Graph, i: int, j: int, n: nat) -> bool
    decreases n,
{
    if n == 0 {
        i == j
    } else {
        exists|m: int| leads(g, i, m, (n - 1) as nat) && #[trigger] edge(g, m, j)
    }
}

/// One or more edges lead from `i` to `j`.
pub open spec fn reaches(g: Graph, i: int, j: int) -> bool {
    exists|n: nat| n > 0 && #[trigger] leads(g, i, j, n)
}

/// An edge leads from `i` to `j`, and no cycle holds both.
pub open spec fn precedes(g: Graph, i: int, j: int) -> bool {
    edge(g, i, j) && !reaches(g, j, i)
}

/// What leads farther from where something leads to is reached.
pub proof fn lemma_leads_on(g: Graph, i: int, k: int, j: int, a: nat, b: nat)
    requires
        leads(g, i, k, a),
        leads(g, k, j, b),
    ensures
        leads(g, i, j, a + b),
    decreases b,
{
    if b > 0 {
        let m = choose|m: int| leads(g, k, m, (b - 1) as nat) && #[trigger] edge(g, m, j);
        lemma_leads_on(g, i, k, m, a, (b - 1) as nat);
        assert(leads(g, i, m, (a + b - 1) as nat));
    }
}

/// An edge reaches its end, and what is reached from there.
pub proof fn lemma_edge_reaches(g: Graph, i: int, j: int)
    requires
        edge(g, i, j),
    ensures
        reaches(g, i, j),
        forall|z: int| #[trigger] reaches(g, z, i) ==> reaches(g, z, j),
        forall|z: int| #[trigger] reaches(g, j, z) ==> reaches(g, i, z),
{
    assert(leads(g, i, i, 0));
    assert(leads(g, i, j, 1));
    assert forall|z: int| #[trigger] reaches(g, z, i) implies reaches(g, z, j) by {
        let n = choose|n: nat| n > 0 && #[trigger] leads(g, z, i, n);
        assert(leads(g, z, j, (n + 1) as nat));
    }
    assert forall|z: int| #[trigger] reaches(g, j, z) implies reaches(g, i, z) by {
        let n = choose|n: nat| n > 0 && #[trigger] leads(g, j, z, n);
        lemma_leads_on(g, i, j, z, 1, n);
        assert(leads(g, i, z, (1 + n) as nat));
    }
}

// ---------------------------------------------------------------------------------------------
// Depths
// ---------------------------------------------------------------------------------------------

/// A node and all that reach it.
pub open spec fn above(g: Graph, x: int) -> Set<int> {
    vstd::set_lib::set_int_range(0, g.len() as int).filter(|z: int| z == x || reaches(g, z, x))
}

/// There are at most as many nodes above one as there are nodes at all.
proof fn lemma_above(g: Graph, x: int)
    requires
        0 <= x < g.len(),
    ensures
        above(g, x).finite(),
        1 <= above(g, x).len() <= g.len(),
{
    vstd::set_lib::lemma_int_range(0, g.len() as int);
    let all = vstd::set_lib::set_int_range(0, g.len() as int);
    vstd::set_lib::lemma_len_subset(above(g, x), all);
    assert(above(g, x).contains(x));
    if above(g, x).len() == 0 {
        assert(above(g, x) =~= Set::empty());
    }
}

/// Fewer nodes are above one that precedes another.
pub proof fn lemma_fewer_above(g: Graph, p: int, x: int)
    requires
        precedes(g, p, x),
    ensures
        above(g, p).len() < above(g, x).len(),
{
    vstd::set_lib::lemma_int_range(0, g.len() as int);
    lemma_edge_reaches(g, p, x);
    lemma_above(g, p);
    lemma_above(g, x);
    let smaller = above(g, x).remove(x);
    assert(above(g, x).contains(x));
    assert(!above(g, p).contains(x)) by {
        if x == p {
            assert(reaches(g, x, p));
        }
    }
    assert(above(g, p).subset_of(smaller));
    vstd::set_lib::lemma_len_subset(above(g, p), smaller);
}

/// The larger of `base[x]` and of what the first `k` nodes ask for: one more than the depth of each
/// that precedes `x`.
pub open spec fn depth_over(g: Graph, base: Seq<nat>, x: int, k: nat) -> nat
    decreases above(g, x).len(), k,
{
    if k == 0 {
        base[x]
    } else {
        let p = k - 1;
        let rest = depth_over(g, base, x, (k - 1) as nat);
        if precedes(g, p, x) {
            proof {
                lemma_fewer_above(g, p, x);
            }
            let next = depth_over(g, base, p, g.len()) + 1;
            if next > rest {
                next
            } else {
                rest
            }
        } else {
            rest
        }
    }
}

/// The depth of a node: `base[x]` at least, and more than that of every node that precedes it.
pub open spec fn depth(g: Graph, base: Seq<nat>, x: int) -> nat {
    depth_over(g, base, x, g.len())
}

proof fn lemma_depth_over(g: Graph, base: Seq<nat>, x: int, k: nat)
    requires
        k <= g.len(),
    ensures
        depth_over(g, base, x, k) >= base[x],
        forall|p: int|
            0 <= p < k && #[trigger] precedes(g, p, x) ==> depth_over(g, base, x, k) > depth(
                g,
                base,
                p,
            ),
        depth_over(g, base, x, k) == base[x] || exists|p: int|
            0 <= p < k && #[trigger] precedes(g, p, x) && depth_over(g, base, x, k) == depth(
                g,
                base,
                p,
            ) + 1,
    decreases k,
{
    if k > 0 {
        lemma_depth_over(g, base, x, (k - 1) as nat);
        let p = k - 1;
        if precedes(g, p, x) {
            lemma_fewer_above(g, p, x);
        }
    }
}

/// The depth of a node is `base[x]` at least, more than that of every node that precedes it, and
/// not larger than that asks for.
pub proof fn lemma_depth(g: Graph, base: Seq<nat>, x: int)
    ensures
        depth(g, base, x) >= base[x],
        forall|p: int| #[trigger]
            precedes(g, p, x) ==> depth(g, base, x) > depth(g, base, p),
        depth(g, base, x) == base[x] || exists|p: int| #[trigger]
            precedes(g, p, x) && depth(g, base, x) == depth(g, base, p) + 1,
{
    lemma_depth_over(g, base, x, g.len());
    assert forall|p: int| #[trigger] precedes(g, p, x) implies depth(g, base, x) > depth(
        g,
        base,
        p,
    ) by {
        assert(0 <= p < g.len());
    }
}

// ---------------------------------------------------------------------------------------------
// Finding what is reached
// ---------------------------------------------------------------------------------------------

/// How many are false.
spec fn open_count(s: Seq<bool>) -> nat
    decreases s.len(),
{
    if s.len() == 0 {
        0
    } else {
        open_count(s.drop_last()) + if s.last() {
            0nat
        } else {
            1nat
        }
    }
}

proof fn lemma_open_count(s: Seq<bool>, i: int)
    requires
        0 <= i < s.len(),
        !s[i],
    ensures
        open_count(s.update(i, true)) + 1 == open_count(s),
    decreases s.len(),
{
    let t = s.update(i, true);
    if i == s.len() - 1 {
        assert(t.drop_last() == s.drop_last());
    } else {
        lemma_open_count(s.drop_last(), i);
        assert(t.drop_last() == s.drop_last().update(i, true));
    }
}

/// Marks where the edges of `k` lead to, and puts those on the stack that were not marked.
fn expand(g: &Vec<Vec<bool>>, k: usize, seen: &mut Vec<bool>, stack: &mut Vec<usize>)
    requires
        is_square(g.deep_view()),
        k < g@.len(),
        old(seen)@.len() == g@.len(),
        forall|s: int| 0 <= s < old(stack)@.len() ==> (#[trigger] old(stack)@[s]) < g@.len(),
    ensures
        final(seen)@.len() == g@.len(),
        forall|j: int|
            0 <= j < g@.len() ==> #[trigger] final(seen)@[j] == (old(seen)@[j] || edge(
                g.deep_view(),
                k as int,
                j,
            )),
        forall|s: int| 0 <= s < final(stack)@.len() ==> (#[trigger] final(stack)@[s]) < g@.len(),
        forall|x: usize| #[trigger]
            final(stack)@.contains(x) <==> old(stack)@.contains(x) || (x < g@.len()
                && !old(seen)@[x as int] && edge(g.deep_view(), k as int, x as int)),
        open_count(final(seen)@) < open_count(old(seen)@) || (open_count(final(seen)@)
            == open_count(old(seen)@) && final(stack)@ == old(stack)@),
{
    let ghost all = g.deep_view();
    let ghost seen0 = seen@;
    let ghost stack0 = stack@;
    let n: usize = g.len();
    let mut j: usize = 0;
    assert(all[k as int] == g@[k as int].deep_view());
    assert(g@[k as int]@.len() == n);
    while j < n
        invariant
            j <= n == g@.len() == seen@.len() == seen0.len(),
            k < n,
            all == g.deep_view(),
            g@[k as int]@.len() == n,
            all[k as int] == g@[k as int].deep_view(),
            forall|i: int|
                0 <= i < n ==> #[trigger] seen@[i] == (seen0[i] || (i < j && edge(
                    all,
                    k as int,
                    i,
                ))),
            forall|s: int| 0 <= s < stack@.len() ==> (#[trigger] stack@[s]) < n,
            forall|x: usize| #[trigger]
                stack@.contains(x) <==> stack0.contains(x) || (x < j && !seen0[x as int] && edge(
                    all,
                    k as int,
                    x as int,
                )),
            open_count(seen@) < open_count(seen0) || (open_count(seen@) == open_count(seen0)
                && stack@ == stack0),
        decreases n - j,
    {
        assert(all[k as int][j as int] == g@[k as int]@[j as int]);
        if g[k][j] && !seen[j] {
            let ghost before = stack@;
            proof {
                lemma_open_count(seen@, j as int);
            }
            seen.set(j, true);
            stack.push(j);
            assert forall|x: usize| #[trigger] stack@.contains(x) <==> before.contains(x) || x
                == j by {
                if before.contains(x) {
                    assert(stack@[before.index_of(x)] == x);
                }
                assert(stack@[before.len() as int] == j);
                if stack@.contains(x) && x != j {
                    assert(before[stack@.index_of(x)] == x);
                }
            }
        }
        j = j + 1;
    }
}

/// All that is reached from `i` is among the marked ones, where those are closed under edges.
proof fn lemma_closed(g: Graph, seen: Seq<bool>, i: int, j: int, n: nat)
    requires
        seen.len() == g.len(),
        n > 0,
        leads(g, i, j, n),
        forall|y: int| #[trigger] edge(g, i, y) ==> seen[y],
        forall|x: int, y: int| 0 <= x < seen.len() && seen[x] && #[trigger] edge(g, x, y) ==> seen[y],
    ensures
        0 <= j < g.len(),
        seen[j],
    decreases n,
{
    let m = choose|m: int| leads(g, i, m, (n - 1) as nat) && #[trigger] edge(g, m, j);
    if n > 1 {
        lemma_closed(g, seen, i, m, (n - 1) as nat);
    }
}

/// Tells of each node whether it is reached from `i`.
fn find_reached(g: &Vec<Vec<bool>>, i: usize) -> (r: Vec<bool>)
    requires
        is_square(g.deep_view()),
        i < g@.len(),
    ensures
        r@.len() == g@.len(),
        forall|j: int| 0 <= j < g@.len() ==> #[trigger] r@[j] == reaches(g.deep_view(), i as int, j),
{
    let ghost all = g.deep_view();
    let n: usize = g.len();
    let mut seen: Vec<bool> = Vec::new();
    let mut k: usize = 0;
    while k < n
        invariant
            k <= n,
            seen@.len() == k,
            forall|j: int| 0 <= j < k ==> !(#[trigger] seen@[j]),
        decreases n - k,
    {
        seen.push(false);
        k = k + 1;
    }
    let mut stack: Vec<usize> = Vec::new();
    expand(g, i, &mut seen, &mut stack);
    proof {
        assert forall|j: int| 0 <= j < n && #[trigger] seen@[j] implies reaches(
            all,
            i as int,
            j,
        ) by {
            assert(edge(all, i as int, j));
            lemma_edge_reaches(all, i as int, j);
        }
        assert forall|j: int| 0 <= j < n && #[trigger] seen@[j] implies stack@.contains(
            j as usize,
        ) by {
            assert(edge(all, i as int, (j as usize) as int));
        }
    }
    while stack.len() > 0
        invariant
            i < n == g@.len() == seen@.len(),
            all == g.deep_view(),
            is_square(all),
            forall|s: int| 0 <= s < stack@.len() ==> (#[trigger] stack@[s]) < n,
            forall|x: usize| #[trigger] stack@.contains(x) ==> x < n && seen@[x as int],
            forall|j: int| 0 <= j < n && #[trigger] seen@[j] ==> reaches(all, i as int, j),
            forall|y: int| #[trigger] edge(all, i as int, y) ==> seen@[y],
            forall|x: int, y: int|
                0 <= x < n && seen@[x] && #[trigger] edge(all, x, y) ==> seen@[y]
                    || stack@.contains(x as usize),
        decreases open_count(seen@), stack@.len(),
    {
        let ghost stack0 = stack@;
        let ghost seen0 = seen@;
        let k: usize = match stack.pop() {
            Some(k) => k,
            None => {
                return seen;
            },
        };
        let ghost popped = stack@;
        proof {
            assert(stack0.contains(stack0[stack0.len() - 1]));
            assert(reaches(all, i as int, k as int));
            assert forall|x: usize| #[trigger] popped.contains(x) implies stack0.contains(x) by {
                assert(stack0[popped.index_of(x)] == x);
            }
            assert forall|x: usize| #[trigger] stack0.contains(x) implies x == k
                || popped.contains(x) by {
                let s = stack0.index_of(x);
                if s < popped.len() {
                    assert(popped[s] == x);
                }
            }
        }
        expand(g, k, &mut seen, &mut stack);
        proof {
            assert forall|j: int| 0 <= j < n && #[trigger] seen@[j] implies reaches(
                all,
                i as int,
                j,
            ) by {
                if !seen0[j] {
                    lemma_edge_reaches(all, k as int, j);
                    assert(reaches(all, i as int, k as int));
                }
            }
            assert forall|x: int, y: int|
                0 <= x < n && seen@[x] && #[trigger] edge(all, x, y) implies seen@[y]
                || stack@.contains(x as usize) by {
                if x == k {
                    assert(seen@[y]);
                } else if seen0[x] {
                    if stack0.contains(x as usize) {
                        assert(popped.contains(x as usize));
                        assert(stack@.contains(x as usize));
                    } else {
                        assert(seen0[y]);
                        assert(seen@[y]);
                    }
                } else {
                    assert(edge(all, k as int, (x as usize) as int));
                    assert(stack@.contains(x as usize));
                }
            }
            assert forall|y: int| #[trigger] edge(all, i as int, y) implies seen@[y] by {
                assert(seen0[y]);
            }
        }
    }
    proof {
        assert forall|j: int| 0 <= j < n && reaches(all, i as int, j) implies #[trigger] seen@[j] by {
            let m = choose|m: nat| m > 0 && #[trigger] leads(all, i as int, j, m);
            assert forall|x: int, y: int|
                0 <= x < seen@.len() && seen@[x] && #[trigger] edge(all, x, y) implies seen@[y] by {
                assert(!stack@.contains(x as usize));
            }
            lemma_closed(all, seen@, i as int, j, m);
        }
    }
    seen
}

/// Tells of every two nodes whether the first reaches the second.
fn find_all_reached(g: &Vec<Vec<bool>>) -> (r: Vec<Vec<bool>>)
    requires
        is_square(g.deep_view()),
    ensures
        r@.len() == g@.len(),
        forall|i: int| 0 <= i < g@.len() ==> (#[trigger] r@[i])@.len() == g@.len(),
        forall|i: int, j: int|
            0 <= i < g@.len() && 0 <= j < g@.len() ==> #[trigger] r@[i]@[j] == reaches(
                g.deep_view(),
                i,
                j,
            ),
{
    let mut r: Vec<Vec<bool>> = Vec::new();
    let mut i: usize = 0;
    while i < g.len()
        invariant
            i <= g@.len(),
            is_square(g.deep_view()),
            r@.len() == i,
            forall|k: int| 0 <= k < i ==> (#[trigger] r@[k])@.len() == g@.len(),
            forall|k: int, j: int|
                0 <= k < i && 0 <= j < g@.len() ==> #[trigger] r@[k]@[j] == reaches(
                    g.deep_view(),
                    k,
                    j,
                ),
        decreases g.len() - i,
    {
        let row: Vec<bool> = find_reached(g, i);
        r.push(row);
        i = i + 1;
    }
    r
}

// ---------------------------------------------------------------------------------------------
// Finding the depths
// ---------------------------------------------------------------------------------------------

/// The depth that `x` needs above those of the nodes that precede it.
fn deepen(
    g: &Vec<Vec<bool>>,
    reached: &Vec<Vec<bool>>,
    base: &Vec<u128>,
    depths: &Vec<u128>,
    x: usize,
    Ghost(round): Ghost<nat>,
    Ghost(bound): Ghost<nat>,
) -> (r: u128)
    requires
        is_square(g.deep_view()),
        x < g@.len(),
        reached@.len() == g@.len(),
        forall|i: int| 0 <= i < g@.len() ==> (#[trigger] reached@[i])@.len() == g@.len(),
        forall|i: int, j: int|
            0 <= i < g@.len() && 0 <= j < g@.len() ==> #[trigger] reached@[i]@[j] == reaches(
                g.deep_view(),
                i,
                j,
            ),
        base@.len() == g@.len(),
        depths@.len() == g@.len(),
        bound < u128::MAX,
        base@[x as int] <= bound,
        forall|y: int| 0 <= y < g@.len() ==> #[trigger] depths@[y] <= bound,
        forall|y: int|
            0 <= y < g@.len() && above(g.deep_view(), y).len() <= round ==> #[trigger] depths@[y]
                == depth(g.deep_view(), as_nats(base@), y),
    ensures
        r <= bound + 1,
        above(g.deep_view(), x as int).len() <= round + 1 ==> r == depth(
            g.deep_view(),
            as_nats(base@),
            x as int,
        ),
{
    let ghost all = g.deep_view();
    let ghost b = as_nats(base@);
    let n: usize = g.len();
    let mut r: u128 = base[x];
    let mut p: usize = 0;
    while p < n
        invariant
            p <= n == g@.len() == depths@.len() == reached@.len() == base@.len(),
            x < n,
            all == g.deep_view(),
            is_square(all),
            b == as_nats(base@),
            bound < u128::MAX,
            r <= bound + 1,
            forall|i: int| 0 <= i < n ==> (#[trigger] reached@[i])@.len() == n,
            forall|i: int, j: int|
                0 <= i < n && 0 <= j < n ==> #[trigger] reached@[i]@[j] == reaches(all, i, j),
            forall|y: int| 0 <= y < n ==> #[trigger] depths@[y] <= bound,
            forall|y: int|
                0 <= y < n && above(all, y).len() <= round ==> #[trigger] depths@[y] == depth(
                    all,
                    b,
                    y,
                ),
            above(all, x as int).len() <= round + 1 ==> r == depth_over(
                all,
                b,
                x as int,
                p as nat,
            ),
        decreases n - p,
    {
        proof {
            assert(all[p as int] == g@[p as int].deep_view());
            assert(all[p as int].len() == n);
            assert(all[p as int][x as int] == g@[p as int]@[x as int]);
            if precedes(all, p as int, x as int) {
                lemma_fewer_above(all, p as int, x as int);
            }
        }
        if g[p][x] && !reached[x][p] {
            assert(precedes(all, p as int, x as int));
            let next: u128 = depths[p] + 1;
            if next > r {
                r = next;
            }
        }
        p = p + 1;
    }
    r
}

/// Numbers as mathematical ones.
pub open spec fn as_nats(v: Seq<u128>) -> Seq<nat> {
    v.map_values(|x: u128| x as nat)
}

/// Finds the depths of all nodes.
pub(crate) fn find_depths(g: &Vec<Vec<bool>>, base: &Vec<u128>) -> (r: Vec<u128>)
    requires
        is_square(g.deep_view()),
        base@.len() == g@.len(),
        forall|x: int| 0 <= x < base@.len() ==> #[trigger] base@[x] <= usize::MAX,
    ensures
        r@.len() == g@.len(),
        forall|x: int|
            0 <= x < r@.len() ==> #[trigger] r@[x] == depth(g.deep_view(), as_nats(base@), x),
{
    let ghost all = g.deep_view();
    let ghost b = as_nats(base@);
    let n: usize = g.len();
    let reached: Vec<Vec<bool>> = find_all_reached(g);
    let mut depths: Vec<u128> = base.clone();
    assert(depths@ == base@);
    let mut round: usize = 0;
    proof {
        assert forall|y: int| 0 <= y < n && above(all, y).len() <= 0 implies #[trigger] depths@[y]
            == depth(all, b, y) by {
            lemma_above(all, y);
        }
    }
    while round < n
        invariant
            round <= n == g@.len() == base@.len() == depths@.len() == reached@.len(),
            all == g.deep_view(),
            is_square(all),
            b == as_nats(base@),
            forall|x: int| 0 <= x < n ==> #[trigger] base@[x] <= usize::MAX,
            forall|i: int| 0 <= i < n ==> (#[trigger] reached@[i])@.len() == n,
            forall|i: int, j: int|
                0 <= i < n && 0 <= j < n ==> #[trigger] reached@[i]@[j] == reaches(all, i, j),
            forall|y: int| 0 <= y < n ==> #[trigger] depths@[y] <= usize::MAX + round,
            forall|y: int|
                0 <= y < n && above(all, y).len() <= round ==> #[trigger] depths@[y] == depth(
                    all,
                    b,
                    y,
                ),
        decreases n - round,
    {
        let mut next: Vec<u128> = Vec::new();
        let mut x: usize = 0;
        while x < n
            invariant
                x <= n == g@.len() == base@.len() == depths@.len() == reached@.len(),
                round < n,
                next@.len() == x,
                all == g.deep_view(),
                is_square(all),
                b == as_nats(base@),
                forall|y: int| 0 <= y < n ==> #[trigger] base@[y] <= usize::MAX,
                forall|i: int| 0 <= i < n ==> (#[trigger] reached@[i])@.len() == n,
                forall|i: int, j: int|
                    0 <= i < n && 0 <= j < n ==> #[trigger] reached@[i]@[j] == reaches(all, i, j),
                forall|y: int| 0 <= y < n ==> #[trigger] depths@[y] <= usize::MAX + round,
                forall|y: int|
                    0 <= y < n && above(all, y).len() <= round ==> #[trigger] depths@[y] == depth(
                        all,
                        b,
                        y,
                    ),
                forall|y: int| 0 <= y < x ==> #[trigger] next@[y] <= usize::MAX + round + 1,
                forall|y: int|
                    0 <= y < x && above(all, y).len() <= round + 1 ==> #[trigger] next@[y]
                        == depth(all, b, y),
            decreases n - x,
        {
            let d: u128 = deepen(
                g,
                &reached,
                base,
                &depths,
                x,
                Ghost(round as nat),
                Ghost((usize::MAX + round) as nat),
            );
            next.push(d);
            x = x + 1;
        }
        depths = next;
        round = round + 1;
    }
    proof {
        assert forall|x: int| 0 <= x < depths@.len() implies #[trigger] depths@[x] == depth(
            all,
            b,
            x,
        ) by {
            lemma_above(all, x);
        }
    }
    depths
}

} // verus!
