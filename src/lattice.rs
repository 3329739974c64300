use vstd::array::spec_array_update;
use vstd::prelude::*;

verus! {

/// A lattice point of the 4D sample grid, given by its sample index on each axis.
pub type GridPoint = [u64; 4];

/// An edge of the grid: a lattice point and its forward neighbour along one axis.
pub type GridEdge = (GridPoint, GridPoint);

/// Every coordinate of `p` is one of the `n` sample indices `0 .. n`.
pub open spec fn in_grid(n: nat, p: GridPoint) -> bool {
    forall|a: int| 0 <= a < 4 ==> #[trigger] p[a] < n
}

/// `q` is `p` advanced by one sample along axis `a`, all other axes unchanged.
pub open spec fn steps_along(p: GridPoint, q: GridPoint, a: int) -> bool {
    &&& 0 <= a < 4
    &&& q[a] == p[a] + 1
    &&& forall|b: int| 0 <= b < 4 && b != a ==> #[trigger] q[b] == p[b]
}

/// `(p, q)` is an edge of the grid with `n` samples per axis, oriented from the
/// lower sample to the higher one.
pub open spec fn is_grid_edge(n: nat, p: GridPoint, q: GridPoint) -> bool {
    &&& in_grid(n, p)
    &&& in_grid(n, q)
    &&& exists|a: int| #[trigger] steps_along(p, q, a)
}

/// Number of edges of a 4D grid graph with `n` samples per axis: `4 n^3 (n - 1)`.
pub open spec fn edge_count(n: nat) -> nat {
    if n == 0 {
        0
    } else {
        (4 * n * n * n * (n - 1)) as nat
    }
}

/// The neighbour of `p` one sample further along axis `a`.
spec fn step_to(p: GridPoint, a: int) -> GridPoint {
    spec_array_update(p, a, (p[a] + 1) as u64)
}

/// The edge leaving `p` along axis `a`, if the neighbour stays inside the grid.
spec fn edge_along(n: nat, p: GridPoint, a: int) -> Seq<GridEdge> {
    if p[a] + 1 < n {
        seq![(p, step_to(p, a))]
    } else {
        Seq::empty()
    }
}

/// The edges leaving `p` along the axes `0 .. i`, in axis order.
spec fn edges_upto(n: nat, p: GridPoint, i: int) -> Seq<GridEdge>
    decreases i,
{
    if i <= 0 {
        Seq::empty()
    } else {
        edges_upto(n, p, i - 1) + edge_along(n, p, i - 1)
    }
}

/// 1 when the neighbour of sample `v` stays inside a grid of `n` samples.
spec fn forward(n: nat, v: u64) -> nat {
    if v + 1 < n {
        1
    } else {
        0
    }
}

/// Number of edges that leave the lattice point `p`.
spec fn forward_count(n: nat, p: GridPoint) -> nat {
    forward(n, p[0]) + forward(n, p[1]) + forward(n, p[2]) + forward(n, p[3])
}

proof fn lemma_step_to(n: nat, p: GridPoint, q: GridPoint, a: int)
    requires
        in_grid(n, p),
        n <= u64::MAX,
        p[a] + 1 < n,
        steps_along(p, q, a),
    ensures
        q == step_to(p, a),
{
    let t = step_to(p, a);
    assert(t@ == p@.update(a, (p[a] + 1) as u64));
    assert(q =~= t);
}

/// `e` leaves `p` along one of the axes `0 .. i`.
spec fn leaves_below(n: nat, p: GridPoint, e: GridEdge, i: int) -> bool {
    exists|a: int| 0 <= a < i && p[a] + 1 < n && e == (p, #[trigger] step_to(p, a))
}

/// Number of edges that leave `p` along the axes `0 .. i`.
spec fn forward_upto(n: nat, p: GridPoint, i: int) -> nat
    decreases i,
{
    if i <= 0 {
        0
    } else {
        forward_upto(n, p, i - 1) + forward(n, p[i - 1])
    }
}

proof fn lemma_step_to_facts(n: nat, p: GridPoint, a: int)
    requires
        in_grid(n, p),
        n <= u64::MAX,
        0 <= a < 4,
        p[a] + 1 < n,
    ensures
        steps_along(p, step_to(p, a), a),
        in_grid(n, step_to(p, a)),
        forall|b: int| 0 <= b < 4 && b != a ==> #[trigger] step_to(p, a)[b] == p[b],
        step_to(p, a)[a] == p[a] + 1,
{
    let t = step_to(p, a);
    assert(t@ == p@.update(a, (p[a] + 1) as u64));
}

proof fn lemma_edges_upto(n: nat, p: GridPoint, i: int)
    requires
        in_grid(n, p),
        n <= u64::MAX,
        0 <= i <= 4,
    ensures
        edges_upto(n, p, i).len() == forward_upto(n, p, i),
        forall|k: int|
            0 <= k < edges_upto(n, p, i).len() ==> leaves_below(n, p, #[trigger] edges_upto(n, p, i)[k], i),
        edges_upto(n, p, i).no_duplicates(),
        forall|a: int|
            0 <= a < i && p[a] + 1 < n ==> #[trigger] edges_upto(n, p, i).contains(
                (p, step_to(p, a)),
            ),
    decreases i,
{
    if i > 0 {
        lemma_edges_upto(n, p, i - 1);
        let s = edges_upto(n, p, i - 1);
        let e = edge_along(n, p, i - 1);
        let t = edges_upto(n, p, i);
        assert(t == s + e);
        if p[i - 1] + 1 < n {
            lemma_step_to_facts(n, p, i - 1);
            let x = (p, step_to(p, i - 1));
            assert(t == s.push(x));
            assert(t[s.len() as int] == x);
            assert forall|k: int| 0 <= k < s.len() implies #[trigger] t[k] != x by {
                assert(t[k] == s[k]);
                let a = choose|a: int| 0 <= a < i - 1 && p[a] + 1 < n && s[k] == (p, step_to(p, a));
                lemma_step_to_facts(n, p, a);
                assert(s[k].1[i - 1] == p[i - 1]);
            }
            assert forall|k: int| 0 <= k < t.len() implies leaves_below(n, p, #[trigger] t[k], i) by {
                if k < s.len() {
                    assert(t[k] == s[k]);
                    let a = choose|a: int| 0 <= a < i - 1 && p[a] + 1 < n && s[k] == (p, step_to(p, a));
                    assert(t[k] == (p, step_to(p, a)));
                } else {
                    assert(t[k] == (p, step_to(p, i - 1)));
                }
            }
            assert forall|a: int| 0 <= a < i && p[a] + 1 < n implies #[trigger] t.contains(
                (p, step_to(p, a)),
            ) by {
                if a < i - 1 {
                    assert(s.contains((p, step_to(p, a))));
                    let k = choose|k: int| 0 <= k < s.len() && s[k] == (p, step_to(p, a));
                    assert(t[k] == s[k]);
                } else {
                    assert(t[s.len() as int] == x);
                }
            }
        } else {
            assert(e =~= Seq::<GridEdge>::empty());
            assert(t =~= s);
            assert forall|k: int| 0 <= k < t.len() implies leaves_below(n, p, #[trigger] t[k], i) by {
                let a = choose|a: int| 0 <= a < i - 1 && p[a] + 1 < n && s[k] == (p, step_to(p, a));
                assert(t[k] == (p, step_to(p, a)));
            }
        }
    }
}

/// What the edges leaving one lattice point are.
proof fn lemma_edges_at(n: nat, p: GridPoint)
    requires
        in_grid(n, p),
        n <= u64::MAX,
    ensures
        edges_upto(n, p, 4).len() == forward_count(n, p),
        forall|k: int|
            0 <= k < edges_upto(n, p, 4).len() ==> (#[trigger] edges_upto(n, p, 4)[k]).0 == p
                && is_grid_edge(n, p, edges_upto(n, p, 4)[k].1),
        edges_upto(n, p, 4).no_duplicates(),
        forall|q: GridPoint| is_grid_edge(n, p, q) ==> #[trigger] edges_upto(n, p, 4).contains((p, q)),
{
    let s = edges_upto(n, p, 4);
    lemma_edges_upto(n, p, 4);
    reveal_with_fuel(forward_upto, 5);
    assert forall|k: int| 0 <= k < s.len() implies (#[trigger] s[k]).0 == p && is_grid_edge(
        n,
        p,
        s[k].1,
    ) by {
        let a = choose|a: int| 0 <= a < 4 && p[a] + 1 < n && s[k] == (p, step_to(p, a));
        lemma_step_to_facts(n, p, a);
    }
    assert forall|q: GridPoint| is_grid_edge(n, p, q) implies #[trigger] s.contains((p, q)) by {
        let a = choose|a: int| steps_along(p, q, a);
        lemma_step_to(n, p, q, a);
    }
}

/// `x` comes strictly before the point `(c0, c1, c2, c3)` in lexicographic order.
spec fn before(x: GridPoint, c0: int, c1: int, c2: int, c3: int) -> bool {
    ||| x[0] < c0
    ||| x[0] == c0 && x[1] < c1
    ||| x[0] == c0 && x[1] == c1 && x[2] < c2
    ||| x[0] == c0 && x[1] == c1 && x[2] == c2 && x[3] < c3
}

/// `s` holds exactly the edges whose lower end comes before `(c0, c1, c2, c3)`,
/// each once.
spec fn built(n: nat, s: Seq<GridEdge>, c0: int, c1: int, c2: int, c3: int) -> bool {
    &&& forall|k: int|
        0 <= k < s.len() ==> is_grid_edge(n, (#[trigger] s[k]).0, s[k].1) && before(
            s[k].0,
            c0,
            c1,
            c2,
            c3,
        )
    &&& s.no_duplicates()
    &&& forall|p: GridPoint, q: GridPoint|
        is_grid_edge(n, p, q) && before(p, c0, c1, c2, c3) ==> #[trigger] s.contains((p, q))
}

/// Appending the edges that leave `p` moves the frontier one point further.
proof fn lemma_built_step(n: nat, s: Seq<GridEdge>, p: GridPoint)
    requires
        n <= u64::MAX,
        in_grid(n, p),
        built(n, s, p[0] as int, p[1] as int, p[2] as int, p[3] as int),
    ensures
        built(n, s + edges_upto(n, p, 4), p[0] as int, p[1] as int, p[2] as int, p[3] + 1),
{
    let e = edges_upto(n, p, 4);
    let t = s + e;
    lemma_edges_at(n, p);
    assert forall|k: int| 0 <= k < t.len() implies is_grid_edge(n, (#[trigger] t[k]).0, t[k].1)
        && before(t[k].0, p[0] as int, p[1] as int, p[2] as int, p[3] + 1) by {
        if k < s.len() {
            assert(t[k] == s[k]);
        } else {
            assert(t[k] == e[k - s.len()]);
        }
    }
    assert forall|i: int, j: int| 0 <= i < t.len() && 0 <= j < t.len() && i != j implies t[i]
        != t[j] by {
        if i < s.len() && j < s.len() {
            assert(t[i] == s[i] && t[j] == s[j]);
        } else if i >= s.len() && j >= s.len() {
            assert(t[i] == e[i - s.len()] && t[j] == e[j - s.len()]);
        } else if i < s.len() {
            assert(t[i] == s[i] && t[j] == e[j - s.len()]);
            assert(before(s[i].0, p[0] as int, p[1] as int, p[2] as int, p[3] as int));
        } else {
            assert(t[j] == s[j] && t[i] == e[i - s.len()]);
            assert(before(s[j].0, p[0] as int, p[1] as int, p[2] as int, p[3] as int));
        }
    }
    assert forall|x: GridPoint, q: GridPoint|
        is_grid_edge(n, x, q) && before(
            x,
            p[0] as int,
            p[1] as int,
            p[2] as int,
            p[3] + 1,
        ) implies #[trigger] t.contains((x, q)) by {
        if before(x, p[0] as int, p[1] as int, p[2] as int, p[3] as int) {
            assert(s.contains((x, q)));
            let k = choose|k: int| 0 <= k < s.len() && s[k] == (x, q);
            assert(t[k] == s[k]);
        } else {
            assert(x =~= p);
            assert(e.contains((p, q)));
            let k = choose|k: int| 0 <= k < e.len() && e[k] == (p, q);
            assert(t[k + s.len()] == e[k]);
        }
    }
}

/// `j` capped at the last sample index `n - 1`.
spec fn capped(n: int, j: int) -> int {
    if j < n {
        j
    } else {
        n - 1
    }
}

/// Edges leaving the first `j` points of a line along the last axis, where the
/// three fixed coordinates contribute `s` forward edges per point.
spec fn count_w(n: int, s: int, j: int) -> int {
    j * s + capped(n, j)
}

spec fn count_z(n: int, s: int, k: int) -> int {
    k * (n * s + (n - 1)) + n * capped(n, k)
}

spec fn count_y(n: int, s: int, j: int) -> int {
    j * (n * n * s + 2 * n * (n - 1)) + n * n * capped(n, j)
}

spec fn count_x(n: int, i: int) -> int {
    i * (3 * n * n * (n - 1)) + n * n * n * capped(n, i)
}

proof fn lemma_count_w_step(n: int, s: int, j: int)
    requires
        0 <= j < n,
    ensures
        count_w(n, s, j) + s + (if j + 1 < n { 1int } else { 0 }) == count_w(n, s, j + 1),
{
    assert((j + 1) * s == j * s + s) by (nonlinear_arith);
}

proof fn lemma_count_z_step(n: int, s: int, k: int, b: int)
    requires
        0 <= k < n,
        b == (if k + 1 < n { 1int } else { 0 }),
    ensures
        count_z(n, s, k) + count_w(n, s + b, n) == count_z(n, s, k + 1),
{
    assert((k + 1) * (n * s + (n - 1)) == k * (n * s + (n - 1)) + (n * s + (n - 1)))
        by (nonlinear_arith);
    assert(n * (s + b) == n * s + n * b) by (nonlinear_arith);
    assert(n * capped(n, k + 1) == n * capped(n, k) + n * b) by (nonlinear_arith)
        requires
            capped(n, k + 1) == capped(n, k) + b,
    ;
}

proof fn lemma_count_y_step(n: int, s: int, j: int, b: int)
    requires
        0 <= j < n,
        b == (if j + 1 < n { 1int } else { 0 }),
    ensures
        count_y(n, s, j) + count_z(n, s + b, n) == count_y(n, s, j + 1),
{
    let a = n * n * s + 2 * n * (n - 1);
    assert((j + 1) * a == j * a + a) by (nonlinear_arith);
    assert(n * (n * (s + b) + (n - 1)) + n * (n - 1) == n * n * s + 2 * n * (n - 1) + n * n * b)
        by (nonlinear_arith);
    assert(n * n * capped(n, j + 1) == n * n * capped(n, j) + n * n * b) by (nonlinear_arith)
        requires
            capped(n, j + 1) == capped(n, j) + b,
    ;
}

proof fn lemma_count_x_step(n: int, i: int, b: int)
    requires
        0 <= i < n,
        b == (if i + 1 < n { 1int } else { 0 }),
    ensures
        count_x(n, i) + count_y(n, b, n) == count_x(n, i + 1),
{
    let a = 3 * n * n * (n - 1);
    assert((i + 1) * a == i * a + a) by (nonlinear_arith);
    assert(n * (n * n * b + 2 * n * (n - 1)) + n * n * (n - 1) == n * n * n * b + 3 * n * n * (n
        - 1))
        by (nonlinear_arith);
    assert(n * n * n * capped(n, i + 1) == n * n * n * capped(n, i) + n * n * n * b)
        by (nonlinear_arith)
        requires
            capped(n, i + 1) == capped(n, i) + b,
    ;
}

proof fn lemma_count_start(n: int, s: int)
    requires
        0 <= n,
    ensures
        count_x(n, 0) == 0,
        0 < n ==> count_y(n, s, 0) == 0 && count_z(n, s, 0) == 0 && count_w(n, s, 0) == 0,
{
    assert(0 * (3 * n * n * (n - 1)) + n * n * n * capped(n, 0) == 0) by (nonlinear_arith)
        requires
            n == 0 || capped(n, 0) == 0,
    ;
    assert(0 * (n * n * s + 2 * n * (n - 1)) == 0) by (nonlinear_arith);
    assert(0 * (n * s + (n - 1)) == 0) by (nonlinear_arith);
    assert(0 * s == 0) by (nonlinear_arith);
}

proof fn lemma_count_total(n: int)
    requires
        0 < n,
    ensures
        count_x(n, n) == edge_count(n as nat),
{
    assert(n * (3 * n * n * (n - 1)) + n * n * n * (n - 1) == 4 * n * n * n * (n - 1))
        by (nonlinear_arith);
}

/// Appends, in axis order, each edge from `p` to its forward neighbour that
/// stays inside a grid of `n` samples per axis.
fn push_edges_at(out: &mut Vec<GridEdge>, n: u64, p: GridPoint)
    requires
        in_grid(n as nat, p),
    ensures
        final(out)@ == old(out)@ + edges_upto(n as nat, p, 4),
{
    let ghost start = out@;
    let mut axis: usize = 0;
    while axis < 4
        invariant
            0 <= axis <= 4,
            in_grid(n as nat, p),
            out@ == start + edges_upto(n as nat, p, axis as int),
        decreases 4 - axis,
    {
        assert(edges_upto(n as nat, p, axis + 1) == edges_upto(n as nat, p, axis as int)
            + edge_along(n as nat, p, axis as int));
        if p[axis] + 1 < n {
            let mut q = p;
            q[axis] = p[axis] + 1;
            assert(q == step_to(p, axis as int));
            out.push((p, q));
            assert(out@ =~= start + edges_upto(n as nat, p, axis + 1));
        } else {
            assert(out@ =~= start + edges_upto(n as nat, p, axis + 1));
        }
        axis = axis + 1;
    }
}

/// Moving the frontier to a point with the same in-grid predecessors keeps `built`.
proof fn lemma_built_carry(
    n: nat,
    s: Seq<GridEdge>,
    a0: int,
    a1: int,
    a2: int,
    a3: int,
    b0: int,
    b1: int,
    b2: int,
    b3: int,
)
    requires
        built(n, s, a0, a1, a2, a3),
        forall|x: GridPoint|
            in_grid(n, x) ==> (before(x, a0, a1, a2, a3) <==> before(x, b0, b1, b2, b3)),
    ensures
        built(n, s, b0, b1, b2, b3),
{
}

/// The edges of the 4D grid with `sample_count` samples per axis: every pair of
/// lattice points that differ by one sample step along a single axis, listed
/// once each, from the lower point to the higher one. Lattice points are
/// visited in lexicographic order of their sample indices, and the edges
/// leaving a point in axis order.
pub fn generate_hypercube_edges(sample_count: u64) -> (r: Vec<GridEdge>)
    ensures
        r@.len() == edge_count(sample_count as nat),
        forall|k: int|
            0 <= k < r@.len() ==> is_grid_edge(sample_count as nat, (#[trigger] r@[k]).0, r@[k].1),
        forall|p: GridPoint, q: GridPoint|
            is_grid_edge(sample_count as nat, p, q) ==> #[trigger] r@.contains((p, q)),
        r@.no_duplicates(),
{
    let n = sample_count;
    let ghost g = n as nat;
    let ghost gi = n as int;
    let mut out: Vec<GridEdge> = Vec::new();
    proof {
        lemma_count_start(gi, 0);
    }
    let mut ix: u64 = 0;
    while ix < n
        invariant
            n == sample_count,
            g == n as nat,
            gi == n as int,
            ix <= n,
            built(g, out@, ix as int, 0, 0, 0),
            out@.len() == count_x(gi, ix as int),
        decreases n - ix,
    {
        let ghost fx = forward(g, ix) as int;
        proof {
            lemma_count_start(gi, fx);
        }
        let mut iy: u64 = 0;
        while iy < n
            invariant
                n == sample_count,
                g == n as nat,
                gi == n as int,
                ix < n,
                iy <= n,
                fx == forward(g, ix) as int,
                built(g, out@, ix as int, iy as int, 0, 0),
                out@.len() == count_x(gi, ix as int) + count_y(gi, fx, iy as int),
            decreases n - iy,
        {
            let ghost fy = forward(g, iy) as int;
            proof {
                lemma_count_start(gi, fx + fy);
            }
            let mut iz: u64 = 0;
            while iz < n
                invariant
                    n == sample_count,
                    g == n as nat,
                    gi == n as int,
                    ix < n,
                    iy < n,
                    iz <= n,
                    fx == forward(g, ix) as int,
                    fy == forward(g, iy) as int,
                    built(g, out@, ix as int, iy as int, iz as int, 0),
                    out@.len() == count_x(gi, ix as int) + count_y(gi, fx, iy as int) + count_z(
                        gi,
                        fx + fy,
                        iz as int,
                    ),
                decreases n - iz,
            {
                let ghost fz = forward(g, iz) as int;
                proof {
                    lemma_count_start(gi, fx + fy + fz);
                }
                let mut iw: u64 = 0;
                while iw < n
                    invariant
                        n == sample_count,
                        g == n as nat,
                        gi == n as int,
                        ix < n,
                        iy < n,
                        iz < n,
                        iw <= n,
                        fx == forward(g, ix) as int,
                        fy == forward(g, iy) as int,
                        fz == forward(g, iz) as int,
                        built(g, out@, ix as int, iy as int, iz as int, iw as int),
                        out@.len() == count_x(gi, ix as int) + count_y(gi, fx, iy as int)
                            + count_z(gi, fx + fy, iz as int) + count_w(
                            gi,
                            fx + fy + fz,
                            iw as int,
                        ),
                    decreases n - iw,
                {
                    let p: GridPoint = [ix, iy, iz, iw];
                    proof {
                        lemma_built_step(g, out@, p);
                        lemma_edges_at(g, p);
                        lemma_count_w_step(gi, fx + fy + fz, iw as int);
                    }
                    push_edges_at(&mut out, n, p);
                    iw = iw + 1;
                }
                proof {
                    lemma_count_z_step(gi, fx + fy, iz as int, fz);
                    lemma_built_carry(
                        g,
                        out@,
                        ix as int,
                        iy as int,
                        iz as int,
                        gi,
                        ix as int,
                        iy as int,
                        iz + 1,
                        0,
                    );
                }
                iz = iz + 1;
            }
            proof {
                lemma_count_y_step(gi, fx, iy as int, fy);
                lemma_built_carry(g, out@, ix as int, iy as int, gi, 0, ix as int, iy + 1, 0, 0);
            }
            iy = iy + 1;
        }
        proof {
            lemma_count_x_step(gi, ix as int, fx);
            lemma_built_carry(g, out@, ix as int, gi, 0, 0, ix + 1, 0, 0, 0);
        }
        ix = ix + 1;
    }
    proof {
        if gi > 0 {
            lemma_count_total(gi);
        }
        assert forall|p: GridPoint, q: GridPoint| is_grid_edge(g, p, q) implies #[trigger] out@.contains(
            (p, q),
        ) by {
            assert(p[0] < g);
        }
    }
    out
}

} // verus!
