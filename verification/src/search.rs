//! The A* search over a terrain grid, and the route reconstructor.

use vstd::prelude::*;

use crate::frontier::Frontier;
use crate::frontier::Node;
use crate::grid::Coord;
use crate::grid::TerrainGrid;
use crate::grid::TerrainKind;
use crate::grid::manhattan_distance;
use crate::grid::spec_kind_cost;
use crate::grid::spec_manhattan;

verus! {

/// Two coordinates one orthogonal step apart.
pub open spec fn adjacent(a: Coord, b: Coord) -> bool {
    spec_manhattan(a, b) == 1
}

/// What a returned route is: read from goal back toward the start, it
/// begins at the goal, ends one step away from the start, moves one
/// orthogonal step at a time, never enters a blocked or out-of-range cell,
/// and leaves the start itself out. An empty route stands for a query
/// whose start and goal coincide.
pub open spec fn route_ok(g: TerrainGrid, start: Coord, goal: Coord, r: Seq<Coord>) -> bool {
    &&& g.passable(start)
    &&& g.passable(goal)
    &&& if r.len() == 0 {
        start == goal
    } else {
        &&& start != goal
        &&& r[0] == goal
        &&& adjacent(start, r[r.len() - 1])
        &&& forall|i: int| 0 <= i < r.len() - 1 ==> adjacent(#[trigger] r[i + 1], r[i])
        &&& forall|i: int| 0 <= i < r.len() ==> g.passable(#[trigger] r[i]) && r[i] != start
    }
}

/// A solid blocked column `wx`, spanning the grid from its top edge to its
/// bottom edge, with the two endpoints strictly on opposite sides of it.
pub open spec fn wall_between(g: TerrainGrid, a: Coord, b: Coord, wx: u32) -> bool {
    &&& wx < g.spec_width()
    &&& forall|y: int|
        0 <= y < g.spec_height() ==> #[trigger] g.spec_kind_at_xy(wx as int, y)
            == TerrainKind::Blocked
    &&& ((a.x < wx && wx < b.x) || (b.x < wx && wx < a.x))
}

/// Number of `Some` entries in a table.
spec fn count_some<T>(s: Seq<Option<T>>) -> int
    decreases s.len(),
{
    if s.len() == 0 {
        0
    } else {
        count_some(s.drop_last()) + (if s.last() is Some {
            1int
        } else {
            0int
        })
    }
}

/// Sum of the values stored in a cost table.
spec fn sum_costs(s: Seq<Option<u64>>) -> int
    decreases s.len(),
{
    if s.len() == 0 {
        0
    } else {
        sum_costs(s.drop_last()) + (match s.last() {
            Some(v) => v as int,
            None => 0int,
        })
    }
}

/// The number of `Some` entries is at least zero and at most the length.
proof fn lemma_count_some_bounds<T>(s: Seq<Option<T>>)
    ensures
        0 <= count_some(s) <= s.len(),
    decreases s.len(),
{
    if s.len() > 0 {
        lemma_count_some_bounds(s.drop_last());
    }
}

/// The sum of a cost table is nonnegative.
proof fn lemma_sum_costs_nonneg(s: Seq<Option<u64>>)
    ensures
        sum_costs(s) >= 0,
    decreases s.len(),
{
    if s.len() > 0 {
        lemma_sum_costs_nonneg(s.drop_last());
    }
}

/// Effect of one table update on the count of `Some` entries.
proof fn lemma_count_some_update<T>(s: Seq<Option<T>>, i: int, v: Option<T>)
    requires
        0 <= i < s.len(),
    ensures
        count_some(s.update(i, v)) == count_some(s) - (if s[i] is Some {
            1int
        } else {
            0int
        }) + (if v is Some {
            1int
        } else {
            0int
        }),
    decreases s.len(),
{
    let t = s.update(i, v);
    if i == s.len() - 1 {
        assert(t.drop_last() =~= s.drop_last());
    } else {
        assert(t.drop_last() =~= s.drop_last().update(i, v));
        lemma_count_some_update(s.drop_last(), i, v);
    }
}

/// Effect of one table update on the sum of stored costs.
proof fn lemma_sum_costs_update(s: Seq<Option<u64>>, i: int, v: Option<u64>)
    requires
        0 <= i < s.len(),
    ensures
        sum_costs(s.update(i, v)) == sum_costs(s) - (match s[i] {
            Some(w) => w as int,
            None => 0int,
        }) + (match v {
            Some(w) => w as int,
            None => 0int,
        }),
    decreases s.len(),
{
    let t = s.update(i, v);
    if i == s.len() - 1 {
        assert(t.drop_last() =~= s.drop_last());
    } else {
        assert(t.drop_last() =~= s.drop_last().update(i, v));
        lemma_sum_costs_update(s.drop_last(), i, v);
    }
}

/// Predecessor recorded for a coordinate during one search.
spec fn pred_at(g: TerrainGrid, pred: Seq<Option<Coord>>, c: Coord) -> Option<Coord> {
    pred[g.spec_index_of(c)]
}

/// Best known cumulative cost recorded for a coordinate during one search.
spec fn cost_at(g: TerrainGrid, cost: Seq<Option<u64>>, c: Coord) -> Option<u64> {
    cost[g.spec_index_of(c)]
}

/// A sound predecessor link: both ends passable, one step apart, both
/// carrying a recorded cost, the cost strictly dropping toward the
/// predecessor unless the predecessor is the start itself, and the
/// recorded cost paying for the step from the predecessor, so that the
/// cost recorded at the goal pays for the whole reconstructed route.
spec fn link_ok(g: TerrainGrid, start: Coord, cost: Seq<Option<u64>>, c: Coord, p: Coord) -> bool {
    &&& g.passable(c)
    &&& g.passable(p)
    &&& adjacent(p, c)
    &&& cost_at(g, cost, p) is Some
    &&& cost_at(g, cost, c) is Some
    &&& (p != start ==> cost_at(g, cost, p)->0 < cost_at(g, cost, c)->0)
    &&& cost_at(g, cost, c)->0 >= spec_kind_cost(g.spec_kind_at(c)) + (if p == start {
        0int
    } else {
        cost_at(g, cost, p)->0 as int
    })
}

/// Joint invariant of the cost-so-far and predecessor tables: exactly the
/// coordinates with a predecessor, plus the start, carry a cost, and every
/// predecessor link is sound.
spec fn tables_ok(
    g: TerrainGrid,
    start: Coord,
    cost: Seq<Option<u64>>,
    pred: Seq<Option<Coord>>,
) -> bool {
    &&& cost.len() == g.spec_area()
    &&& pred.len() == g.spec_area()
    &&& g.passable(start)
    &&& cost[g.spec_index_of(start)] is Some
    &&& forall|i: int| 0 <= i < pred.len() && (#[trigger] pred[i]) is Some ==> cost[i] is Some
    &&& forall|i: int|
        0 <= i < cost.len() && (#[trigger] cost[i]) is Some ==> (pred[i] is Some || i
            == g.spec_index_of(start))
    &&& forall|c: Coord|
        g.in_bounds(c) && (#[trigger] pred_at(g, pred, c)) is Some ==> link_ok(
            g,
            start,
            cost,
            c,
            pred_at(g, pred, c)->0,
        )
}

/// Every recorded cost stays below a budget tied to how many cells have
/// been discovered, which keeps the arithmetic of the search inside `u64`.
spec fn costs_bounded(cost: Seq<Option<u64>>, pred: Seq<Option<Coord>>) -> bool {
    forall|i: int|
        0 <= i < cost.len() && (#[trigger] cost[i]) is Some ==> cost[i]->0 <= 8 * count_some(pred)
            + 8
}

/// Every queued coordinate is passable and carries a recorded cost.
spec fn frontier_ok(g: TerrainGrid, cost: Seq<Option<u64>>, q: Seq<Node>) -> bool {
    forall|j: int|
        0 <= j < q.len() ==> g.passable((#[trigger] q[j]).cell) && cost_at(g, cost, q[j].cell)
            is Some
}

/// Termination measure of the predecessor walk: the recorded cost strictly
/// drops along every link that does not come from the start.
spec fn walk_measure(g: TerrainGrid, cost: Seq<Option<u64>>, start: Coord, c: Coord) -> int {
    if c == start {
        0
    } else {
        cost_at(g, cost, c)->0 + 1
    }
}

/// A fresh table with one slot per grid cell.
fn none_table<T>(n: usize) -> (v: Vec<Option<T>>)
    ensures
        v@.len() == n,
        forall|i: int| 0 <= i < n ==> (#[trigger] v@[i]) is None,
{
    let mut v: Vec<Option<T>> = Vec::new();
    let mut k: usize = 0;
    while k < n
        invariant
            k <= n,
            v@.len() == k,
            forall|i: int| 0 <= i < k ==> (#[trigger] v@[i]) is None,
        decreases n - k,
    {
        v.push(None);
        k = k + 1;
    }
    v
}

/// Walks the predecessor links back from the goal and collects the route,
/// from the goal toward (and excluding) the start.
#[verifier::loop_isolation(false)]
fn reconstruct(
    grid: &TerrainGrid,
    start: Coord,
    goal: Coord,
    cost: &Vec<Option<u64>>,
    pred: &Vec<Option<Coord>>,
) -> (r: Vec<Coord>)
    requires
        grid.wf(),
        tables_ok(*grid, start, cost@, pred@),
        grid.passable(goal),
        start != goal,
        cost_at(*grid, cost@, goal) is Some,
    ensures
        route_ok(*grid, start, goal, r@),
        r@.len() >= 1,
        spec_route_cost(*grid, r@) <= cost_at(*grid, cost@, goal)->0,
        forall|i: int, j: int| 0 <= i < j < r@.len() ==> r@[i] != r@[j],
{
    let mut route: Vec<Coord> = Vec::new();
    let mut current: Coord = goal;
    while current != start
        invariant
            grid.passable(current),
            cost_at(*grid, cost@, current) is Some,
            forall|i: int|
                0 <= i < route@.len() ==> cost_at(*grid, cost@, #[trigger] route@[i]) is Some,
            current != start ==> forall|i: int|
                0 <= i < route@.len() ==> cost_at(*grid, cost@, current)->0 < cost_at(
                    *grid,
                    cost@,
                    #[trigger] route@[i],
                )->0,
            forall|i: int, j: int|
                #![trigger route@[i], route@[j]]
                0 <= i < j < route@.len() ==> cost_at(*grid, cost@, route@[j])->0 < cost_at(
                    *grid,
                    cost@,
                    route@[i],
                )->0,
            spec_route_cost(*grid, route@) + (if current == start {
                0int
            } else {
                cost_at(*grid, cost@, current)->0 as int
            }) <= cost_at(*grid, cost@, goal)->0,
            route@.len() == 0 ==> current == goal,
            route@.len() >= 1 ==> route@[0] == goal && adjacent(current, route@[route@.len() - 1]),
            forall|i: int|
                0 <= i < route@.len() - 1 ==> adjacent(#[trigger] route@[i + 1], route@[i]),
            forall|i: int|
                0 <= i < route@.len() ==> grid.passable(#[trigger] route@[i]) && route@[i] != start,
        decreases walk_measure(*grid, cost@, start, current),
    {
        let ghost r0 = route@;
        route.push(current);
        let ci = grid.index_of(current);
        proof {
            assert(route@.drop_last() =~= r0);
            assert(spec_route_cost(*grid, route@) == spec_route_cost(*grid, r0)
                + grid.spec_traversal_cost(current));
            grid.lemma_index_of_in_range(current);
            if grid.spec_index_of(current) == grid.spec_index_of(start) {
                grid.lemma_index_of_injective(current, start);
            }
            assert(pred_at(*grid, pred@, current) == pred@[ci as int]);
        }
        match pred[ci] {
            Some(p) => {
                proof {
                    assert(link_ok(*grid, start, cost@, current, p));
                }
                current = p;
            },
            None => {
                proof {
                    assert(false);
                }
            },
        }
    }
    proof {
        assert forall|i: int, j: int| 0 <= i < j < route@.len() implies route@[i] != route@[j] by {
            assert(cost_at(*grid, cost@, route@[j])->0 < cost_at(*grid, cost@, route@[i])->0);
        }
    }
    route
}

/// Whether some queue entry carries the coordinate.
spec fn in_queue(q: Seq<Node>, c: Coord) -> bool {
    exists|j: int| 0 <= j < q.len() && (#[trigger] q[j]).cell == c
}

/// Every passable cell one step away from an expanded cell has been
/// discovered: it carries a recorded cost.
spec fn expansion_closed(g: TerrainGrid, cost: Seq<Option<u64>>, exp: Set<Coord>) -> bool {
    forall|c: Coord, n: Coord|
        #![trigger exp.contains(c), adjacent(c, n)]
        exp.contains(c) && g.passable(n) && adjacent(c, n) ==> cost_at(g, cost, n) is Some
}

/// Once the queue has drained, the discovered cells are all expanded, so
/// the discovered set is closed under single steps; walking a route from
/// the start shows every one of its cells discovered.
proof fn lemma_route_discovered(
    g: TerrainGrid,
    cost: Seq<Option<u64>>,
    exp: Set<Coord>,
    start: Coord,
    r: Seq<Coord>,
    i: int,
)
    requires
        expansion_closed(g, cost, exp),
        forall|c: Coord|
            g.in_bounds(c) && (#[trigger] cost_at(g, cost, c)) is Some ==> exp.contains(c),
        g.passable(start),
        cost_at(g, cost, start) is Some,
        r.len() >= 1,
        adjacent(start, r[r.len() - 1]),
        forall|i2: int| 0 <= i2 < r.len() - 1 ==> adjacent(#[trigger] r[i2 + 1], r[i2]),
        forall|i2: int| 0 <= i2 < r.len() ==> g.passable(#[trigger] r[i2]),
        0 <= i < r.len(),
    ensures
        cost_at(g, cost, r[i]) is Some,
    decreases r.len() - i,
{
    if i == r.len() - 1 {
        assert(exp.contains(start));
        assert(adjacent(start, r[i]));
        assert(g.passable(r[i]));
    } else {
        lemma_route_discovered(g, cost, exp, start, r, i + 1);
        assert(exp.contains(r[i + 1]));
        assert(adjacent(r[i + 1], r[i]));
        assert(g.passable(r[i]));
    }
}

/// Distinct passable cells cannot outnumber the grid's cells, so a route
/// without repeats is no longer than the grid's area.
proof fn lemma_route_len_bounded(g: TerrainGrid, r: Seq<Coord>)
    requires
        forall|i: int, j: int| 0 <= i < j < r.len() ==> r[i] != r[j],
        forall|i: int| 0 <= i < r.len() ==> g.passable(#[trigger] r[i]),
    ensures
        r.len() <= g.spec_area(),
{
    let f = |c: Coord| g.spec_index_of(c);
    let idxs = r.map_values(f);
    assert forall|i: int, j: int|
        0 <= i < idxs.len() && 0 <= j < idxs.len() && i != j implies idxs[i] != idxs[j] by {
        if f(r[i]) == f(r[j]) {
            g.lemma_index_of_injective(r[i], r[j]);
        }
    }
    assert(idxs.no_duplicates());
    idxs.unique_seq_to_set();
    vstd::set_lib::lemma_int_range(0, g.spec_area());
    assert forall|x: int| idxs.to_set().contains(x) implies vstd::set_lib::set_int_range(
        0,
        g.spec_area(),
    ).contains(x) by {
        let i = choose|i: int| 0 <= i < idxs.len() && idxs[i] == x;
        g.lemma_index_of_in_range(r[i]);
    }
    vstd::set_lib::lemma_len_subset(
        idxs.to_set(),
        vstd::set_lib::set_int_range(0, g.spec_area()),
    );
}

/// Cost of the first `m` travel steps of a goal-first route: the cells a
/// walker entering from the start pays for first are the ones at the back
/// of the sequence.
spec fn prefix_cost(g: TerrainGrid, r: Seq<Coord>, m: int) -> int {
    spec_route_cost(g, r.subrange(r.len() - m, r.len() as int))
}

/// Route costs add over concatenation.
proof fn lemma_route_cost_concat(g: TerrainGrid, a: Seq<Coord>, b: Seq<Coord>)
    ensures
        spec_route_cost(g, a + b) == spec_route_cost(g, a) + spec_route_cost(g, b),
    decreases b.len(),
{
    if b.len() == 0 {
        assert(a + b =~= a);
    } else {
        assert((a + b).drop_last() =~= a + b.drop_last());
        assert((a + b).last() == b.last());
        lemma_route_cost_concat(g, a, b.drop_last());
    }
}

/// One more travel step pays for the cell stepped onto.
proof fn lemma_prefix_step(g: TerrainGrid, r: Seq<Coord>, m: int)
    requires
        0 <= m < r.len(),
    ensures
        prefix_cost(g, r, m + 1) == prefix_cost(g, r, m) + g.spec_traversal_cost(
            r[r.len() - m - 1],
        ),
{
    let n = r.len() as int;
    let single = r.subrange(n - m - 1, n - m);
    assert(r.subrange(n - m - 1, n) =~= single + r.subrange(n - m, n));
    lemma_route_cost_concat(g, single, r.subrange(n - m, n));
    assert(single.drop_last() =~= Seq::<Coord>::empty());
    assert(single.last() == r[n - m - 1]);
    assert(spec_route_cost(g, Seq::<Coord>::empty()) == 0);
    assert(spec_route_cost(g, single) == g.spec_traversal_cost(r[n - m - 1]));
}

/// The Manhattan heuristic undershoots what the rest of a route costs, so
/// a prefix cost plus the heuristic never exceeds the whole route's cost.
proof fn lemma_prefix_plus_heuristic(g: TerrainGrid, goal: Coord, r: Seq<Coord>, m: int)
    requires
        r.len() >= 1,
        r[0] == goal,
        forall|i: int| 0 <= i < r.len() - 1 ==> adjacent(#[trigger] r[i + 1], r[i]),
        1 <= m <= r.len(),
    ensures
        prefix_cost(g, r, m) + spec_manhattan(goal, r[r.len() - m]) <= spec_route_cost(g, r),
{
    let n = r.len() as int;
    if m == n {
        assert(r.subrange(0, n) =~= r);
    } else {
        let rest = r.subrange(0, n - m);
        assert(r =~= rest + r.subrange(n - m, n));
        lemma_route_cost_concat(g, rest, r.subrange(n - m, n));
        lemma_route_cost_at_least_len(g, rest);
        let c = r[n - m];
        assert(rest[0] == goal);
        assert(adjacent(r[(n - m - 1) + 1], r[n - m - 1]));
        assert(rest[rest.len() - 1] == r[n - m - 1]);
        assert forall|i: int| 0 <= i < rest.len() - 1 implies adjacent(
            #[trigger] rest[i + 1],
            rest[i],
        ) by {
            assert(rest[i + 1] == r[i + 1]);
            assert(rest[i] == r[i]);
        }
        lemma_chain_at_least_manhattan(c, goal, rest);
    }
}

/// Every queued entry for a cell other than the start was priced at that
/// cell's recorded cost plus its heuristic or higher; recorded costs only
/// fall after the entry is priced.
spec fn queue_sound(
    g: TerrainGrid,
    goal: Coord,
    start: Coord,
    cost: Seq<Option<u64>>,
    q: Seq<Node>,
) -> bool {
    forall|j: int|
        0 <= j < q.len() && (#[trigger] q[j]).cell != start ==> cost_at(g, cost, q[j].cell)->0
            + spec_manhattan(goal, q[j].cell) <= q[j].priority
}

/// A tightly expanded cell: its expansion relaxed its neighbors against
/// its current recorded cost, so every passable neighbor other than the
/// start is discovered at no more than that cost plus its own step cost.
spec fn tight_ok(g: TerrainGrid, start: Coord, cost: Seq<Option<u64>>, tight: Set<Coord>) -> bool {
    forall|c: Coord, n: Coord|
        #![trigger tight.contains(c), adjacent(c, n)]
        tight.contains(c) && g.passable(n) && adjacent(c, n) && n != start ==> g.passable(c)
            && cost_at(g, cost, n) is Some && cost_at(g, cost, n)->0 <= cost_at(g, cost, c)->0
            + spec_kind_cost(g.spec_kind_at(n))
}

/// A queue entry for `c` priced at its recorded cost plus heuristic or
/// below.
spec fn priced_entry(
    g: TerrainGrid,
    goal: Coord,
    cost: Seq<Option<u64>>,
    q: Seq<Node>,
    c: Coord,
) -> bool {
    exists|j: int|
        0 <= j < q.len() && (#[trigger] q[j]).cell == c && q[j].priority <= cost_at(g, cost, c)->0
            + spec_manhattan(goal, c)
}

/// Every discovered cell is tightly expanded or still owns a priced entry.
spec fn covered_tight(
    g: TerrainGrid,
    goal: Coord,
    cost: Seq<Option<u64>>,
    q: Seq<Node>,
    tight: Set<Coord>,
) -> bool {
    forall|c: Coord|
        g.in_bounds(c) && (#[trigger] cost_at(g, cost, c)) is Some ==> tight.contains(c)
            || priced_entry(g, goal, cost, q, c)
}

/// Once the start has been expanded, every passable cell next to it is
/// discovered at no more than its own step cost.
spec fn start_settled(g: TerrainGrid, start: Coord, cost: Seq<Option<u64>>) -> bool {
    forall|n: Coord|
        g.passable(n) && #[trigger] adjacent(start, n) ==> cost_at(g, cost, n) is Some && cost_at(
            g,
            cost,
            n,
        )->0 <= spec_kind_cost(g.spec_kind_at(n))
}

/// The cut argument: walking a route from the start, the first of its
/// cells that is not tightly expanded owns a priced queue entry, whose
/// priority the route's whole cost dominates; so a minimal queue priority
/// undercuts the cost of every route.
proof fn lemma_cut(
    g: TerrainGrid,
    goal: Coord,
    start: Coord,
    cost: Seq<Option<u64>>,
    q: Seq<Node>,
    tight: Set<Coord>,
    r: Seq<Coord>,
    m: int,
    p_min: int,
)
    requires
        tight_ok(g, start, cost, tight),
        covered_tight(g, goal, cost, q, tight),
        !tight.contains(goal),
        forall|j: int| 0 <= j < q.len() ==> p_min <= (#[trigger] q[j]).priority,
        r.len() >= 1,
        r[0] == goal,
        forall|i: int| 0 <= i < r.len() - 1 ==> adjacent(#[trigger] r[i + 1], r[i]),
        forall|i: int| 0 <= i < r.len() ==> g.passable(#[trigger] r[i]) && r[i] != start,
        1 <= m <= r.len(),
        cost_at(g, cost, r[r.len() - m]) is Some,
        cost_at(g, cost, r[r.len() - m])->0 <= prefix_cost(g, r, m),
    ensures
        p_min <= spec_route_cost(g, r),
    decreases r.len() - m,
{
    let c = r[r.len() - m];
    assert(g.passable(c));
    if !tight.contains(c) {
        let j = choose|j: int|
            0 <= j < q.len() && (#[trigger] q[j]).cell == c && q[j].priority <= cost_at(
                g,
                cost,
                c,
            )->0 + spec_manhattan(goal, c);
        lemma_prefix_plus_heuristic(g, goal, r, m);
        assert(p_min <= q[j].priority);
    } else {
        assert(m < r.len());
        let nx = r[r.len() - m - 1];
        assert(adjacent(r[(r.len() - m - 1) + 1], r[r.len() - m - 1]));
        assert(adjacent(c, nx));
        assert(g.passable(nx) && nx != start);
        lemma_prefix_step(g, r, m);
        lemma_cut(g, goal, start, cost, q, tight, r, m + 1, p_min);
    }
}

/// Finds a minimum-cost route from `start` to `goal` on the grid with a
/// Manhattan-guided best-first search.
///
/// On success the route is returned in reverse travel order, from the goal
/// back toward (and excluding) the start; the consumer walks it from its
/// end. The returned route costs no more than any valid route between the
/// two cells, visits no cell twice, and thus has at most one entry per
/// grid cell. A query whose endpoints coincide on a passable cell returns
/// the empty route. A query with a blocked or out-of-range endpoint, and
/// a query whose goal the search cannot reach, return `None`.
#[verifier::loop_isolation(false)]
#[verifier::rlimit(100)]
pub fn find_path(start: Coord, goal: Coord, grid: &TerrainGrid) -> (result: Option<Vec<Coord>>)
    requires
        grid.wf(),
    ensures
        result matches Some(r) ==> route_ok(*grid, start, goal, r@),
        result matches Some(r) ==> forall|r2: Seq<Coord>|
            route_ok(*grid, start, goal, r2) ==> spec_route_cost(*grid, r@) <= spec_route_cost(
                *grid,
                r2,
            ),
        result matches Some(r) ==> (forall|i: int, j: int|
            0 <= i < j < r@.len() ==> r@[i] != r@[j]) && r@.len() <= grid.spec_area(),
        result is None ==> forall|r: Seq<Coord>| !route_ok(*grid, start, goal, r),
        !(grid.passable(start) && grid.passable(goal)) ==> result is None,
        grid.passable(start) && start == goal ==> (result matches Some(r) && r@.len() == 0),
        (exists|wx: u32| wall_between(*grid, start, goal, wx)) ==> result is None,
{
    if !grid.is_passable(start) || !grid.is_passable(goal) {
        return None;
    }
    if start == goal {
        proof {
            if exists|wx: u32| wall_between(*grid, start, goal, wx) {
                let wx = choose|wx: u32| wall_between(*grid, start, goal, wx);
                assert(false);
            }
            assert(spec_route_cost(*grid, Seq::<Coord>::empty()) == 0);
            assert forall|r2: Seq<Coord>| route_ok(*grid, start, goal, r2) implies 0
                <= spec_route_cost(*grid, r2) by {
                lemma_route_cost_at_least_len(*grid, r2);
            }
            let w = grid.spec_width() as int;
            let h = grid.spec_height() as int;
            assert(0 <= w * h) by (nonlinear_arith)
                requires
                    0 <= w && 0 <= h,
            {}
        }
        return Some(Vec::new());
    }
    let area: usize = grid.cell_count();
    let mut cost: Vec<Option<u64>> = none_table(area);
    let mut pred: Vec<Option<Coord>> = none_table(area);
    let si: usize = grid.index_of(start);
    let mut frontier: Frontier = Frontier::new();
    frontier.push(0, start);
    cost.set(si, Some(0));
    let mut found: bool = false;
    let ghost mut expanded: Set<Coord> = Set::empty();
    let ghost mut tight: Set<Coord> = Set::empty();
    proof {
        lemma_count_some_bounds(pred@);
        lemma_sum_costs_nonneg(cost@);
        assert(cost@[si as int] is Some);
        assert forall|c: Coord|
            grid.in_bounds(c) && (#[trigger] cost_at(*grid, cost@, c)) is Some implies in_queue(
            frontier@,
            c,
        ) || expanded.contains(c) by {
            grid.lemma_index_of_in_range(c);
            if grid.spec_index_of(c) == si as int {
                grid.lemma_index_of_injective(c, start);
                assert(frontier@[0].cell == c);
            }
        }
        assert forall|c: Coord|
            grid.in_bounds(c) && (#[trigger] cost_at(*grid, cost@, c)) is Some implies tight
            .contains(c) || priced_entry(*grid, goal, cost@, frontier@, c) by {
            grid.lemma_index_of_in_range(c);
            if grid.spec_index_of(c) == si as int {
                grid.lemma_index_of_injective(c, start);
                assert(frontier@[0].cell == c && frontier@[0].priority <= cost_at(
                    *grid,
                    cost@,
                    c,
                )->0 + spec_manhattan(goal, c));
            }
        }
        assert forall|c: Coord|
            grid.in_bounds(c) && (#[trigger] pred_at(*grid, pred@, c)) is Some implies link_ok(
            *grid,
            start,
            cost@,
            c,
            pred_at(*grid, pred@, c)->0,
        ) by {
            grid.lemma_index_of_in_range(c);
        }
        assert(tables_ok(*grid, start, cost@, pred@));
        assert forall|j: int| 0 <= j < frontier@.len() implies grid.passable(
            (#[trigger] frontier@[j]).cell,
        ) && cost_at(*grid, cost@, frontier@[j].cell) is Some by {
            assert(frontier@[j].cell == start);
        }
    }
    while !found && frontier.len() > 0
        invariant
            tables_ok(*grid, start, cost@, pred@),
            costs_bounded(cost@, pred@),
            frontier_ok(*grid, cost@, frontier@),
            found ==> cost_at(*grid, cost@, goal) is Some,
            expansion_closed(*grid, cost@, expanded),
            !found ==> forall|c: Coord|
                grid.in_bounds(c) && (#[trigger] cost_at(*grid, cost@, c)) is Some ==> in_queue(
                    frontier@,
                    c,
                ) || expanded.contains(c),
            !expanded.contains(goal),
            queue_sound(*grid, goal, start, cost@, frontier@),
            tight_ok(*grid, start, cost@, tight),
            !found ==> covered_tight(*grid, goal, cost@, frontier@, tight),
            !tight.contains(goal),
            expanded.contains(start) ==> start_settled(*grid, start, cost@),
            !expanded.contains(start) ==> frontier@.len() == 1 && frontier@[0] == (Node {
                priority: 0u64,
                cell: start,
            }) && cost_at(*grid, cost@, start)->0 == 0,
            found ==> forall|r2: Seq<Coord>|
                route_ok(*grid, start, goal, r2) ==> cost_at(*grid, cost@, goal)->0
                    <= spec_route_cost(*grid, r2),
        decreases area - count_some(pred@), sum_costs(cost@), frontier@.len(),
    {
        let ghost q0 = frontier@;
        let node: Node = match frontier.pop_min() {
            Some(nd) => nd,
            None => unreached(),
        };
        let current: Coord = node.cell;
        let ghost c0 = count_some(pred@);
        let ghost s0 = sum_costs(cost@);
        let ghost l1 = frontier@.len() as int;
        let ghost kpop: int = choose|k: int|
            0 <= k < q0.len() && q0[k] == node && frontier@ == q0.remove(k) && (forall|j: int|
                0 <= j < q0.len() ==> node.priority <= (#[trigger] q0[j]).priority);
        proof {
            assert(grid.passable(current) && cost_at(*grid, cost@, current) is Some);
            q0.remove_ensures(kpop);
            assert forall|j: int| 0 <= j < frontier@.len() implies grid.passable(
                (#[trigger] frontier@[j]).cell,
            ) && cost_at(*grid, cost@, frontier@[j].cell) is Some by {
                if j < kpop {
                    assert(frontier@[j] == q0[j]);
                } else {
                    assert(frontier@[j] == q0[j + 1]);
                }
            }
            assert forall|c: Coord|
                grid.in_bounds(c) && (#[trigger] cost_at(*grid, cost@, c)) is Some implies in_queue(
                frontier@,
                c,
            ) || expanded.contains(c) || c == current by {
                if c != current && !expanded.contains(c) {
                    let j0 = choose|j0: int|
                        0 <= j0 < q0.len() && (#[trigger] q0[j0]).cell == c;
                    if j0 < kpop {
                        assert(frontier@[j0] == q0[j0]);
                    } else {
                        assert(q0[j0].cell != current);
                        assert(j0 != kpop);
                        assert(frontier@[j0 - 1] == q0[j0]);
                    }
                }
            }
            assert forall|j: int|
                0 <= j < frontier@.len() && (#[trigger] frontier@[j]).cell != start implies cost_at(
                *grid,
                cost@,
                frontier@[j].cell,
            )->0 + spec_manhattan(goal, frontier@[j].cell) <= frontier@[j].priority by {
                if j < kpop {
                    assert(frontier@[j] == q0[j]);
                } else {
                    assert(frontier@[j] == q0[j + 1]);
                }
            }
            assert forall|c: Coord|
                grid.in_bounds(c) && (#[trigger] cost_at(*grid, cost@, c)) is Some implies tight
                .contains(c) || priced_entry(*grid, goal, cost@, frontier@, c) || c == current by {
                if c != current && !tight.contains(c) {
                    let j0 = choose|j0: int|
                        0 <= j0 < q0.len() && (#[trigger] q0[j0]).cell == c && q0[j0].priority
                            <= cost_at(*grid, cost@, c)->0 + spec_manhattan(goal, c);
                    if j0 < kpop {
                        assert(frontier@[j0] == q0[j0]);
                    } else {
                        assert(q0[j0].cell != current);
                        assert(j0 != kpop);
                        assert(frontier@[j0 - 1] == q0[j0]);
                    }
                }
            }
        }
        if current == goal {
            found = true;
            proof {
                lemma_count_some_bounds(pred@);
                lemma_sum_costs_nonneg(cost@);
                if !expanded.contains(start) {
                    assert(current == q0[kpop].cell);
                    assert(false);
                }
                assert forall|r2: Seq<Coord>| route_ok(*grid, start, goal, r2) implies cost_at(
                    *grid,
                    cost@,
                    goal,
                )->0 <= spec_route_cost(*grid, r2) by {
                    let n2 = r2.len() as int;
                    assert(n2 >= 1);
                    let c1 = r2[n2 - 1];
                    assert(adjacent(start, c1));
                    assert(grid.passable(c1) && c1 != start);
                    assert(r2.subrange(n2, n2) =~= Seq::<Coord>::empty());
                    assert(spec_route_cost(*grid, Seq::<Coord>::empty()) == 0);
                    lemma_prefix_step(*grid, r2, 0);
                    assert(cost_at(*grid, cost@, c1)->0 <= prefix_cost(*grid, r2, 1));
                    lemma_cut(
                        *grid,
                        goal,
                        start,
                        cost@,
                        q0,
                        tight,
                        r2,
                        1,
                        node.priority as int,
                    );
                    assert(q0[kpop].cell == goal);
                    assert(spec_manhattan(goal, goal) == 0);
                    assert(cost_at(*grid, cost@, goal)->0 <= node.priority);
                }
            }
        } else {
            let neigh: Vec<Coord> = grid.neighbors(current);
            let ci: usize = grid.index_of(current);
            let cur_cost: u64 = match cost[ci] {
                Some(v) => v,
                None => unreached(),
            };
            let mut k: usize = 0;
            while k < neigh.len()
                invariant
                    k <= neigh@.len(),
                    tables_ok(*grid, start, cost@, pred@),
                    costs_bounded(cost@, pred@),
                    frontier_ok(*grid, cost@, frontier@),
                    cost@[ci as int] == Some(cur_cost),
                    count_some(pred@) >= c0,
                    count_some(pred@) == c0 ==> sum_costs(cost@) <= s0,
                    count_some(pred@) == c0 && sum_costs(cost@) == s0 ==> frontier@.len() == l1,
                    expansion_closed(*grid, cost@, expanded),
                    forall|c: Coord|
                        grid.in_bounds(c) && (#[trigger] cost_at(*grid, cost@, c))
                            is Some ==> in_queue(frontier@, c) || expanded.contains(c) || c
                            == current,
                    forall|j: int|
                        0 <= j < k ==> cost_at(*grid, cost@, #[trigger] neigh@[j]) is Some
                            && cost_at(*grid, cost@, neigh@[j])->0 <= cur_cost + spec_kind_cost(
                            grid.spec_kind_at(neigh@[j]),
                        ),
                    queue_sound(*grid, goal, start, cost@, frontier@),
                    tight_ok(*grid, start, cost@, tight),
                    forall|c: Coord|
                        grid.in_bounds(c) && (#[trigger] cost_at(*grid, cost@, c))
                            is Some ==> tight.contains(c) || priced_entry(
                            *grid,
                            goal,
                            cost@,
                            frontier@,
                            c,
                        ) || c == current,
                    !tight.contains(goal),
                    expanded.contains(start) ==> start_settled(*grid, start, cost@),
                decreases neigh@.len() - k,
            {
                let n: Coord = neigh[k];
                proof {
                    grid.lemma_index_of_in_range(n);
                    assert(n != current);
                    if grid.spec_index_of(n) == grid.spec_index_of(current) {
                        grid.lemma_index_of_injective(n, current);
                    }
                    lemma_count_some_bounds(pred@);
                    assert(cost@[ci as int] is Some);
                }
                let ni: usize = grid.index_of(n);
                let t: u64 = grid.traversal_cost(n);
                let new_cost: u64 = cur_cost + t;
                let is_less: bool = match cost[ni] {
                    Some(v) => new_cost < v,
                    None => false,
                };
                let undiscovered: bool = match pred[ni] {
                    Some(_) => false,
                    None => true,
                };
                if undiscovered || is_less {
                    let ghost cost0 = cost@;
                    let ghost pred0 = pred@;
                    let ghost q1 = frontier@;
                    cost.set(ni, Some(new_cost));
                    let h: u64 = manhattan_distance(goal, n);
                    frontier.push(new_cost + h, n);
                    pred.set(ni, Some(current));
                    proof {
                        let gv = *grid;
                        let nii = ni as int;
                        let sii = gv.spec_index_of(start);
                        lemma_count_some_update(pred0, nii, Some(current));
                        lemma_sum_costs_update(cost0, nii, Some(new_cost));
                        if !undiscovered && nii == sii {
                            gv.lemma_index_of_injective(n, start);
                        }
                        if undiscovered && !(n == start) && cost0[nii] is Some {
                            if nii == sii {
                                gv.lemma_index_of_injective(n, start);
                            }
                            assert(false);
                        }
                        assert forall|c2: Coord|
                            gv.in_bounds(c2) && (#[trigger] pred_at(gv, pred@, c2))
                                is Some implies link_ok(
                            gv,
                            start,
                            cost@,
                            c2,
                            pred_at(gv, pred@, c2)->0,
                        ) by {
                            gv.lemma_index_of_in_range(c2);
                            let i2 = gv.spec_index_of(c2);
                            if i2 == nii {
                                gv.lemma_index_of_injective(c2, n);
                                assert(pred_at(gv, pred@, c2) == Some(current));
                                assert(gv.spec_index_of(current) != nii);
                            } else {
                                assert(pred_at(gv, pred0, c2) == pred_at(gv, pred@, c2));
                                assert(link_ok(gv, start, cost0, c2, pred_at(gv, pred0, c2)->0));
                                let p2 = pred_at(gv, pred0, c2)->0;
                                gv.lemma_index_of_in_range(p2);
                                let ip2 = gv.spec_index_of(p2);
                                if ip2 == nii {
                                    gv.lemma_index_of_injective(p2, n);
                                    if n != start {
                                        assert(cost0[nii] is Some);
                                        assert(is_less);
                                    }
                                }
                            }
                        }
                        assert(tables_ok(gv, start, cost@, pred@));
                        lemma_count_some_bounds(pred0);
                        assert forall|i: int|
                            0 <= i < cost@.len() && (#[trigger] cost@[i]) is Some implies cost@[i]->0
                            <= 8 * count_some(pred@) + 8 by {
                            if i != nii {
                                assert(cost0[i] == cost@[i]);
                            }
                        }
                        assert(costs_bounded(cost@, pred@));
                        assert forall|j: int| 0 <= j < frontier@.len() implies gv.passable(
                            (#[trigger] frontier@[j]).cell,
                        ) && cost_at(gv, cost@, frontier@[j].cell) is Some by {
                            if j < frontier@.len() - 1 {
                                assert(gv.passable(frontier@[j].cell));
                                let jc = frontier@[j].cell;
                                gv.lemma_index_of_in_range(jc);
                                if gv.spec_index_of(jc) != nii {
                                    assert(cost_at(gv, cost0, jc) == cost_at(gv, cost@, jc));
                                }
                            }
                        }
                        assert forall|c2: Coord|
                            gv.in_bounds(c2) && cost_at(gv, cost0, c2) is Some implies (
                        #[trigger] cost_at(gv, cost@, c2)) is Some by {
                            gv.lemma_index_of_in_range(c2);
                        }
                        assert forall|c2: Coord, n2: Coord|
                            #![trigger expanded.contains(c2), adjacent(c2, n2)]
                            expanded.contains(c2) && gv.passable(n2) && adjacent(
                                c2,
                                n2,
                            ) implies cost_at(gv, cost@, n2) is Some by {
                            gv.lemma_index_of_in_range(n2);
                        }
                        assert forall|c2: Coord|
                            gv.in_bounds(c2) && (#[trigger] cost_at(gv, cost@, c2))
                                is Some implies in_queue(frontier@, c2) || expanded.contains(c2)
                            || c2 == current by {
                            gv.lemma_index_of_in_range(c2);
                            if gv.spec_index_of(c2) == nii {
                                gv.lemma_index_of_injective(c2, n);
                                assert(frontier@[frontier@.len() - 1].cell == c2);
                            } else {
                                assert(cost_at(gv, cost0, c2) == cost_at(gv, cost@, c2));
                                if !expanded.contains(c2) && c2 != current {
                                    let j0 = choose|j0: int|
                                        0 <= j0 < q1.len() && (#[trigger] q1[j0]).cell == c2;
                                    assert(frontier@[j0] == q1[j0]);
                                }
                            }
                        }
                        let tight0 = tight;
                        tight = tight.remove(n);
                        assert(cost_at(gv, cost@, n)->0 == new_cost);
                        assert forall|j: int|
                            0 <= j < frontier@.len() && (#[trigger] frontier@[j]).cell
                                != start implies cost_at(gv, cost@, frontier@[j].cell)->0
                            + spec_manhattan(goal, frontier@[j].cell) <= frontier@[j].priority by {
                            let jc = frontier@[j].cell;
                            if j < frontier@.len() - 1 {
                                assert(frontier@[j] == q1[j]);
                                assert(gv.passable(jc));
                                gv.lemma_index_of_in_range(jc);
                                if gv.spec_index_of(jc) == nii {
                                    gv.lemma_index_of_injective(jc, n);
                                    assert(cost_at(gv, cost0, jc) is Some);
                                    assert(is_less);
                                } else {
                                    assert(cost_at(gv, cost0, jc) == cost_at(gv, cost@, jc));
                                }
                            } else {
                                assert(frontier@[j].cell == n);
                            }
                        }
                        assert forall|c2: Coord, n2: Coord|
                            #![trigger tight.contains(c2), adjacent(c2, n2)]
                            tight.contains(c2) && gv.passable(n2) && adjacent(c2, n2) && n2
                                != start implies gv.passable(c2) && cost_at(gv, cost@, n2) is Some
                            && cost_at(gv, cost@, n2)->0 <= cost_at(gv, cost@, c2)->0
                            + spec_kind_cost(gv.spec_kind_at(n2)) by {
                            assert(tight0.contains(c2) && c2 != n);
                            assert(gv.passable(c2));
                            gv.lemma_index_of_in_range(n2);
                            gv.lemma_index_of_in_range(c2);
                            if gv.spec_index_of(c2) == nii {
                                gv.lemma_index_of_injective(c2, n);
                                assert(false);
                            }
                            assert(cost_at(gv, cost0, c2) == cost_at(gv, cost@, c2));
                            if gv.spec_index_of(n2) == nii {
                                gv.lemma_index_of_injective(n2, n);
                                assert(cost_at(gv, cost0, n2) is Some);
                                assert(is_less);
                            } else {
                                assert(cost_at(gv, cost0, n2) == cost_at(gv, cost@, n2));
                            }
                        }
                        assert forall|c2: Coord|
                            gv.in_bounds(c2) && (#[trigger] cost_at(gv, cost@, c2))
                                is Some implies tight.contains(c2) || priced_entry(
                            gv,
                            goal,
                            cost@,
                            frontier@,
                            c2,
                        ) || c2 == current by {
                            gv.lemma_index_of_in_range(c2);
                            if gv.spec_index_of(c2) == nii {
                                gv.lemma_index_of_injective(c2, n);
                                assert(frontier@[frontier@.len() - 1].cell == c2 && frontier@[
                                    frontier@.len() - 1].priority <= cost_at(gv, cost@, c2)->0
                                    + spec_manhattan(goal, c2));
                            } else {
                                assert(cost_at(gv, cost0, c2) == cost_at(gv, cost@, c2));
                                if c2 != current && !tight0.contains(c2) {
                                    let j0 = choose|j0: int|
                                        0 <= j0 < q1.len() && (#[trigger] q1[j0]).cell == c2 && q1[
                                            j0].priority <= cost_at(gv, cost0, c2)->0
                                            + spec_manhattan(goal, c2);
                                    assert(frontier@[j0] == q1[j0]);
                                }
                            }
                        }
                        if expanded.contains(start) {
                            assert forall|n2: Coord|
                                gv.passable(n2) && #[trigger] adjacent(start, n2) implies cost_at(
                                gv,
                                cost@,
                                n2,
                            ) is Some && cost_at(gv, cost@, n2)->0 <= spec_kind_cost(
                                gv.spec_kind_at(n2),
                            ) by {
                                gv.lemma_index_of_in_range(n2);
                                if gv.spec_index_of(n2) == nii {
                                    gv.lemma_index_of_injective(n2, n);
                                    assert(cost_at(gv, cost0, n2) is Some);
                                    assert(is_less);
                                } else {
                                    assert(cost_at(gv, cost0, n2) == cost_at(gv, cost@, n2));
                                }
                            }
                        }
                    }
                }
                proof {
                    if !(undiscovered || is_less) {
                        assert(pred@[ni as int] is Some);
                        assert(cost@[ni as int] is Some);
                    }
                    assert(cost_at(*grid, cost@, n) is Some);
                    assert(cost_at(*grid, cost@, n)->0 <= cur_cost + spec_kind_cost(
                        grid.spec_kind_at(n),
                    ));
                    assert forall|j: int|
                        0 <= j < k + 1 implies cost_at(*grid, cost@, #[trigger] neigh@[j]) is Some
                        && cost_at(*grid, cost@, neigh@[j])->0 <= cur_cost + spec_kind_cost(
                        grid.spec_kind_at(neigh@[j]),
                    ) by {
                        if j == k {
                            assert(neigh@[j] == n);
                        } else {
                            grid.lemma_index_of_in_range(neigh@[j]);
                            if grid.spec_index_of(neigh@[j]) == grid.spec_index_of(n) {
                                grid.lemma_index_of_injective(neigh@[j], n);
                            }
                        }
                    }
                }
                k = k + 1;
            }
            proof {
                lemma_count_some_bounds(pred@);
                lemma_sum_costs_nonneg(cost@);
                let exp0 = expanded;
                if !expanded.contains(start) {
                    assert(current == q0[kpop].cell);
                    assert(current == start);
                    assert(cur_cost == 0);
                }
                expanded = expanded.insert(current);
                assert forall|c2: Coord, n2: Coord|
                    #![trigger expanded.contains(c2), adjacent(c2, n2)]
                    expanded.contains(c2) && grid.passable(n2) && adjacent(c2, n2) implies cost_at(
                    *grid,
                    cost@,
                    n2,
                ) is Some by {
                    if c2 == current {
                        grid.lemma_neighbors_complete(current, n2);
                        let sn = grid.spec_neighbors(current);
                        let j = choose|j: int| 0 <= j < sn.len() && sn[j] == n2;
                        assert(cost_at(*grid, cost@, neigh@[j]) is Some);
                    } else {
                        assert(exp0.contains(c2));
                    }
                }
                assert forall|c2: Coord|
                    grid.in_bounds(c2) && (#[trigger] cost_at(*grid, cost@, c2))
                        is Some implies in_queue(frontier@, c2) || expanded.contains(c2) by {
                    if c2 == current {
                        assert(expanded.contains(c2));
                    }
                }
                let tight1 = tight;
                tight = tight.insert(current);
                assert(cost_at(*grid, cost@, current) == Some(cur_cost));
                assert forall|c2: Coord, n2: Coord|
                    #![trigger tight.contains(c2), adjacent(c2, n2)]
                    tight.contains(c2) && grid.passable(n2) && adjacent(c2, n2) && n2
                        != start implies grid.passable(c2) && cost_at(*grid, cost@, n2) is Some
                    && cost_at(*grid, cost@, n2)->0 <= cost_at(*grid, cost@, c2)->0
                    + spec_kind_cost(grid.spec_kind_at(n2)) by {
                    if c2 == current {
                        grid.lemma_neighbors_complete(current, n2);
                        let sn = grid.spec_neighbors(current);
                        let j = choose|j: int| 0 <= j < sn.len() && sn[j] == n2;
                        assert(cost_at(*grid, cost@, neigh@[j]) is Some && cost_at(
                            *grid,
                            cost@,
                            neigh@[j],
                        )->0 <= cur_cost + spec_kind_cost(grid.spec_kind_at(neigh@[j])));
                    } else {
                        assert(tight1.contains(c2));
                    }
                }
                assert forall|c2: Coord|
                    grid.in_bounds(c2) && (#[trigger] cost_at(*grid, cost@, c2))
                        is Some implies tight.contains(c2) || priced_entry(
                    *grid,
                    goal,
                    cost@,
                    frontier@,
                    c2,
                ) by {
                    if c2 == current {
                        assert(tight.contains(c2));
                    }
                }
                if !exp0.contains(start) {
                    assert forall|n2: Coord|
                        grid.passable(n2) && #[trigger] adjacent(start, n2) implies cost_at(
                        *grid,
                        cost@,
                        n2,
                    ) is Some && cost_at(*grid, cost@, n2)->0 <= spec_kind_cost(
                        grid.spec_kind_at(n2),
                    ) by {
                        grid.lemma_neighbors_complete(start, n2);
                        let sn = grid.spec_neighbors(start);
                        let j = choose|j: int| 0 <= j < sn.len() && sn[j] == n2;
                        assert(cost_at(*grid, cost@, neigh@[j]) is Some && cost_at(
                            *grid,
                            cost@,
                            neigh@[j],
                        )->0 <= cur_cost + spec_kind_cost(grid.spec_kind_at(neigh@[j])));
                    }
                }
                assert(!tight.contains(goal));
            }
        }
    }
    if found {
        proof {
            grid.lemma_index_of_in_range(goal);
            if grid.spec_index_of(goal) == grid.spec_index_of(start) {
                grid.lemma_index_of_injective(goal, start);
            }
        }
        let r = reconstruct(grid, start, goal, &cost, &pred);
        proof {
            if exists|wx: u32| wall_between(*grid, start, goal, wx) {
                let wx = choose|wx: u32| wall_between(*grid, start, goal, wx);
                lemma_wall_blocks(*grid, start, goal, r@, wx);
            }
            assert forall|r2: Seq<Coord>| route_ok(*grid, start, goal, r2) implies spec_route_cost(
                *grid,
                r@,
            ) <= spec_route_cost(*grid, r2) by {
                assert(cost_at(*grid, cost@, goal)->0 <= spec_route_cost(*grid, r2));
            }
            assert forall|i: int| 0 <= i < r@.len() implies grid.passable(#[trigger] r@[i]) by {}
            lemma_route_len_bounded(*grid, r@);
        }
        Some(r)
    } else {
        proof {
            assert forall|r: Seq<Coord>| !route_ok(*grid, start, goal, r) by {
                if route_ok(*grid, start, goal, r) {
                    assert(r.len() >= 1);
                    assert forall|c: Coord|
                        grid.in_bounds(c) && (#[trigger] cost_at(*grid, cost@, c))
                            is Some implies expanded.contains(c) by {
                        assert(!in_queue(frontier@, c));
                    }
                    lemma_route_discovered(*grid, cost@, expanded, start, r, 0);
                    assert(cost_at(*grid, cost@, r[0]) is Some);
                    grid.lemma_index_of_in_range(goal);
                    assert(expanded.contains(goal));
                    assert(false);
                }
            }
        }
        None
    }
}

/// Total traversal cost of a route: the sum of the traversal costs of the
/// cells it enters. The start cell, which a route leaves out, is free.
pub open spec fn spec_route_cost(g: TerrainGrid, r: Seq<Coord>) -> int
    decreases r.len(),
{
    if r.len() == 0 {
        0
    } else {
        spec_route_cost(g, r.drop_last()) + g.spec_traversal_cost(r.last())
    }
}

/// Sums the traversal costs of the cells of a route.
#[verifier::loop_isolation(false)]
pub fn route_cost(grid: &TerrainGrid, route: &Vec<Coord>) -> (total: u64)
    requires
        grid.wf(),
        route@.len() <= 0xFFFF_FFFF,
    ensures
        total == spec_route_cost(*grid, route@),
{
    let mut total: u64 = 0;
    let mut k: usize = 0;
    while k < route.len()
        invariant
            k <= route@.len(),
            total == spec_route_cost(*grid, route@.take(k as int)),
            total <= 8 * k,
        decreases route@.len() - k,
    {
        let t = grid.traversal_cost(route[k]);
        proof {
            assert(route@.take(k + 1).drop_last() =~= route@.take(k as int));
            assert(route@.take(k + 1).last() == route@[k as int]);
        }
        total = total + t;
        k = k + 1;
    }
    proof {
        assert(route@.take(route@.len() as int) =~= route@);
    }
    total
}

/// No route undercuts the Manhattan distance: a route between two cells
/// takes at least `spec_manhattan(start, goal)` steps, on any grid.
pub proof fn lemma_route_at_least_manhattan(
    g: TerrainGrid,
    start: Coord,
    goal: Coord,
    r: Seq<Coord>,
)
    requires
        route_ok(g, start, goal, r),
    ensures
        r.len() >= spec_manhattan(start, goal),
{
    if r.len() == 0 {
    } else {
        lemma_chain_at_least_manhattan(start, goal, r);
    }
}

/// Helper induction for `lemma_route_at_least_manhattan`, stated over the
/// chain conditions alone so the start may move along the route.
proof fn lemma_chain_at_least_manhattan(start: Coord, goal: Coord, r: Seq<Coord>)
    requires
        r.len() >= 1,
        r[0] == goal,
        adjacent(start, r[r.len() - 1]),
        forall|i: int| 0 <= i < r.len() - 1 ==> adjacent(#[trigger] r[i + 1], r[i]),
    ensures
        r.len() >= spec_manhattan(start, goal),
    decreases r.len(),
{
    if r.len() == 1 {
    } else {
        let last = r[r.len() - 1];
        let r2 = r.take(r.len() - 1);
        let j = r.len() - 2;
        assert(adjacent(r[j + 1], r[j]));
        assert(r2[r2.len() - 1] == r[r.len() - 2]);
        assert forall|i: int| 0 <= i < r2.len() - 1 implies adjacent(
            #[trigger] r2[i + 1],
            r2[i],
        ) by {
            assert(r2[i + 1] == r[i + 1]);
            assert(r2[i] == r[i]);
        }
        lemma_chain_at_least_manhattan(last, goal, r2);
    }
}

/// Every cell of a route costs at least one step.
proof fn lemma_route_cost_at_least_len(g: TerrainGrid, r: Seq<Coord>)
    ensures
        spec_route_cost(g, r) >= r.len(),
    decreases r.len(),
{
    if r.len() > 0 {
        lemma_route_cost_at_least_len(g, r.drop_last());
    }
}

/// The Manhattan heuristic never overstates a route's cost: on any grid, a
/// route between two cells costs at least their Manhattan distance. This
/// is what makes the heuristic admissible.
pub proof fn lemma_route_cost_at_least_manhattan(
    g: TerrainGrid,
    start: Coord,
    goal: Coord,
    r: Seq<Coord>,
)
    requires
        route_ok(g, start, goal, r),
    ensures
        spec_route_cost(g, r) >= spec_manhattan(start, goal),
{
    lemma_route_cost_at_least_len(g, r);
    lemma_route_at_least_manhattan(g, start, goal, r);
}

/// Cell-wise cost domination carries over to whole routes.
proof fn lemma_dominated_route_cost(g1: TerrainGrid, g2: TerrainGrid, r: Seq<Coord>)
    requires
        forall|c: Coord| #[trigger] g1.in_bounds(c) <==> g2.in_bounds(c),
        forall|c: Coord|
            g1.in_bounds(c) ==> spec_kind_cost(#[trigger] g1.spec_kind_at(c)) <= spec_kind_cost(
                g2.spec_kind_at(c),
            ),
    ensures
        spec_route_cost(g1, r) <= spec_route_cost(g2, r),
    decreases r.len(),
{
    if r.len() > 0 {
        lemma_dominated_route_cost(g1, g2, r.drop_last());
        assert(g1.in_bounds(r.last()) <==> g2.in_bounds(r.last()));
    }
}

/// Raising the traversal cost of cells, while leaving which cells may be
/// entered unchanged, never cheapens a route: every route legal on the
/// edited grid was already legal before the edit, at no greater cost. In
/// particular the minimum route cost can only stay or rise.
pub proof fn lemma_raised_costs_never_cheapen(
    g1: TerrainGrid,
    g2: TerrainGrid,
    start: Coord,
    goal: Coord,
    r: Seq<Coord>,
)
    requires
        route_ok(g2, start, goal, r),
        forall|c: Coord| #[trigger] g1.in_bounds(c) <==> g2.in_bounds(c),
        forall|c: Coord| g1.in_bounds(c) ==> (#[trigger] g1.passable(c) <==> g2.passable(c)),
        forall|c: Coord|
            g1.in_bounds(c) ==> spec_kind_cost(#[trigger] g1.spec_kind_at(c)) <= spec_kind_cost(
                g2.spec_kind_at(c),
            ),
    ensures
        route_ok(g1, start, goal, r),
        spec_route_cost(g1, r) <= spec_route_cost(g2, r),
{
    assert(g1.in_bounds(start) <==> g2.in_bounds(start));
    assert(g1.in_bounds(goal) <==> g2.in_bounds(goal));
    if r.len() > 0 {
        assert forall|i: int| 0 <= i < r.len() implies g1.passable(#[trigger] r[i]) && r[i]
            != start by {
            assert(g1.in_bounds(r[i]) <==> g2.in_bounds(r[i]));
        }
    }
    lemma_dominated_route_cost(g1, g2, r);
}

/// A route whose endpoints lie strictly on opposite sides of a column
/// must visit that column somewhere.
proof fn lemma_route_hits_column(start: Coord, goal: Coord, r: Seq<Coord>, wx: u32)
    requires
        r.len() >= 1,
        r[0] == goal,
        adjacent(start, r[r.len() - 1]),
        forall|i: int| 0 <= i < r.len() - 1 ==> adjacent(#[trigger] r[i + 1], r[i]),
        (start.x < wx && wx < goal.x) || (goal.x < wx && wx < start.x),
    ensures
        exists|i: int| 0 <= i < r.len() && (#[trigger] r[i]).x == wx,
    decreases r.len(),
{
    let last = r[r.len() - 1];
    if last.x == wx {
        assert((r[r.len() - 1]).x == wx);
    } else if r.len() == 1 {
        assert(false);
    } else {
        let r2 = r.take(r.len() - 1);
        let j = r.len() - 2;
        assert(adjacent(r[j + 1], r[j]));
        assert(r2[r2.len() - 1] == r[r.len() - 2]);
        assert forall|i: int| 0 <= i < r2.len() - 1 implies adjacent(
            #[trigger] r2[i + 1],
            r2[i],
        ) by {
            assert(r2[i + 1] == r[i + 1]);
            assert(r2[i] == r[i]);
        }
        lemma_route_hits_column(last, goal, r2, wx);
        let i = choose|i: int| 0 <= i < r2.len() && (#[trigger] r2[i]).x == wx;
        assert((r[i]).x == wx);
    }
}

/// No route can cross a solid blocked column that spans the grid from its
/// top edge to its bottom edge and separates the two endpoints.
pub proof fn lemma_wall_blocks(g: TerrainGrid, start: Coord, goal: Coord, r: Seq<Coord>, wx: u32)
    requires
        wall_between(g, start, goal, wx),
    ensures
        !route_ok(g, start, goal, r),
{
    if route_ok(g, start, goal, r) {
        assert(r.len() >= 1);
        lemma_route_hits_column(start, goal, r, wx);
        let i = choose|i: int| 0 <= i < r.len() && (#[trigger] r[i]).x == wx;
        assert(g.passable(r[i]));
        assert(g.spec_kind_at_xy(wx as int, r[i].y as int) == TerrainKind::Blocked);
        assert(false);
    }
}

} // verus!

