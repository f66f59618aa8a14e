//! The solving engine: choosing the next cell, propagating a fixed value
//! through the grid, and the solve loop that repeats both.

use crate::random::choose_from;
use crate::state::{
    cell_ok, cleared, col_points, count_bits, decode, grid_of, has_value, house_points, idx, lines,
    parse_error, peer, row_points, without, GameCell, GameState, ParseError, Point,
};
use rand::rngs::StdRng;
use vstd::prelude::*;

verus! {

/// Why a solve stopped without a full grid.
#[derive(Debug, Clone, Copy, PartialEq, Eq, Structural)]
pub enum SolveError {
    /// The puzzle text was refused.
    Parse(ParseError),
    /// An undecided cell has no value left: the guesses made so far cannot
    /// lead to a solution, and this engine does not backtrack.
    Contradiction,
}

/// Whether cell `c` is undecided and still allows value `v`.
pub open spec fn allows(c: GameCell, v: u16) -> bool {
    c matches GameCell::SuperState(m) && has_value(m, v as int)
}

proof fn lemma_without(c: GameCell, v: u16)
    requires
        cell_ok(c),
        1 <= v <= 9,
    ensures
        cell_ok(without(c, v)),
        without(without(c, v), v) == without(c, v),
        !allows(without(c, v), v),
        without(c, v) != c <==> allows(c, v),
        forall|w: u16| allows(without(c, v), w) ==> allows(c, w),
{
    if let GameCell::SuperState(m) = c {
        let n = cleared(m, v);
        assert(n <= 0x1ff && (n & (0x1ffu16 & !(1u16 << ((v - 1) as u16)))) == n && ((n >> ((v - 1)
            as u16)) & 1u16 != 1u16) && (n != m <==> (m >> ((v - 1) as u16)) & 1u16 == 1u16))
            by (bit_vector)
            requires
                m <= 0x1ff,
                1 <= v <= 9,
                n == m & (0x1ffu16 & !(1u16 << ((v - 1) as u16))),
        ;
        assert forall|w: u16| allows(without(c, v), w) implies allows(c, w) by {
            assert(((n >> ((w - 1) as u16)) & 1u16 == 1u16) ==> ((m >> ((w - 1) as u16)) & 1u16
                == 1u16)) by (bit_vector)
                requires
                    1 <= w <= 9,
                    n == m & (0x1ffu16 & !(1u16 << ((v - 1) as u16))),
            ;
        }
    }
}

proof fn lemma_idx(p: Point)
    requires
        p.in_grid(),
    ensures
        0 <= idx(p) < 81,
        idx(p) % 9 == p.x,
        idx(p) / 9 == p.y,
{
}

proof fn lemma_split(k: int)
    requires
        0 <= k < 81,
    ensures
        k == 9 * (k / 9) + k % 9,
        0 <= k % 9 < 9,
        0 <= k / 9 < 9,
        (k % 9) == 3 * ((k % 9) / 3) + (k % 9) % 3,
        (k / 9) == 3 * ((k / 9) / 3) + (k / 9) % 3,
{
}

proof fn lemma_house_offset(a: int, b: int)
    requires
        0 <= a < 3,
        0 <= b < 3,
    ensures
        (3 * b + a) % 3 == a,
        (3 * b + a) / 3 == b,
        0 <= 3 * b + a < 9,
{
}

/// The points that share a column, a row or a house with `source`: its
/// column, then its row, then its house, 27 points in all.
pub fn affected_cells(source: &Point) -> (r: Vec<Point>)
    requires
        source.in_grid(),
    ensures
        r@ == col_points(source.x) + row_points(source.y) + house_points(*source),
        forall|i: int| 0 <= i < 27 ==> (#[trigger] r@[i]).in_grid() && peer(idx(*source), idx(r@[i])),
        forall|k: int|
            0 <= k < 81 && peer(idx(*source), k) ==> exists|i: int|
                0 <= i < 27 && idx(#[trigger] r@[i]) == k,
{
    let mut cells: Vec<Point> = Vec::new();
    let mut col = GameState::in_col(source.x);
    let mut row = GameState::in_row(source.y);
    let mut house = GameState::in_house(source);
    let ghost c = col@;
    let ghost w = row@;
    let ghost h = house@;
    cells.append(&mut col);
    cells.append(&mut row);
    cells.append(&mut house);
    assert(cells@ == c + w + h);
    let ghost s = idx(*source);
    proof {
        lemma_idx(*source);
    }
    assert forall|i: int| 0 <= i < 27 implies (#[trigger] cells@[i]).in_grid() && peer(s, idx(cells@[i])) by {
        if i < 9 {
            assert(cells@[i] == c[i]);
            lemma_idx(c[i]);
        } else if i < 18 {
            assert(cells@[i] == w[i - 9]);
            lemma_idx(w[i - 9]);
        } else {
            assert(cells@[i] == h[i - 18]);
            lemma_house_offset((i - 18) % 3, (i - 18) / 3);
            lemma_idx(h[i - 18]);
        }
    }
    assert forall|k: int| 0 <= k < 81 && peer(s, k) implies exists|i: int|
        0 <= i < 27 && idx(#[trigger] cells@[i]) == k by {
        lemma_split(k);
        if k % 9 == source.x {
            assert(cells@[k / 9] == c[k / 9]);
            assert(idx(cells@[k / 9]) == k);
        } else if k / 9 == source.y {
            assert(cells@[9 + k % 9] == w[k % 9]);
            assert(idx(cells@[9 + k % 9]) == k);
        } else {
            let a = (k % 9) % 3;
            let b = (k / 9) % 3;
            let j = 3 * b + a;
            lemma_house_offset(a, b);
            assert(cells@[18 + j] == h[j]);
            assert(idx(cells@[18 + j]) == k);
        }
    }
    cells
}

/// Number of cells of `s` that are undecided and still allow `v`.
pub open spec fn count_allowing(s: Seq<GameCell>, v: u16) -> nat
    decreases s.len(),
{
    if s.len() == 0 {
        0
    } else {
        count_allowing(s.drop_last(), v) + if allows(s.last(), v) {
            1nat
        } else {
            0nat
        }
    }
}

proof fn lemma_count_update(s: Seq<GameCell>, i: int, c: GameCell, v: u16)
    requires
        0 <= i < s.len(),
    ensures
        count_allowing(s.update(i, c), v) + (if allows(s[i], v) {
            1nat
        } else {
            0nat
        }) == count_allowing(s, v) + (if allows(c, v) {
            1nat
        } else {
            0nat
        }),
    decreases s.len(),
{
    if i == s.len() - 1 {
        assert(s.update(i, c).drop_last() == s.drop_last());
    } else {
        lemma_count_update(s.drop_last(), i, c, v);
        assert(s.update(i, c).drop_last() == s.drop_last().update(i, c));
    }
}

/// Whether some point of `q` stands at position `k`.
pub open spec fn queued(q: Seq<Point>, k: int) -> bool {
    exists|i: int| 0 <= i < q.len() && #[trigger] idx(q[i]) == k
}

/// Whether the cell at position `k` differs between `g` and `o`.
pub open spec fn changed(g: Seq<GameCell>, o: Seq<GameCell>, k: int) -> bool {
    g[k] != o[k]
}

/// What propagating value `v` from position `s` may turn `o` into: each
/// cell is kept or loses `v`, nothing else.
pub open spec fn narrowed_by(g: Seq<GameCell>, o: Seq<GameCell>, v: u16) -> bool {
    forall|k: int| 0 <= k < 81 ==> #[trigger] g[k] == o[k] || g[k] == without(o[k], v)
}

/// Whether `path` leads from position `s` through cells that allow `v` in
/// `o`: each cell of it is undecided and allows `v`, the first shares a group
/// with `s`, and each next one shares a group with the one before it.
pub open spec fn chain(o: Seq<GameCell>, v: u16, s: int, path: Seq<int>) -> bool {
    &&& path.len() > 0
    &&& forall|i: int| 0 <= i < path.len() ==> 0 <= #[trigger] path[i] < 81 && allows(o[path[i]], v)
    &&& peer(s, path[0])
    &&& forall|i: int| 0 <= i < path.len() - 1 ==> peer(#[trigger] path[i], path[i + 1])
}

/// Whether some chain of cells allowing `v` links position `s` to `k`.
pub open spec fn linked(o: Seq<GameCell>, v: u16, s: int, k: int) -> bool {
    exists|path: Seq<int>| #[trigger] chain(o, v, s, path) && path.last() == k
}

/// The grid `o` after the value of the decided cell at `s` has spread:
/// every cell that a chain of cells allowing that value links to `s` loses
/// it, and no other cell changes.
pub open spec fn spread(o: Seq<GameCell>, s: int) -> Seq<GameCell> {
    let v = o[s]->Fixed_0;
    Seq::new(81, |k: int| if linked(o, v, s, k) { without(o[k], v) } else { o[k] })
}

proof fn lemma_chain_done(g: Seq<GameCell>, o: Seq<GameCell>, v: u16, s: int, path: Seq<int>)
    requires
        g.len() == 81,
        o.len() == 81,
        1 <= v <= 9,
        forall|i: int| 0 <= i < 81 ==> cell_ok(#[trigger] o[i]),
        forall|i: int| 0 <= i < 81 && peer(s, i) ==> #[trigger] g[i] == without(o[i], v),
        forall|j: int, i: int|
            0 <= j < 81 && 0 <= i < 81 && changed(g, o, j) && #[trigger] peer(j, i) ==> #[trigger] g[i]
                == without(o[i], v),
        chain(o, v, s, path),
    ensures
        g[path.last()] == without(o[path.last()], v),
    decreases path.len(),
{
    let n = path.len();
    assert(0 <= path[n - 1] < 81);
    if n > 1 {
        let p = path.drop_last();
        assert(chain(o, v, s, p)) by {
            assert forall|i: int| 0 <= i < p.len() - 1 implies peer(#[trigger] p[i], p[i + 1]) by {
                assert(p[i] == path[i] && p[i + 1] == path[i + 1]);
            }
            assert forall|i: int| 0 <= i < p.len() implies 0 <= #[trigger] p[i] < 81 && allows(o[p[i]], v) by {
                assert(p[i] == path[i]);
            }
        }
        lemma_chain_done(g, o, v, s, p);
        let j = path[n - 2];
        assert(p.last() == j);
        assert(0 <= j < 81 && allows(o[j], v));
        lemma_without(o[j], v);
        assert(changed(g, o, j));
        assert(peer(j, path[n - 1]));
    }
}

/// Propagates the value of the decided cell at `source`: every cell sharing
/// a group with it loses that value, and every cell that loses it passes the
/// loss on to the cells sharing a group with it, until nothing changes. So a
/// cell loses the value exactly when a chain of cells that allowed it links
/// the cell to `source`.
pub fn constrain(state: &mut GameState, source: &Point)
    requires
        old(state).wf(),
        source.in_grid(),
        old(state)@[idx(*source)] is Fixed,
    ensures
        final(state).wf(),
        ({
            let o = old(state)@;
            let g = final(state)@;
            let v = o[idx(*source)]->Fixed_0;
            &&& g == spread(o, idx(*source))
            &&& narrowed_by(g, o, v)
            &&& forall|k: int| 0 <= k < 81 && peer(idx(*source), k) ==> #[trigger] g[k] == without(o[k], v)
        }),
{
    let mut queue = affected_cells(source);
    let constrained_value = state.get(source);
    let ghost o = state@;
    let ghost s = idx(*source);
    let ghost v = constrained_value->Fixed_0;
    proof {
        lemma_idx(*source);
    }
    while queue.len() > 0
        invariant
            state.wf(),
            o.len() == 81,
            forall|i: int| 0 <= i < 81 ==> cell_ok(#[trigger] o[i]),
            0 <= s < 81,
            1 <= v <= 9,
            constrained_value == GameCell::Fixed(v),
            narrowed_by(state@, o, v),
            forall|i: int|
                0 <= i < queue@.len() ==> (#[trigger] queue@[i]).in_grid() && (peer(s, idx(queue@[i]))
                    || exists|j: int| 0 <= j < 81 && changed(state@, o, j) && #[trigger] peer(j, idx(queue@[i]))),
            forall|k: int|
                0 <= k < 81 && peer(s, k) ==> #[trigger] state@[k] == without(o[k], v) || queued(queue@, k),
            forall|j: int, k: int|
                0 <= j < 81 && 0 <= k < 81 && changed(state@, o, j) && #[trigger] peer(j, k) ==> #[trigger] state@[k]
                    == without(o[k], v) || queued(queue@, k),
            forall|j: int| 0 <= j < 81 && #[trigger] changed(state@, o, j) ==> linked(o, v, s, j),
        decreases count_allowing(state@, v), queue@.len(),
    {
        let ghost prev = state@;
        let ghost pq = queue@;
        let current = queue.pop().unwrap();
        let ghost k = idx(current);
        proof {
            lemma_idx(current);
            lemma_without(o[k], v);
            lemma_without(prev[k], v);
            assert(without(prev[k], v) == without(o[k], v));
        }
        let changed_now = state.get_mut(&current).constrain(&constrained_value);
        assert(state@ == prev.update(k, without(prev[k], v)));
        proof {
            lemma_count_update(prev, k, without(prev[k], v), v);
            assert forall|i: int| 0 <= i < 81 && changed(prev, o, i) implies changed(state@, o, i) by {
                if i == k {
                    lemma_without(o[k], v);
                }
            }
            assert forall|m: int| 0 <= m < 81 && m != k && queued(pq, m) implies queued(queue@, m) by {
                let w = choose|w: int| 0 <= w < pq.len() && #[trigger] idx(pq[w]) == m;
                assert(w != pq.len() - 1);
                assert(queue@[w] == pq[w]);
            }
        }
        if changed_now {
            let mut more = affected_cells(&current);
            let ghost qa = queue@;
            let ghost ma = more@;
            queue.append(&mut more);
            proof {
                assert(queue@ == qa + ma);
                assert(!changed(prev, o, k));
                assert forall|m: int| 0 <= m < 81 && queued(qa, m) implies queued(queue@, m) by {
                    let w = choose|w: int| 0 <= w < qa.len() && #[trigger] idx(qa[w]) == m;
                    assert(queue@[w] == qa[w]);
                }
                assert forall|m: int| 0 <= m < 81 && peer(k, m) implies queued(queue@, m) by {
                    let w = choose|w: int| 0 <= w < 27 && #[trigger] idx(ma[w]) == m;
                    assert(queue@[qa.len() + w] == ma[w]);
                }
                assert forall|i: int| 0 <= i < queue@.len() implies (#[trigger] queue@[i]).in_grid() && (
                peer(s, idx(queue@[i])) || exists|j: int|
                    0 <= j < 81 && changed(state@, o, j) && #[trigger] peer(j, idx(queue@[i]))) by {
                    if i < qa.len() {
                        assert(queue@[i] == pq[i]);
                    } else {
                        assert(queue@[i] == ma[i - qa.len()]);
                        assert(changed(state@, o, k));
                    }
                }
                assert forall|j: int| 0 <= j < 81 && #[trigger] changed(state@, o, j) implies linked(
                    o,
                    v,
                    s,
                    j,
                ) by {
                    if j == k {
                        let w = pq.len() - 1;
                        assert(pq[w] == current);
                        lemma_without(o[k], v);
                        assert(allows(o[k], v));
                        if peer(s, k) {
                            let path = seq![k];
                            assert(chain(o, v, s, path) && path.last() == k);
                        } else {
                            let i = choose|i: int| 0 <= i < 81 && changed(prev, o, i) && #[trigger] peer(i, k);
                            let p0 = choose|p0: Seq<int>| #[trigger] chain(o, v, s, p0) && p0.last() == i;
                            let path = p0.push(k);
                            assert(chain(o, v, s, path)) by {
                                assert forall|t: int| 0 <= t < path.len() - 1 implies peer(
                                    #[trigger] path[t],
                                    path[t + 1],
                                ) by {
                                    if t < p0.len() - 1 {
                                        assert(path[t] == p0[t] && path[t + 1] == p0[t + 1]);
                                    } else {
                                        assert(path[t] == i && path[t + 1] == k);
                                    }
                                }
                                assert forall|t: int| 0 <= t < path.len() implies 0 <= #[trigger] path[t] < 81
                                    && allows(o[path[t]], v) by {
                                    if t < p0.len() {
                                        assert(path[t] == p0[t]);
                                    }
                                }
                                assert(path[0] == p0[0]);
                            }
                            assert(path.last() == k);
                        }
                    } else {
                        assert(changed(prev, o, j));
                    }
                }
            }
        } else {
            proof {
                assert(state@ =~= prev);
                assert forall|i: int| 0 <= i < queue@.len() implies (#[trigger] queue@[i]).in_grid() && (
                peer(s, idx(queue@[i])) || exists|j: int|
                    0 <= j < 81 && changed(state@, o, j) && #[trigger] peer(j, idx(queue@[i]))) by {
                    assert(queue@[i] == pq[i]);
                }
            }
        }
    }
    proof {
        let g = state@;
        assert forall|k: int| 0 <= k < 81 && peer(s, k) implies #[trigger] g[k] == without(o[k], v) by {
            assert(!queued(queue@, k));
        }
        assert forall|j: int, k: int|
            0 <= j < 81 && 0 <= k < 81 && changed(g, o, j) && #[trigger] peer(j, k) implies #[trigger] g[k]
                == without(o[k], v) by {
            assert(!queued(queue@, k));
        }
        assert forall|k: int| 0 <= k < 81 implies #[trigger] g[k] == spread(o, s)[k] by {
            if linked(o, v, s, k) {
                let path = choose|path: Seq<int>| #[trigger] chain(o, v, s, path) && path.last() == k;
                lemma_chain_done(g, o, v, s, path);
            } else {
                assert(!changed(g, o, k));
            }
        }
        assert(g =~= spread(o, s));
    }
}

/// Number of values an undecided cell still allows; zero for a decided one.
pub open spec fn popc(c: GameCell) -> nat {
    match c {
        GameCell::SuperState(m) => count_bits(m, 16),
        GameCell::Fixed(_) => 0,
    }
}

/// An undecided cell with no value left.
pub open spec fn dead(c: GameCell) -> bool {
    c is SuperState && popc(c) == 0
}

proof fn lemma_popc(m: u16)
    requires
        m <= 0x1ff,
    ensures
        count_bits(m, 16) == decode(m, 9).len(),
        count_bits(m, 16) <= 16,
{
    assert(((m >> 9u16) & 1u16) != 1u16 && ((m >> 10u16) & 1u16) != 1u16 && ((m >> 11u16) & 1u16)
        != 1u16 && ((m >> 12u16) & 1u16) != 1u16 && ((m >> 13u16) & 1u16) != 1u16 && ((m >> 14u16)
        & 1u16) != 1u16 && ((m >> 15u16) & 1u16) != 1u16) by (bit_vector)
        requires
            m <= 0x1ff,
    ;
    assert(count_bits(m, 16) == count_bits(m, 9)) by {
        reveal_with_fuel(count_bits, 8);
    }
    crate::state::lemma_decode(m, 9);
    crate::state::lemma_count_bits_bound(m, 16);
}

/// Whether position `k` of `g` holds an undecided cell with no more values
/// left than any other undecided cell.
pub open spec fn is_min_cell(g: Seq<GameCell>, k: int) -> bool {
    &&& 0 <= k < 81
    &&& g[k] is SuperState
    &&& forall|j: int| 0 <= j < 81 && (#[trigger] g[j]) is SuperState ==> popc(g[k]) <= popc(g[j])
}

/// The positions, in ascending order, of the undecided cells with the
/// fewest values left: the cells among which the next guess is drawn.
pub fn fewest_values(state: &GameState) -> (r: Vec<usize>)
    requires
        state.wf(),
    ensures
        forall|i: int, j: int| 0 <= i < j < r@.len() ==> r@[i] < r@[j],
        forall|t: int| 0 <= t < r@.len() ==> is_min_cell(state@, #[trigger] r@[t] as int),
        forall|k: int| #[trigger] is_min_cell(state@, k) ==> r@.contains(k as usize),
        r@.len() == 0 <==> forall|k: int| 0 <= k < 81 ==> (#[trigger] state@[k]) is Fixed,
{
    let mut best: u32 = u32::MAX;
    let mut k: usize = 0;
    while k < 81
        invariant
            state.wf(),
            k <= 81,
            best == u32::MAX ==> forall|i: int| 0 <= i < k ==> (#[trigger] state@[i]) is Fixed,
            best != u32::MAX ==> exists|i: int|
                0 <= i < k && (#[trigger] state@[i]) is SuperState && popc(state@[i]) == best,
            forall|i: int| 0 <= i < k && (#[trigger] state@[i]) is SuperState ==> best <= popc(state@[i]),
        decreases 81 - k,
    {
        proof {
            lemma_split(k as int);
        }
        let cell = state.get(&Point::new(k % 9, k / 9));
        proof {
            if let GameCell::SuperState(m) = cell {
                lemma_popc(m);
            }
        }
        match cell.pop_count() {
            Some(n) => {
                if n < best {
                    best = n;
                }
            },
            None => {},
        }
        k = k + 1;
    }
    let mut ties: Vec<usize> = Vec::new();
    if best == u32::MAX {
        return ties;
    }
    let mut k: usize = 0;
    while k < 81
        invariant
            state.wf(),
            k <= 81,
            forall|i: int|
                0 <= i < 81 && (#[trigger] state@[i]) is SuperState ==> best <= popc(state@[i]),
            forall|t: int|
                0 <= t < ties@.len() ==> #[trigger] ties@[t] < k && state@[ties@[t] as int] is SuperState
                    && popc(state@[ties@[t] as int]) == best,
            forall|i: int, j: int| 0 <= i < j < ties@.len() ==> ties@[i] < ties@[j],
            forall|i: int|
                0 <= i < k && (#[trigger] state@[i]) is SuperState && popc(state@[i]) == best
                    ==> ties@.contains(i as usize),
        decreases 81 - k,
    {
        proof {
            lemma_split(k as int);
        }
        let cell = state.get(&Point::new(k % 9, k / 9));
        proof {
            if let GameCell::SuperState(m) = cell {
                lemma_popc(m);
            }
        }
        if cell.pop_count() == Some(best) {
            let ghost before = ties@;
            ties.push(k);
            proof {
                assert forall|i: int|
                    0 <= i < k && (#[trigger] state@[i]) is SuperState && popc(state@[i]) == best
                        implies ties@.contains(i as usize) by {
                    let t = choose|t: int| 0 <= t < before.len() && before[t] == i as usize;
                    assert(ties@[t] == i as usize);
                }
                assert(ties@[ties@.len() - 1] == k);
            }
        }
        k = k + 1;
    }
    proof {
        let i = choose|i: int| 0 <= i < 81 && (#[trigger] state@[i]) is SuperState && popc(state@[i]) == best;
        assert(ties@.contains(i as usize));
        assert forall|k: int| #[trigger] is_min_cell(state@, k) implies ties@.contains(k as usize) by {
            assert(popc(state@[k]) <= popc(state@[i]));
        }
        assert forall|t: int| 0 <= t < ties@.len() implies is_min_cell(state@, #[trigger] ties@[t] as int) by {
        }
    }
    ties
}

/// Picks the next cell to decide: one drawn from `rng` among those that
/// `fewest_values` lists. Fails with a contradiction when an undecided cell
/// has no value left, and gives `None` when every cell is decided.
pub fn lowest_entropy(state: &GameState, rng: &mut StdRng) -> (r: Result<Option<Point>, SolveError>)
    requires
        state.wf(),
    ensures
        r is Err <==> exists|k: int| 0 <= k < 81 && dead(#[trigger] state@[k]),
        r is Err ==> r == Err::<Option<Point>, SolveError>(SolveError::Contradiction),
        r == Ok::<Option<Point>, SolveError>(None) <==> forall|k: int|
            0 <= k < 81 ==> (#[trigger] state@[k]) is Fixed,
        r matches Ok(Some(p)) ==> {
            &&& p.in_grid()
            &&& is_min_cell(state@, idx(p))
            &&& popc(state@[idx(p)]) > 0
        },
{
    let mut k: usize = 0;
    while k < 81
        invariant
            state.wf(),
            k <= 81,
            forall|i: int| 0 <= i < k ==> !dead(#[trigger] state@[i]),
        decreases 81 - k,
    {
        proof {
            lemma_split(k as int);
        }
        let cell = state.get(&Point::new(k % 9, k / 9));
        proof {
            if let GameCell::SuperState(m) = cell {
                lemma_popc(m);
            }
        }
        if cell.pop_count() == Some(0) {
            return Err(SolveError::Contradiction);
        }
        k = k + 1;
    }
    let ties = fewest_values(state);
    match choose_from(&ties, rng) {
        Some(k) => {
            proof {
                let t = choose|t: int| 0 <= t < ties@.len() && ties@[t] == k;
                assert(is_min_cell(state@, ties@[t] as int));
                lemma_split(k as int);
            }
            Ok(Some(Point::new(k % 9, k / 9)))
        },
        None => Ok(None),
    }
}

/// Number of undecided cells in `s`.
pub open spec fn count_open(s: Seq<GameCell>) -> nat
    decreases s.len(),
{
    if s.len() == 0 {
        0
    } else {
        count_open(s.drop_last()) + if s.last() is SuperState {
            1nat
        } else {
            0nat
        }
    }
}

proof fn lemma_count_open_update(s: Seq<GameCell>, i: int, c: GameCell)
    requires
        0 <= i < s.len(),
    ensures
        count_open(s.update(i, c)) + (if s[i] is SuperState {
            1nat
        } else {
            0nat
        }) == count_open(s) + (if c is SuperState {
            1nat
        } else {
            0nat
        }),
    decreases s.len(),
{
    if i == s.len() - 1 {
        assert(s.update(i, c).drop_last() == s.drop_last());
    } else {
        lemma_count_open_update(s.drop_last(), i, c);
        assert(s.update(i, c).drop_last() == s.drop_last().update(i, c));
    }
}

proof fn lemma_count_open_same(s: Seq<GameCell>, t: Seq<GameCell>)
    requires
        s.len() == t.len(),
        forall|i: int| 0 <= i < s.len() ==> ((#[trigger] s[i]) is SuperState <==> t[i] is SuperState),
    ensures
        count_open(s) == count_open(t),
    decreases s.len(),
{
    if s.len() > 0 {
        lemma_count_open_same(s.drop_last(), t.drop_last());
    }
}

proof fn lemma_narrowed(g: Seq<GameCell>, o: Seq<GameCell>, v: u16)
    requires
        g.len() == 81,
        o.len() == 81,
        1 <= v <= 9,
        forall|i: int| 0 <= i < 81 ==> cell_ok(#[trigger] o[i]),
        narrowed_by(g, o, v),
    ensures
        forall|m: int|
            0 <= m < 81 ==> ((#[trigger] g[m]) is SuperState <==> o[m] is SuperState) && (g[m] is Fixed
                ==> g[m] == o[m]),
        forall|m: int, u: u16| 0 <= m < 81 && #[trigger] allows(g[m], u) ==> allows(o[m], u),
{
    assert forall|m: int, u: u16| 0 <= m < 81 && #[trigger] allows(g[m], u) implies allows(o[m], u) by {
        lemma_without(o[m], v);
    }
}

/// No decided value is still allowed by another cell of its groups.
pub open spec fn locally_consistent(g: Seq<GameCell>) -> bool {
    forall|j: int, k: int|
        0 <= j < 81 && 0 <= k < 81 && j != k && #[trigger] peer(j, k) && g[j] is Fixed ==> !allows(
            #[trigger] g[k],
            g[j]->Fixed_0,
        )
}

/// Every clue of `c` stands unchanged in `g`.
pub open spec fn keeps_clues(g: Seq<GameCell>, c: Seq<GameCell>) -> bool {
    forall|k: int| 0 <= k < 81 && (#[trigger] c[k]) is Fixed ==> g[k] == c[k]
}

/// Two decided cells of one group differ, unless both are clues of `c`.
pub open spec fn distinct_beyond_clues(g: Seq<GameCell>, c: Seq<GameCell>) -> bool {
    forall|j: int, k: int|
        0 <= j < 81 && 0 <= k < 81 && j != k && #[trigger] peer(j, k) && g[j] is Fixed && g[k] is Fixed
            && !(c[j] is Fixed && c[k] is Fixed) ==> #[trigger] g[j] != g[k]
}

/// No two clues of one group share a value.
pub open spec fn clues_consistent(c: Seq<GameCell>) -> bool {
    forall|j: int, k: int|
        0 <= j < 81 && 0 <= k < 81 && j != k && #[trigger] peer(j, k) && c[j] is Fixed && c[k] is Fixed
            ==> #[trigger] c[j] != c[k]
}

/// A complete grid: every cell decided, and in each row, column and house
/// the nine values pairwise distinct.
pub open spec fn valid_solution(g: Seq<GameCell>) -> bool {
    &&& forall|k: int| 0 <= k < 81 ==> (#[trigger] g[k]) is Fixed
    &&& forall|j: int, k: int|
        0 <= j < 81 && 0 <= k < 81 && j != k && #[trigger] peer(j, k) ==> #[trigger] g[j] != g[k]
}

/// What a successful solve of the puzzle `c` gives: every cell decided, the
/// clues kept, no value repeated within a group unless the clues themselves
/// repeat it, and so a complete valid grid whenever the clues agree.
pub open spec fn solves(g: Seq<GameCell>, c: Seq<GameCell>) -> bool {
    &&& forall|k: int| 0 <= k < 81 ==> (#[trigger] g[k]) is Fixed
    &&& keeps_clues(g, c)
    &&& distinct_beyond_clues(g, c)
    &&& clues_consistent(c) ==> valid_solution(g)
}

/// The grid `c` after each decided cell among the first `n` positions, in
/// order, has spread its value.
pub open spec fn propagated_upto(c: Seq<GameCell>, n: nat) -> Seq<GameCell>
    decreases n,
{
    if n == 0 {
        c
    } else {
        let g = propagated_upto(c, (n - 1) as nat);
        if g[n - 1] is Fixed {
            spread(g, n - 1)
        } else {
            g
        }
    }
}

/// The grid `c` after every decided cell, in order of position, has spread
/// its value: where solving starts from once the clues are propagated.
pub open spec fn propagated(c: Seq<GameCell>) -> Seq<GameCell> {
    propagated_upto(c, 81)
}

/// Decides the cell at `p` as `value`, one of the values it still allows,
/// and propagates that value.
pub fn step(state: &mut GameState, p: &Point, value: u16)
    requires
        old(state).wf(),
        p.in_grid(),
        old(state)@[idx(*p)] matches GameCell::SuperState(m) && has_value(m, value as int),
    ensures
        final(state).wf(),
        ({
            let o = old(state)@.update(idx(*p), GameCell::Fixed(value));
            let g = final(state)@;
            &&& g == spread(o, idx(*p))
            &&& narrowed_by(g, o, value)
            &&& forall|k: int| 0 <= k < 81 && peer(idx(*p), k) ==> #[trigger] g[k] == without(o[k], value)
        }),
{
    proof {
        lemma_idx(*p);
    }
    *state.get_mut(p) = GameCell::Fixed(value);
    constrain(state, p);
}

/// Solves a puzzle given as text, drawing every guess from `rng`.
///
/// The clues are propagated first; then, while an undecided cell is left,
/// one with the fewest values left is fixed to one of them at random and that
/// value is propagated. There is no backtracking: when a cell is left with no
/// value, the solve ends with `Contradiction`. Since a value spreads on
/// through every cell that loses it, this can come before any guess: a
/// clue's value leaves every blank that a chain of blanks links to the clue,
/// so a puzzle whose clues hold all nine digits, with its blanks so linked,
/// ends in `Contradiction` while its clues are propagated.
pub fn solve(problem: &str, rng: &mut StdRng) -> (r: Result<GameState, SolveError>)
    ensures
        match r {
            Ok(g) => parse_error(lines(problem@)) is None && g.wf() && solves(
                g@,
                grid_of(lines(problem@)),
            ),
            Err(SolveError::Parse(e)) => parse_error(lines(problem@)) == Some(e),
            Err(SolveError::Contradiction) => parse_error(lines(problem@)) is None,
        },
        parse_error(lines(problem@)) is None && (forall|k: int|
            0 <= k < 81 ==> (#[trigger] grid_of(lines(problem@))[k]) is Fixed) ==> r is Ok,
        parse_error(lines(problem@)) is None && (exists|k: int|
            0 <= k < 81 && dead(#[trigger] propagated(grid_of(lines(problem@)))[k])) ==> r == Err::<
            GameState,
            SolveError,
        >(SolveError::Contradiction),
{
    let mut state = match GameState::parse(problem) {
        Ok(s) => s,
        Err(e) => {
            return Err(SolveError::Parse(e));
        },
    };
    let ghost c = state@;
    let mut k: usize = 0;
    while k < 81
        invariant
            state.wf(),
            c.len() == 81,
            c == grid_of(lines(problem@)),
            k <= 81,
            state@ == propagated_upto(c, k as nat),
            forall|m: int|
                0 <= m < 81 ==> ((#[trigger] state@[m]) is Fixed <==> c[m] is Fixed) && (state@[m] is Fixed
                    ==> state@[m] == c[m]),
            forall|j: int, m: int|
                0 <= j < k && 0 <= m < 81 && j != m && #[trigger] peer(j, m) && state@[j] is Fixed
                    ==> !allows(#[trigger] state@[m], state@[j]->Fixed_0),
        decreases 81 - k,
    {
        proof {
            lemma_split(k as int);
        }
        let p = Point::new(k % 9, k / 9);
        if let GameCell::Fixed(_) = state.get(&p) {
            let ghost g0 = state@;
            constrain(&mut state, &p);
            proof {
                let v = g0[k as int]->Fixed_0;
                lemma_narrowed(state@, g0, v);
                assert forall|m: int| 0 <= m < 81 && peer(k as int, m) implies !allows(
                    #[trigger] state@[m],
                    v,
                ) by {
                    lemma_without(g0[m], v);
                }
            }
        }
        proof {
            assert(state@ == propagated_upto(c, (k + 1) as nat));
        }
        k = k + 1;
    }
    let ghost mut first = true;
    loop
        invariant
            first ==> state@ == propagated(c),
            !first ==> forall|m: int| 0 <= m < 81 ==> !dead(#[trigger] propagated(c)[m]),
            state.wf(),
            c.len() == 81,
            c == grid_of(lines(problem@)),
            parse_error(lines(problem@)) is None,
            keeps_clues(state@, c),
            (forall|m: int| 0 <= m < 81 ==> (#[trigger] c[m]) is Fixed) ==> forall|m: int|
                0 <= m < 81 ==> (#[trigger] state@[m]) is Fixed,
            locally_consistent(state@),
            distinct_beyond_clues(state@, c),
        decreases count_open(state@),
    {
        match lowest_entropy(&state, rng) {
            Err(e) => {
                return Err(e);
            },
            Ok(None) => {
                proof {
                    assert forall|m: int| 0 <= m < 81 implies !dead(#[trigger] propagated(c)[m]) by {
                        if first {
                            assert(!dead(state@[m]));
                        }
                    }
                    assert forall|j: int, m: int|
                        0 <= j < 81 && 0 <= m < 81 && j != m && #[trigger] peer(j, m) && clues_consistent(c)
                            implies #[trigger] state@[j] != state@[m] by {
                        if !(c[j] is Fixed && c[m] is Fixed) {
                        } else {
                            assert(c[j] != c[m]);
                        }
                    }
                }
                return Ok(state);
            },
            Ok(Some(p)) => {
                proof {
                    assert forall|m: int| 0 <= m < 81 implies !dead(#[trigger] propagated(c)[m]) by {
                        if first {
                            assert(!dead(state@[m]));
                        }
                    }
                    first = false;
                }
                let cell = state.get(&p);
                let ghost kp = idx(p);
                let ghost m0 = cell->SuperState_0;
                proof {
                    lemma_idx(p);
                    lemma_popc(m0);
                }
                match cell.random_potential(rng) {
                    Some(value) => {
                        let ghost g = state@;
                        let ghost g1 = g.update(kp, GameCell::Fixed(value));
                        step(&mut state, &p, value);
                        proof {
                            let g2 = state@;
                            lemma_narrowed(g2, g1, value);
                            lemma_count_open_update(g, kp, GameCell::Fixed(value));
                            lemma_count_open_same(g2, g1);
                            assert forall|j: int, m: int|
                                0 <= j < 81 && 0 <= m < 81 && j != m && #[trigger] peer(j, m) && g2[j] is Fixed
                                    implies !allows(#[trigger] g2[m], g2[j]->Fixed_0) by {
                                if j == kp {
                                    lemma_without(g1[m], value);
                                } else if m == kp {
                                } else {
                                    assert(g1[m] == g[m]);
                                    assert(!allows(g[m], g[j]->Fixed_0));
                                }
                            }
                            assert forall|j: int, m: int|
                                0 <= j < 81 && 0 <= m < 81 && j != m && #[trigger] peer(j, m) && g2[j] is Fixed
                                    && g2[m] is Fixed && !(c[j] is Fixed && c[m] is Fixed) implies #[trigger] g2[j]
                                    != g2[m] by {
                                if j == kp {
                                    assert(peer(m, j));
                                    assert(!allows(g[j], g[m]->Fixed_0));
                                } else if m == kp {
                                    assert(!allows(g[m], g[j]->Fixed_0));
                                } else {
                                    assert(g[j] != g[m]);
                                }
                            }
                        }
                    },
                    None => {
                        return Err(SolveError::Contradiction);
                    },
                }
            },
        }
    }
}

} // verus!
