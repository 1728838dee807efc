//! Wilson's algorithm: a loop-erased random walk from an unvisited cell
//! to the tree, committed path by path, until the tree spans the grid.
//! The committed masks keep mutual symmetry: an open bit always has the
//! matching bit back from the neighbor it points to.

use vstd::prelude::*;
use crate::grid::{manhattan, Direction, Grid};
use crate::maze::{has_bit, lemma_mask_zero_full, lemma_nibble_or, lemma_nibble_zero,
    lemma_reaches_refl, lemma_reaches_step, lemma_reaches_trans, lemma_reaches_widen,
    lemma_reaching_cell_open, lemma_set_bit, lemma_total_bits_push, lemma_total_bits_update,
    reaches, sym_ok, total_bits, Maze};
use crate::rng::MazeRng;

verus! {

/// How many cells of the tracking sequence are still outside the tree.
pub open spec fn count_false(s: Seq<bool>) -> nat
    decreases s.len(),
{
    if s.len() == 0 {
        0
    } else {
        count_false(s.drop_last()) + (if s.last() {
            0nat
        } else {
            1nat
        })
    }
}

proof fn lemma_count_false_push(s: Seq<bool>, b: bool)
    ensures
        count_false(s.push(b)) == count_false(s) + (if b {
            0nat
        } else {
            1nat
        }),
{
    assert(s.push(b).drop_last() =~= s);
}

proof fn lemma_count_false_update(s: Seq<bool>, i: int)
    requires
        0 <= i < s.len(),
        !s[i],
    ensures
        count_false(s) >= 1,
        count_false(s.update(i, true)) == count_false(s) - 1,
    decreases s.len(),
{
    if i == s.len() - 1 {
        assert(s.update(i, true).drop_last() =~= s.drop_last());
        assert(s.update(i, true).last());
    } else {
        assert(s.update(i, true).drop_last() =~= s.drop_last().update(i, true));
        lemma_count_false_update(s.drop_last(), i);
    }
}

proof fn lemma_count_false_le(s: Seq<bool>)
    ensures
        count_false(s) <= s.len(),
    decreases s.len(),
{
    if s.len() > 0 {
        lemma_count_false_le(s.drop_last());
    }
}

proof fn lemma_count_false_true_at(s: Seq<bool>, i: int)
    requires
        0 <= i < s.len(),
        s[i],
    ensures
        count_false(s) < s.len(),
    decreases s.len(),
{
    if i == s.len() - 1 {
        lemma_count_false_le(s.drop_last());
    } else {
        lemma_count_false_true_at(s.drop_last(), i);
    }
}

proof fn lemma_count_false_zero(s: Seq<bool>)
    requires
        count_false(s) == 0,
    ensures
        forall|j: int| 0 <= j < s.len() ==> s[j],
    decreases s.len(),
{
    if s.len() > 0 {
        lemma_count_false_zero(s.drop_last());
        assert forall|j: int| 0 <= j < s.len() implies s[j] by {
            if j < s.len() - 1 {
                assert(s.drop_last()[j]);
            } else {
                assert(s.last());
            }
        }
    }
}

/// Whether cell `i` lies on the walk's current path.
pub open spec fn in_path(p: Seq<usize>, i: int) -> bool {
    exists|k: int| 0 <= k < p.len() && p[k] == i
}

/// Every cell of a committed walk path reaches the path's end and is
/// reached from it, through the bits the commit opened.
proof fn lemma_path_reaches(masks: Seq<u8>, g: Grid, path: Seq<usize>, dirs: Seq<Direction>, k: int)
    requires
        g.wf(),
        masks.len() == g.area(),
        path.len() >= 1,
        dirs.len() == path.len() - 1,
        0 <= k < path.len(),
        forall|kk: int| 0 <= kk < path.len() ==> path[kk] < masks.len(),
        forall|kk: int|
            0 <= kk < dirs.len() ==> g.can_step(path[kk] as int, dirs[kk]) && path[kk + 1]
                == g.step(path[kk] as int, dirs[kk]),
        forall|kk: int|
            0 <= kk < dirs.len() ==> has_bit(masks[path[kk] as int], dirs[kk]) && has_bit(
                masks[path[kk + 1] as int],
                dirs[kk].opposite_spec(),
            ),
    ensures
        reaches(masks, g, path[k] as int, path.last() as int),
        reaches(masks, g, path.last() as int, path[k] as int),
    decreases path.len() - k,
{
    if k == path.len() - 1 {
        lemma_reaches_refl(masks, g, path[k] as int);
    } else {
        lemma_path_reaches(masks, g, path, dirs, k + 1);
        let a = path[k] as int;
        let b = path[k + 1] as int;
        lemma_reaches_step(masks, g, a, dirs[k]);
        g.lemma_step_reverse(a, dirs[k]);
        lemma_reaches_step(masks, g, b, dirs[k].opposite_spec());
        lemma_reaches_trans(masks, g, a, b, path.last() as int);
        lemma_reaches_trans(masks, g, path.last() as int, b, a);
    }
}

/// Opening one edge symmetrically (the bit toward the neighbor on one
/// cell, the bit back on the other) preserves mutual symmetry, keeps all
/// masks nibbles, and removes no open bit.
proof fn lemma_sym_open_edge(m0: Seq<u8>, g: Grid, a: int, d: Direction)
    requires
        g.wf(),
        m0.len() == g.area(),
        forall|i: int| 0 <= i < m0.len() ==> m0[i] < 16,
        sym_ok(m0, g),
        0 <= a < m0.len(),
        g.can_step(a, d),
    ensures
        ({
            let b = g.step(a, d);
            let m1 = m0.update(a, m0[a] | d.bit());
            let m2 = m1.update(b, m1[b] | d.opposite_spec().bit());
            &&& sym_ok(m2, g)
            &&& m2.len() == m0.len()
            &&& forall|i: int| 0 <= i < m2.len() ==> m2[i] < 16
            &&& forall|i: int, c: Direction|
                0 <= i < m0.len() && #[trigger] has_bit(m0[i], c) ==> has_bit(m2[i], c)
            &&& has_bit(m2[a], d)
            &&& has_bit(m2[b], d.opposite_spec())
        }),
{
    let b = g.step(a, d);
    let m1 = m0.update(a, m0[a] | d.bit());
    let m2 = m1.update(b, m1[b] | d.opposite_spec().bit());
    g.lemma_step_reverse(a, d);
    assert forall|i: int| 0 <= i < m2.len() implies m2[i] < 16 by {
        lemma_set_bit(m0[a], d, d);
        lemma_set_bit(m1[b], d.opposite_spec(), d);
    }
    assert forall|i: int, c: Direction|
        0 <= i < m0.len() && #[trigger] has_bit(m0[i], c) implies has_bit(m2[i], c) by {
        if i == a {
            lemma_set_bit(m0[a], d, c);
        }
        if i == b {
            lemma_set_bit(m0[b], d.opposite_spec(), c);
        }
    }
    assert(has_bit(m2[a], d)) by {
        lemma_set_bit(m0[a], d, d);
        lemma_set_bit(m1[b], d.opposite_spec(), d);
    }
    assert(has_bit(m2[b], d.opposite_spec())) by {
        lemma_set_bit(m1[b], d.opposite_spec(), d.opposite_spec());
    }
    assert forall|i: int, c: Direction|
        0 <= i < m2.len() && #[trigger] has_bit(m2[i], c) implies {
            &&& g.can_step(i, c)
            &&& 0 <= g.step(i, c) < m2.len()
            &&& has_bit(m2[g.step(i, c)], c.opposite_spec())
        } by {
        if i == a {
            lemma_set_bit(m0[a], d, c);
            if c == d {
                assert(has_bit(m2[b], d.opposite_spec()));
            } else {
                assert(has_bit(m0[a], c));
                let j = g.step(a, c);
                assert(has_bit(m0[j], c.opposite_spec()));
                if j == a {
                    lemma_set_bit(m0[a], d, c.opposite_spec());
                } else if j == b {
                    lemma_set_bit(m0[b], d.opposite_spec(), c.opposite_spec());
                }
            }
        } else if i == b {
            lemma_set_bit(m1[b], d.opposite_spec(), c);
            if c == d.opposite_spec() {
                assert(g.can_step(b, d.opposite_spec()));
                assert(g.step(b, d.opposite_spec()) == a);
                assert(has_bit(m2[a], d));
            } else {
                assert(has_bit(m0[b], c));
                let j = g.step(b, c);
                assert(has_bit(m0[j], c.opposite_spec()));
                if j == a {
                    lemma_set_bit(m0[a], d, c.opposite_spec());
                } else if j == b {
                    lemma_set_bit(m0[b], d.opposite_spec(), c.opposite_spec());
                }
            }
        } else {
            assert(m2[i] == m0[i]);
            assert(has_bit(m0[i], c));
            let j = g.step(i, c);
            assert(has_bit(m0[j], c.opposite_spec()));
            if j == a {
                lemma_set_bit(m0[a], d, c.opposite_spec());
            } else if j == b {
                lemma_set_bit(m0[b], d.opposite_spec(), c.opposite_spec());
            }
        }
    }
}

/// Whether `d` is the immediate reverse of the step the walk last took.
fn dir_excluded(prev: Option<Direction>, d: Direction) -> (r: bool)
    ensures
        r == match prev {
            Some(p) => p.opposite_spec() == d,
            None => false,
        },
{
    match prev {
        Some(p) => p.opposite() == d,
        None => false,
    }
}

/// A uniform draw among the in-bounds directions that are not the
/// immediate reverse of the previous step; when that set is empty (a
/// dead end of a one-cell-wide grid), the forced reverse is taken.
fn choose_dir(grid: &Grid, cell: usize, prev: Option<Direction>, rng: &mut MazeRng) -> (d:
    Direction)
    requires
        grid.wf(),
        grid.area() >= 2,
        cell < grid.area(),
        match prev {
            Some(p) => grid.can_step(cell as int, p.opposite_spec()),
            None => true,
        },
    ensures
        grid.can_step(cell as int, d),
        (grid.width >= 2 && grid.height >= 2 && (match prev {
            Some(p) => d == p.opposite_spec(),
            None => false,
        })) ==> forall|d2: Direction| grid.can_step(cell as int, d2) ==> d2 == d,
{
    // on a single-row or single-column grid the no-backtrack rule would
    // trap the walk in a dead end forever; there the walk is a plain
    // random walk (such a grid has exactly one spanning tree anyway)
    let prev = if grid.width == 1 || grid.height == 1 {
        None
    } else {
        prev
    };
    let l_ok = grid.can_step_exec(cell, Direction::Left) && !dir_excluded(prev, Direction::Left);
    let r_ok = grid.can_step_exec(cell, Direction::Right) && !dir_excluded(prev, Direction::Right);
    let u_ok = grid.can_step_exec(cell, Direction::Up) && !dir_excluded(prev, Direction::Up);
    let d_ok = grid.can_step_exec(cell, Direction::Down) && !dir_excluded(prev, Direction::Down);
    let mut opts: Vec<Direction> = Vec::new();
    if l_ok {
        opts.push(Direction::Left);
    }
    if r_ok {
        opts.push(Direction::Right);
    }
    if u_ok {
        opts.push(Direction::Up);
    }
    if d_ok {
        opts.push(Direction::Down);
    }
    proof {
        assert(forall|kk: int| 0 <= kk < opts@.len() ==> grid.can_step(cell as int, opts@[kk]));
        assert(match prev {
            Some(p) => forall|kk: int| 0 <= kk < opts@.len() ==> opts@[kk] != p.opposite_spec(),
            None => true,
        });
    }
    if opts.len() > 0 {
        let k = rng.below(opts.len());
        let d = opts[k];
        assert(grid.can_step(cell as int, d));
        assert(match prev {
            Some(p) => d != p.opposite_spec(),
            None => true,
        });
        d
    } else {
        match prev {
            Some(p) => {
                let e = p.opposite();
                assert forall|d2: Direction| grid.can_step(cell as int, d2) implies d2 == e by {
                    if d2 == Direction::Left {
                        assert(!l_ok);
                    } else if d2 == Direction::Right {
                        assert(!r_ok);
                    } else if d2 == Direction::Up {
                        assert(!u_ok);
                    } else {
                        assert(!d_ok);
                    }
                }
                e
            },
            None => {
                proof {
                    grid.lemma_some_step(cell as int);
                    let d0 = choose|dx: Direction| grid.can_step(cell as int, dx);
                    if d0 == Direction::Left {
                        assert(l_ok);
                    } else if d0 == Direction::Right {
                        assert(r_ok);
                    } else if d0 == Direction::Up {
                        assert(u_ok);
                    } else {
                        assert(d_ok);
                    }
                    assert(false);
                }
                Direction::Left
            },
        }
    }
}

/// The direction of the first step of a deterministic walk from `head`
/// toward `root`: columns are aligned first, then rows. Each step brings
/// the taxicab distance down by one.
fn toward_root(grid: &Grid, head: usize, root: usize) -> (d: Direction)
    requires
        grid.wf(),
        head < grid.area(),
        root < grid.area(),
        head != root,
    ensures
        grid.can_step(head as int, d),
        manhattan(*grid, grid.step(head as int, d), root as int) == manhattan(
            *grid,
            head as int,
            root as int,
        ) - 1,
{
    let (hr, hc) = grid.to_row_col(head);
    let (rr, rc) = grid.to_row_col(root);
    proof {
        grid.lemma_row_col(head as int);
        grid.lemma_row_col(root as int);
    }
    if hc < rc {
        proof {
            grid.lemma_step_row_col(head as int, Direction::Right);
        }
        Direction::Right
    } else if hc > rc {
        proof {
            grid.lemma_step_row_col(head as int, Direction::Left);
        }
        Direction::Left
    } else if hr < rr {
        proof {
            let w = grid.width as int;
            let h = grid.height as int;
            assert(hr * w + hc < w * h - w) by (nonlinear_arith)
                requires
                    w >= 1,
                    0 <= hc < w,
                    0 <= hr,
                    hr < h - 1,
            ;
            grid.lemma_step_row_col(head as int, Direction::Down);
        }
        Direction::Down
    } else {
        proof {
            let w = grid.width as int;
            assert(hr > rr) by {
                if hr == rr {
                    assert(head as int == hr * w + hc);
                    assert(root as int == rr * w + rc);
                }
            }
            assert(hr * w + hc >= w) by (nonlinear_arith)
                requires
                    w >= 1,
                    hc >= 0,
                    hr >= 1,
            ;
            grid.lemma_step_row_col(head as int, Direction::Up);
        }
        Direction::Up
    }
}

/// A uniform draw among the cells not yet in the tree.
fn pick_start(in_tree: &Vec<bool>, rng: &mut MazeRng) -> (s: usize)
    requires
        count_false(in_tree@) >= 1,
    ensures
        s < in_tree@.len(),
        !in_tree@[s as int],
{
    let n = in_tree.len();
    let mut spots: Vec<usize> = Vec::new();
    let mut i: usize = 0;
    while i < n
        invariant
            n == in_tree@.len(),
            i <= n,
            spots@.len() == count_false(in_tree@.take(i as int)),
            forall|k: int|
                0 <= k < spots@.len() ==> spots@[k] < n && !in_tree@[spots@[k] as int],
        decreases n - i,
    {
        proof {
            assert(in_tree@.take(i + 1).drop_last() =~= in_tree@.take(i as int));
            assert(in_tree@.take(i + 1).last() == in_tree@[i as int]);
        }
        if !in_tree[i] {
            spots.push(i);
        }
        i = i + 1;
    }
    proof {
        assert(in_tree@.take(n as int) =~= in_tree@);
    }
    let idx = rng.below(spots.len());
    spots[idx]
}

/// Generates a maze by Wilson's algorithm over `grid`, drawing every
/// random choice from `rng`. The result is a spanning tree: its open
/// bits are mutually symmetric, every cell is reachable from cell 0 by
/// accepted moves (and back), no cell of a multi-cell grid is isolated,
/// and the open bits count exactly `area - 1` bidirectional edges. A
/// one-cell grid comes out with the single mask 0.
pub fn generate(grid: Grid, rng: &mut MazeRng) -> (m: Maze)
    requires
        grid.wf(),
    ensures
        m.wf(),
        m.grid == grid,
        sym_ok(m.masks@, grid),
        grid.area() == 1 ==> m.masks@[0] == 0,
        forall|i: int|
            0 <= i < grid.area() ==> reaches(m.masks@, grid, 0, i) && reaches(m.masks@, grid, i, 0),
        grid.area() >= 2 ==> forall|i: int| 0 <= i < grid.area() ==> m.masks@[i] != 0,
        total_bits(m.masks@) == 2 * (grid.area() - 1),
{
    proof {
        assert(grid.width * grid.height >= 1) by (nonlinear_arith)
            requires
                grid.width >= 1,
                grid.height >= 1,
        ;
    }
    let area = grid.area_exec();
    let mut masks: Vec<u8> = Vec::new();
    let mut in_tree: Vec<bool> = Vec::new();
    let mut i0: usize = 0;
    while i0 < area
        invariant
            i0 <= area,
            masks@.len() == i0,
            in_tree@.len() == i0,
            forall|j: int| 0 <= j < i0 ==> masks@[j] == 0,
            forall|j: int| 0 <= j < i0 ==> !in_tree@[j],
            count_false(in_tree@) == i0,
            total_bits(masks@) == 0,
        decreases area - i0,
    {
        proof {
            lemma_count_false_push(in_tree@, false);
            lemma_total_bits_push(masks@, 0);
            lemma_nibble_zero();
        }
        masks.push(0);
        in_tree.push(false);
        i0 = i0 + 1;
    }
    let root = rng.below(area);
    proof {
        lemma_count_false_update(in_tree@, root as int);
    }
    in_tree.set(root, true);
    let mut remaining: usize = area - 1;
    proof {
        assert forall|i: int, d: Direction|
            0 <= i < masks@.len() && #[trigger] has_bit(masks@[i], d) implies {
                &&& grid.can_step(i, d)
                &&& 0 <= grid.step(i, d) < masks@.len()
                &&& has_bit(masks@[grid.step(i, d)], d.opposite_spec())
            } by {
            assert(masks@[i] == 0);
            lemma_mask_zero_full(d);
        }
        assert(sym_ok(masks@, grid));
        lemma_reaches_refl(masks@, grid, root as int);
        assert forall|i: int| 0 <= i < area && in_tree@[i] implies reaches(masks@, grid, i, root as int)
            && reaches(masks@, grid, root as int, i) by {
            assert(i == root as int);
        }
    }
    while remaining > 0
        invariant
            grid.wf(),
            area == grid.area(),
            root < area,
            masks@.len() == area,
            in_tree@.len() == area,
            remaining == count_false(in_tree@),
            in_tree@[root as int],
            forall|i: int| 0 <= i < area && !in_tree@[i] ==> masks@[i] == 0,
            forall|i: int| 0 <= i < area ==> masks@[i] < 16,
            sym_ok(masks@, grid),
            area == 1 ==> masks@[0] == 0,
            total_bits(masks@) == 2 * (area - 1 - remaining),
            forall|i: int|
                0 <= i < area && in_tree@[i] ==> reaches(masks@, grid, i, root as int) && reaches(
                    masks@,
                    grid,
                    root as int,
                    i,
                ),
        decreases remaining,
    {
        proof {
            lemma_count_false_true_at(in_tree@, root as int);
        }
        let start = pick_start(&in_tree, rng);
        let mut path: Vec<usize> = Vec::new();
        let mut dirs: Vec<Direction> = Vec::new();
        path.push(start);
        let mut fdir = Direction::Left;
        // the random walk gets a huge draw budget; if it were ever spent,
        // the walk finishes deterministically, straight toward the root
        let mut fuel: u64 = 0xffff_ffff_ffff_ffff;
        loop
            invariant
                root < area,
                in_tree@[root as int],
                grid.wf(),
                area == grid.area(),
                area >= 2,
                masks@.len() == area,
                in_tree@.len() == area,
                path@.len() >= 1,
                dirs@.len() == path@.len() - 1,
                forall|k: int| 0 <= k < path@.len() ==> path@[k] < area,
                forall|k: int| 0 <= k < path@.len() ==> !in_tree@[path@[k] as int],
                forall|k: int|
                    0 <= k < dirs@.len() ==> grid.can_step(path@[k] as int, dirs@[k])
                        && path@[k + 1] == grid.step(path@[k] as int, dirs@[k]),
                forall|k1: int, k2: int|
                    0 <= k1 < k2 < path@.len() ==> path@[k1] != path@[k2],
            ensures
                path@.len() >= 1,
                dirs@.len() == path@.len() - 1,
                forall|k: int| 0 <= k < path@.len() ==> path@[k] < area,
                forall|k: int| 0 <= k < path@.len() ==> !in_tree@[path@[k] as int],
                forall|k: int|
                    0 <= k < dirs@.len() ==> grid.can_step(path@[k] as int, dirs@[k])
                        && path@[k + 1] == grid.step(path@[k] as int, dirs@[k]),
                forall|k1: int, k2: int|
                    0 <= k1 < k2 < path@.len() ==> path@[k1] != path@[k2],
                grid.can_step(path@.last() as int, fdir),
                0 <= grid.step(path@.last() as int, fdir) < area,
                in_tree@[grid.step(path@.last() as int, fdir)],
            decreases fuel, manhattan(grid, path@.last() as int, root as int),
        {
            let plen = path.len();
            let head = path[plen - 1];
            let prev: Option<Direction> = if dirs.len() > 0 {
                proof {
                    grid.lemma_step_reverse(path@[plen - 2] as int, dirs@[plen - 2]);
                }
                Some(dirs[dirs.len() - 1])
            } else {
                None
            };
            let d = if fuel > 0 {
                fuel = fuel - 1;
                choose_dir(&grid, head, prev, rng)
            } else {
                toward_root(&grid, head, root)
            };
            let next = grid.step_to(head, d);
            if in_tree[next] {
                fdir = d;
                break;
            }
            let mut j: usize = 0;
            let mut found_at: usize = plen;
            while j < plen
                invariant
                    plen == path@.len(),
                    j <= plen,
                    found_at <= plen,
                    found_at == plen ==> forall|k: int| 0 <= k < j ==> path@[k] != next,
                    found_at < plen ==> path@[found_at as int] == next,
                decreases plen - j,
            {
                if path[j] == next {
                    found_at = j;
                }
                j = j + 1;
            }
            if found_at < plen {
                path.truncate(found_at + 1);
                dirs.truncate(found_at);
            } else {
                path.push(next);
                dirs.push(d);
            }
        }
        let plen = path.len();
        let last = path[plen - 1];
        let t = grid.step_to(last, fdir);
        proof {
            assert(t != last);
            assert forall|kk: int| 0 <= kk < path@.len() implies path@[kk] != t by {
                assert(!in_tree@[path@[kk] as int]);
            }
        }
        let mut k: usize = 0;
        let ghost rem0 = remaining as int;
        let ghost in_tree0 = in_tree@;
        while k < plen
            invariant
                plen == path@.len(),
                k <= plen,
                in_tree@.len() == area,
                remaining == count_false(in_tree@),
                remaining == rem0 - k,
                root < area,
                in_tree@[root as int],
                forall|i: int| 0 <= i < area && in_tree@[i] ==> in_tree0[i] || in_path(path@, i),
                in_tree@[t as int],
                t < area,
                forall|kk: int| 0 <= kk < path@.len() ==> path@[kk] < area,
                forall|kk: int| 0 <= kk < k ==> in_tree@[path@[kk] as int],
                forall|kk: int| k <= kk < plen ==> !in_tree@[path@[kk] as int],
                forall|k1: int, k2: int|
                    0 <= k1 < k2 < path@.len() ==> path@[k1] != path@[k2],
                forall|i: int| 0 <= i < area && !in_tree@[i] ==> masks@[i] == 0,
                forall|kk: int| 0 <= kk < path@.len() ==> masks@[path@[kk] as int] == 0,
            decreases plen - k,
        {
            let c = path[k];
            proof {
                lemma_count_false_update(in_tree@, c as int);
                assert(in_path(path@, c as int));
            }
            in_tree.set(c, true);
            remaining = remaining - 1;
            k = k + 1;
        }
        let ghost m_pre = masks@;
        let lm = masks[last];
        let bit_out = fdir.bit_for();
        masks.set(last, lm | bit_out);
        let tm = masks[t];
        if tm != 15 {
            let bit_back = fdir.opposite().bit_for();
            masks.set(t, tm | bit_back);
            proof {
                grid.lemma_step_reverse(last as int, fdir);
                lemma_sym_open_edge(m_pre, grid, last as int, fdir);
                // the bit back toward `last` was absent on `t`: symmetry would
                // demand the matching bit on `last`, whose mask is still 0
                lemma_mask_zero_full(fdir);
                assert(!has_bit(m_pre[t as int], fdir.opposite_spec())) by {
                    if has_bit(m_pre[t as int], fdir.opposite_spec()) {
                        assert(has_bit(
                            m_pre[grid.step(t as int, fdir.opposite_spec())],
                            fdir,
                        ));
                    }
                }
                // two fresh bits: the total rises by exactly two
                lemma_nibble_zero();
                lemma_nibble_or(0, fdir);
                lemma_total_bits_update(m_pre, last as int, m_pre[last as int] | fdir.bit());
                let m1g = m_pre.update(last as int, m_pre[last as int] | fdir.bit());
                lemma_nibble_or(m1g[t as int], fdir.opposite_spec());
                lemma_total_bits_update(m1g, t as int, m1g[t as int] | fdir.opposite_spec().bit());
                assert(total_bits(masks@) == total_bits(m_pre) + 2);
            }
        } else {
            proof {
                // a fully open tree cell would already hold the bit back toward
                // `last`, whose mask is still 0: symmetry rules the case out
                grid.lemma_step_reverse(last as int, fdir);
                lemma_mask_zero_full(fdir.opposite_spec());
                assert(has_bit(m_pre[t as int], fdir.opposite_spec()));
                assert(has_bit(m_pre[grid.step(t as int, fdir.opposite_spec())], fdir));
                assert(m_pre[last as int] == 0);
                lemma_mask_zero_full(fdir);
                assert(false);
            }
        }
        let ghost tb_mid = total_bits(masks@);
        proof {
            assert forall|kk: int|
                0 <= kk < dirs@.len() implies !has_bit(masks@[path@[kk] as int], dirs@[kk]) by {
                lemma_mask_zero_full(dirs@[kk]);
                assert(path@[kk] != t);
                assert(masks@[path@[kk] as int] == m_pre[path@[kk] as int]);
            }
            assert forall|kk: int|
                0 <= kk < dirs@.len() implies !has_bit(
                masks@[path@[kk + 1] as int],
                dirs@[kk].opposite_spec(),
            ) by {
                if kk + 1 < plen - 1 {
                    lemma_mask_zero_full(dirs@[kk].opposite_spec());
                    assert(path@[kk + 1] != t);
                    assert(masks@[path@[kk + 1] as int] == m_pre[path@[kk + 1] as int]);
                } else {
                    // the cell is `last`, whose only bit points toward `t`
                    assert(path@[kk + 1] == last);
                    assert(masks@[last as int] == (m_pre[last as int] | fdir.bit()));
                    lemma_set_bit(m_pre[last as int], fdir, dirs@[kk].opposite_spec());
                    lemma_mask_zero_full(dirs@[kk].opposite_spec());
                    grid.lemma_step_reverse(path@[kk] as int, dirs@[kk]);
                    if dirs@[kk].opposite_spec() == fdir {
                        assert(grid.step(last as int, fdir) == path@[kk]);
                        assert(false);
                    }
                }
            }
        }
        let mut k2: usize = 0;
        while k2 < dirs.len()
            invariant
                plen == path@.len(),
                dirs@.len() == path@.len() - 1,
                k2 <= dirs@.len(),
                grid.wf(),
                area == grid.area(),
                masks@.len() == area,
                in_tree@.len() == area,
                forall|kk: int| 0 <= kk < path@.len() ==> path@[kk] < area,
                forall|kk: int| 0 <= kk < path@.len() ==> in_tree@[path@[kk] as int],
                forall|kk: int|
                    0 <= kk < dirs@.len() ==> grid.can_step(path@[kk] as int, dirs@[kk])
                        && path@[kk + 1] == grid.step(path@[kk] as int, dirs@[kk]),
                forall|i: int| 0 <= i < area && !in_tree@[i] ==> masks@[i] == 0,
                forall|i: int| 0 <= i < area ==> masks@[i] < 16,
                sym_ok(masks@, grid),
                last < area,
                t < area,
                last == path@[plen - 1],
                grid.can_step(last as int, fdir),
                t == grid.step(last as int, fdir),
                has_bit(masks@[last as int], fdir),
                has_bit(masks@[t as int], fdir.opposite_spec()),
                forall|i: int, c: Direction|
                    0 <= i < area && #[trigger] has_bit(m_pre[i], c) ==> has_bit(masks@[i], c),
                forall|kk: int|
                    0 <= kk < k2 ==> has_bit(masks@[path@[kk] as int], dirs@[kk]) && has_bit(
                        masks@[path@[kk + 1] as int],
                        dirs@[kk].opposite_spec(),
                    ),
                total_bits(masks@) == tb_mid + 2 * k2,
                forall|ka: int, kb: int| 0 <= ka < kb < path@.len() ==> path@[ka] != path@[kb],
                forall|kk: int|
                    k2 <= kk < dirs@.len() ==> !has_bit(masks@[path@[kk] as int], dirs@[kk]),
                forall|kk: int|
                    k2 <= kk < dirs@.len() ==> !has_bit(
                        masks@[path@[kk + 1] as int],
                        dirs@[kk].opposite_spec(),
                    ),
            decreases dirs@.len() - k2,
        {
            let a = path[k2];
            let b = path[k2 + 1];
            let d2 = dirs[k2];
            let ghost m_it = masks@;
            let am = masks[a];
            masks.set(a, am | d2.bit_for());
            let bm = masks[b];
            masks.set(b, bm | d2.opposite().bit_for());
            proof {
                lemma_sym_open_edge(m_it, grid, a as int, d2);
                grid.lemma_step_reverse(a as int, d2);
                // the two bits of this edge were absent: the total rises by two
                lemma_nibble_or(m_it[a as int], d2);
                lemma_total_bits_update(m_it, a as int, m_it[a as int] | d2.bit());
                let m1g = m_it.update(a as int, m_it[a as int] | d2.bit());
                lemma_nibble_or(m1g[b as int], d2.opposite_spec());
                lemma_total_bits_update(m1g, b as int, m1g[b as int] | d2.opposite_spec().bit());
                assert(total_bits(masks@) == total_bits(m_it) + 2);
                // bits of later edges stay absent
                assert forall|kk: int|
                    k2 + 1 <= kk < dirs@.len() implies !has_bit(
                    masks@[path@[kk] as int],
                    dirs@[kk],
                ) by {
                    if kk == k2 + 1 {
                        lemma_set_bit(m_it[b as int], d2.opposite_spec(), dirs@[kk]);
                        if dirs@[kk] == d2.opposite_spec() {
                            assert(grid.step(b as int, d2.opposite_spec()) == a as int);
                            assert(path@[kk + 1] == path@[k2 as int]);
                            assert(false);
                        }
                    } else {
                        assert(masks@[path@[kk] as int] == m_it[path@[kk] as int]);
                    }
                }
                assert forall|kk: int|
                    k2 + 1 <= kk < dirs@.len() implies !has_bit(
                    masks@[path@[kk + 1] as int],
                    dirs@[kk].opposite_spec(),
                ) by {
                    assert(masks@[path@[kk + 1] as int] == m_it[path@[kk + 1] as int]);
                }
            }
            k2 = k2 + 1;
        }
        proof {
            let m_fin = masks@;
            assert forall|i: int|
                0 <= i < area && in_tree@[i] implies reaches(m_fin, grid, i, root as int)
                && reaches(m_fin, grid, root as int, i) by {
                if in_tree0[i] {
                    lemma_reaches_widen(m_pre, m_fin, grid, i, root as int);
                    lemma_reaches_widen(m_pre, m_fin, grid, root as int, i);
                } else {
                    assert(in_path(path@, i));
                    let kk = choose|k: int| 0 <= k < path@.len() && path@[k] == i;
                    lemma_path_reaches(m_fin, grid, path@, dirs@, kk);
                    lemma_reaches_step(m_fin, grid, last as int, fdir);
                    grid.lemma_step_reverse(last as int, fdir);
                    lemma_reaches_step(m_fin, grid, t as int, fdir.opposite_spec());
                    lemma_reaches_widen(m_pre, m_fin, grid, t as int, root as int);
                    lemma_reaches_widen(m_pre, m_fin, grid, root as int, t as int);
                    lemma_reaches_trans(m_fin, grid, i, last as int, t as int);
                    lemma_reaches_trans(m_fin, grid, i, t as int, root as int);
                    lemma_reaches_trans(m_fin, grid, root as int, t as int, last as int);
                    lemma_reaches_trans(m_fin, grid, root as int, last as int, i);
                }
            }
        }
    }
    proof {
        lemma_count_false_zero(in_tree@);
        assert forall|i: int|
            0 <= i < area implies reaches(masks@, grid, 0, i) && reaches(masks@, grid, i, 0) by {
            assert(in_tree@[0]);
            assert(in_tree@[i]);
            lemma_reaches_trans(masks@, grid, 0, root as int, i);
            lemma_reaches_trans(masks@, grid, i, root as int, 0);
        }
        if area >= 2 {
            assert forall|i: int| 0 <= i < area implies masks@[i] != 0 by {
                if i == 0 {
                    lemma_reaching_cell_open(masks@, grid, 0, area - 1);
                } else {
                    lemma_reaching_cell_open(masks@, grid, i, 0);
                }
            }
        }
    }
    Maze { grid, masks }
}

} // verus!
