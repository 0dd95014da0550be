//! Wind shelter: the lee of walls, rock and trees. A wall on the windward
//! side keeps the wind off even without a roof, so where you build answers
//! the weather.
use vstd::prelude::*;
use crate::map::{TileMap, MapView, lemma_idx_pos_pub, lemma_pos_idx_pub};
use crate::IVec;

verus! {

/// The step downwind for each octant of a direction the wind blows toward:
/// 0 east, then clockwise on screen (y grows down), 45° apart.
pub open spec fn downwind_spec(o: int) -> (int, int) {
    if o == 0 {
        (1, 0)
    } else if o == 1 {
        (1, 1)
    } else if o == 2 {
        (0, 1)
    } else if o == 3 {
        (-1, 1)
    } else if o == 4 {
        (-1, 0)
    } else if o == 5 {
        (-1, -1)
    } else if o == 6 {
        (0, -1)
    } else {
        (1, -1)
    }
}

/// The sign of an integer.
pub open spec fn sign(v: int) -> int {
    if v < 0 { -1 } else if v > 0 { 1 } else { 0 }
}

/// A king step turned 45° clockwise on screen (x east, y growing down).
pub open spec fn turn_clockwise(d: (int, int)) -> (int, int) {
    (sign(d.0 - d.1), sign(d.0 + d.1))
}

/// Octant 0 blows east, and each next octant is 45° further clockwise on
/// screen, y growing down: octant 2 blows toward +y (south), octant 6
/// toward -y (north), and after octant 7 comes octant 0 again.
pub proof fn law_octants_turn_clockwise(o: int)
    requires
        0 <= o < 8,
    ensures
        downwind_spec(0) == (1int, 0int),
        downwind_spec((o + 1) % 8) == turn_clockwise(downwind_spec(o)),
        downwind_spec(2) == (0int, 1int),
        downwind_spec(6) == (0int, -1int),
{
}

fn downwind(o: u8) -> (r: (i32, i32))
    requires
        o < 8,
    ensures
        (r.0 as int, r.1 as int) == downwind_spec(o as int),
{
    match o {
        0 => (1, 0),
        1 => (1, 1),
        2 => (0, 1),
        3 => (-1, 1),
        4 => (-1, 0),
        5 => (-1, -1),
        6 => (0, -1),
        _ => (1, -1),
    }
}

/// `k` steps of a direction component, each -1, 0 or 1.
pub open spec fn steps(k: int, c: int) -> int {
    if c == 1 {
        k
    } else if c == -1 {
        -k
    } else {
        0
    }
}

/// How many steps downwind cell `j` lies from cell `i`, counted along
/// whichever axis the wind moves on.
pub open spec fn step_of(v: MapView, d: (int, int), i: int, j: int) -> int {
    if d.0 != 0 {
        steps(v.pos_x(j) - v.pos_x(i), d.0)
    } else {
        steps(v.pos_y(j) - v.pos_y(i), d.1)
    }
}

/// Cell `j` is in the lee of cell `i`: from 1 up to `reach - 1` steps
/// straight downwind of it.
pub open spec fn in_lee(v: MapView, d: (int, int), reach: int, i: int, j: int) -> bool {
    let k = step_of(v, d, i, j);
    &&& 1 <= k < reach
    &&& v.pos_x(j) == v.pos_x(i) + steps(k, d.0)
    &&& v.pos_y(j) == v.pos_y(i) + steps(k, d.1)
}

/// The next cell downwind of `i` blocks at least as much: its lee covers
/// this one's.
pub open spec fn covered(v: MapView, blocks: Seq<u8>, d: (int, int), i: int) -> bool {
    let nx = v.pos_x(i) + d.0;
    let ny = v.pos_y(i) + d.1;
    0 <= nx < v.w && 0 <= ny < v.h && blocks[ny * v.w + nx] >= blocks[i]
}

/// The shelter a blocker gives `k` steps downwind: fading with distance.
pub open spec fn fade(b: int, reach: int, k: int) -> int {
    b * (reach - k) / reach
}

/// The shelter cell `i` gives cell `j`, counting its lee only within
/// `upto` steps.
pub open spec fn shade_within(v: MapView, blocks: Seq<u8>, d: (int, int), reach: int, i: int, j: int, upto: int) -> int {
    let b = blocks[i] as int;
    if b == 0 {
        0
    } else if j == i {
        b
    } else if covered(v, blocks, d, i) {
        0
    } else if in_lee(v, d, reach, i, j) && step_of(v, d, i, j) < upto {
        fade(b, reach, step_of(v, d, i, j))
    } else {
        0
    }
}

/// The shelter cell `i` gives cell `j`.
pub open spec fn shade_from(v: MapView, blocks: Seq<u8>, d: (int, int), reach: int, i: int, j: int) -> int {
    shade_within(v, blocks, d, reach, i, j, reach)
}

/// The strongest shelter the first `n` cells give cell `j`.
pub open spec fn shelter_upto(v: MapView, blocks: Seq<u8>, d: (int, int), reach: int, j: int, n: int) -> int
    decreases n,
{
    if n <= 0 {
        0
    } else {
        crate::max_int(
            shelter_upto(v, blocks, d, reach, j, n - 1),
            shade_from(v, blocks, d, reach, n - 1, j),
        )
    }
}

/// A cell's exposure in percent: what the strongest shelter over it leaves.
pub open spec fn exposure_spec(v: MapView, blocks: Seq<u8>, octant: int, lee: int, j: int) -> int {
    100 - crate::min_int(shelter_upto(v, blocks, downwind_spec(octant % 8), lee + 1, j, v.cells()), 100)
}

/// Along a straight line, a point between two points on the map is on it.
proof fn lemma_between(x: int, c: int, s: int, k: int, w: int)
    requires
        0 <= x < w,
        0 <= x + steps(s, c) < w,
        0 <= k <= s,
    ensures
        0 <= x + steps(k, c) < w,
{
}

proof fn lemma_fade_bounds(b: int, reach: int, k: int)
    requires
        0 <= b <= 255,
        1 <= k < reach,
    ensures
        0 <= fade(b, reach, k) <= b,
{
    assert(0 <= b * (reach - k) <= b * reach) by (nonlinear_arith)
        requires
            0 <= b,
            1 <= k < reach,
    ;
    assert(b * (reach - k) / reach <= b) by (nonlinear_arith)
        requires
            0 <= b * (reach - k) <= b * reach,
            reach >= 1,
    ;
    assert(b * (reach - k) / reach >= 0) by (nonlinear_arith)
        requires
            0 <= b * (reach - k),
            reach >= 1,
    ;
}

/// Each cell's exposure in percent, from each cell's blocking in percent:
/// a blocker shelters `lee` cells downwind of it, fading with distance, and
/// itself. Where lees overlap the stronger one counts.
pub fn exposure(map: &TileMap, blocks: &[u8], octant: u8, lee: u32) -> (r: Vec<u8>)
    requires
        map.wf(),
        blocks@.len() == map.view().cells(),
        (lee + 1) * 255 <= i32::MAX,
    ensures
        r@.len() == blocks@.len(),
        forall|j: int| 0 <= j < r@.len() ==> #[trigger] r@[j] == exposure_spec(map.view(), blocks@, octant as int, lee as int, j),
{
    let ghost v = map.view();
    let ghost bs = blocks@;
    proof {
        map.lemma_cells_bound();
    }
    let (mw, mh) = map.dims();
    let (dx, dy) = downwind(octant % 8);
    let ghost d = (dx as int, dy as int);
    let n = blocks.len();
    let reach: i32 = lee as i32 + 1;
    let mut shelter: Vec<u8> = Vec::new();
    while shelter.len() < n
        invariant
            shelter@.len() <= n,
            forall|j: int| 0 <= j < shelter@.len() ==> shelter@[j] == 0,
        decreases n - shelter@.len(),
    {
        shelter.push(0);
    }
    let mut i: usize = 0;
    while i < n
        invariant
            v == map.view(),
            map.wf(),
            bs == blocks@,
            n == bs.len(),
            n == v.cells(),
            v.w >= 0,
            v.h >= 0,
            mw == v.w,
            mh == v.h,
            d == downwind_spec((octant % 8) as int),
            d == (dx as int, dy as int),
            reach == lee + 1,
            (lee + 1) * 255 <= i32::MAX,
            i <= n,
            shelter@.len() == n,
            forall|j: int| 0 <= j < n ==> #[trigger] shelter@[j] == shelter_upto(v, bs, d, reach as int, j, i as int),
        decreases n - i,
    {
        let b = blocks[i];
        if b == 0 {
            proof {
                assert forall|j: int| 0 <= j < n implies #[trigger] shelter@[j] == shelter_upto(v, bs, d, reach as int, j, i + 1) by {
                    assert(shade_from(v, bs, d, reach as int, i as int, j) == 0);
                }
            }
            i += 1;
            continue;
        }
        let ghost before = shelter@;
        if shelter[i] < b {
            shelter.set(i, b);
        }
        let p = map.pos(i);
        proof {
            lemma_pos_idx_pub(v.w, v.h, i as int);
        }
        proof {
            assert(dx == 1 || dx == 0 || dx == -1);
            assert(dy == 1 || dy == 0 || dy == -1);
        }
        let nx = p.x + dx;
        let ny = p.y + dy;
        let next = IVec::new(nx, ny);
        if map.inb(next) && blocks[map.idx(next)] >= b {
            proof {
                assert(covered(v, bs, d, i as int));
                assert forall|j: int| 0 <= j < n implies #[trigger] shelter@[j] == shelter_upto(v, bs, d, reach as int, j, i + 1) by {
                    if j != i {
                        assert(shade_from(v, bs, d, reach as int, i as int, j) == 0);
                    }
                }
            }
            i += 1;
            continue;
        }
        proof {
            assert(!covered(v, bs, d, i as int));
            assert forall|j: int| 0 <= j < n implies #[trigger] shelter@[j] == crate::max_int(
                shelter_upto(v, bs, d, reach as int, j, i as int),
                shade_within(v, bs, d, reach as int, i as int, j, 1),
            ) by {
                if j != i {
                    assert(shelter@[j] == before[j]);
                }
            }
            assert(steps(0, dx as int) == 0 && steps(0, dy as int) == 0);
        }
        let mut k: i32 = 1;
        while k < reach
            invariant
                v == map.view(),
                map.wf(),
                bs == blocks@,
                n == bs.len(),
                n == v.cells(),
                v.w >= 0,
                v.h >= 0,
                mw == v.w,
                mh == v.h,
                i < n,
                b == bs[i as int],
                b > 0,
                !covered(v, bs, d, i as int),
                d == downwind_spec((octant % 8) as int),
                d == (dx as int, dy as int),
                p.x == v.pos_x(i as int),
                p.y == v.pos_y(i as int),
                0 <= p.x < v.w,
                0 <= p.y < v.h,
                reach == lee + 1,
                (lee + 1) * 255 <= i32::MAX,
                1 <= k <= reach,
                shelter@.len() == n,
                k < reach ==> 0 <= p.x + steps(k - 1, dx as int) < v.w && 0 <= p.y + steps(k - 1, dy as int) < v.h,
                forall|j: int|
                    0 <= j < n ==> #[trigger] shelter@[j] == crate::max_int(
                        shelter_upto(v, bs, d, reach as int, j, i as int),
                        shade_within(v, bs, d, reach as int, i as int, j, k as int),
                    ),
            decreases reach - k,
        {
            proof {
                assert(dx == 1 || dx == 0 || dx == -1);
                assert(dy == 1 || dy == 0 || dy == -1);
                assert(dx * k == steps(k as int, dx as int) && dy * k == steps(k as int, dy as int)) by (nonlinear_arith)
                    requires
                        dx == 1 || dx == 0 || dx == -1,
                        dy == 1 || dy == 0 || dy == -1,
                ;
                assert(steps(k as int, dx as int) == steps(k - 1, dx as int) + dx);
                assert(steps(k as int, dy as int) == steps(k - 1, dy as int) + dy);
            }
            let qx = p.x + dx * k;
            let qy = p.y + dy * k;
            let q = IVec::new(qx, qy);
            if !map.inb(q) {
                proof {
                    // Past the edge of the map, no cell lies further downwind.
                    assert forall|j: int| 0 <= j < n implies #[trigger] shelter@[j] == crate::max_int(
                        shelter_upto(v, bs, d, reach as int, j, i as int),
                        shade_within(v, bs, d, reach as int, i as int, j, reach as int),
                    ) by {
                        lemma_pos_idx_pub(v.w, v.h, j);
                        if j != i && in_lee(v, d, reach as int, i as int, j) && step_of(v, d, i as int, j) >= k {
                            let s = step_of(v, d, i as int, j);
                            lemma_between(p.x as int, dx as int, s, k as int, v.w);
                            lemma_between(p.y as int, dy as int, s, k as int, v.h);
                        }
                    }
                }
                k = reach;
                continue;
            }
            proof {
                lemma_fade_bounds(b as int, reach as int, k as int);
                assert((b as int) * (reach - k) <= 255 * reach) by (nonlinear_arith)
                    requires
                        b <= 255,
                        1 <= k < reach,
                ;
            }
            let s = ((b as i32) * (reach - k) / reach) as u8;
            let j = map.idx(q);
            let ghost old_sh = shelter@;
            if shelter[j] < s {
                shelter.set(j, s);
            }
            proof {
                lemma_idx_pos_pub(v.w, v.h, qx as int, qy as int);
                assert(v.pos_x(j as int) == qx && v.pos_y(j as int) == qy);
                assert(j != i) by {
                    if j == i {
                        assert(steps(k as int, dx as int) == 0 && steps(k as int, dy as int) == 0);
                    }
                }
                assert(in_lee(v, d, reach as int, i as int, j as int));
                assert(step_of(v, d, i as int, j as int) == k);
                assert forall|jj: int| 0 <= jj < n implies #[trigger] shelter@[jj] == crate::max_int(
                    shelter_upto(v, bs, d, reach as int, jj, i as int),
                    shade_within(v, bs, d, reach as int, i as int, jj, k + 1),
                ) by {
                    lemma_pos_idx_pub(v.w, v.h, jj);
                    if jj != j as int && jj != i && in_lee(v, d, reach as int, i as int, jj) {
                        if step_of(v, d, i as int, jj) == k {
                            assert(v.pos_x(jj) == qx && v.pos_y(jj) == qy);
                            assert(jj == v.pos_y(jj) * v.w + v.pos_x(jj));
                        }
                    }
                }
            }
            k += 1;
        }
        proof {
            assert forall|j: int| 0 <= j < n implies #[trigger] shelter@[j] == shelter_upto(v, bs, d, reach as int, j, i + 1) by {
                assert(shelter_upto(v, bs, d, reach as int, j, i + 1) == crate::max_int(
                    shelter_upto(v, bs, d, reach as int, j, i as int),
                    shade_from(v, bs, d, reach as int, i as int, j),
                ));
            }
        }
        i += 1;
    }
    let mut out: Vec<u8> = Vec::new();
    let mut t: usize = 0;
    while t < n
        invariant
            t <= n,
            n == shelter@.len(),
            out@.len() == t,
            forall|j: int| 0 <= j < t ==> #[trigger] out@[j] == 100 - crate::min_int(shelter@[j] as int, 100),
        decreases n - t,
    {
        let s = shelter[t];
        out.push(100 - if s < 100 { s } else { 100 });
        t += 1;
    }
    out
}

} // verus!
