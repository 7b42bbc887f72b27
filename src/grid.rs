use vstd::prelude::*;
use crate::defs::Field;

verus! {

// Cells of a `width` x `height` area are numbered row by row: the cell in
// column `x` and row `y` has index `y * width + x`.

/// The index of the cell one step from cell `i` in direction `d`
/// (0: left, 1: right, 2: up, 3: down), or -1 where that step leaves the area.
pub open spec fn neighbor(w: int, h: int, i: int, d: int) -> int {
    if d == 0 {
        if i % w > 0 { i - 1 } else { -1 }
    } else if d == 1 {
        if i % w + 1 < w { i + 1 } else { -1 }
    } else if d == 2 {
        if i / w > 0 { i - w } else { -1 }
    } else {
        if i / w + 1 < h { i + w } else { -1 }
    }
}

/// Cell `i` lies on the frame of the area: some step from it leaves the area.
pub open spec fn on_border(w: int, h: int, i: int) -> bool {
    neighbor(w, h, i, 0) < 0 || neighbor(w, h, i, 1) < 0 || neighbor(w, h, i, 2) < 0
        || neighbor(w, h, i, 3) < 0
}

/// Column and row of a cell index, and where its neighbors lie.
pub proof fn lemma_grid_index(w: int, h: int, i: int)
    requires
        0 < w,
        0 <= i < w * h,
    ensures
        i == (i / w) * w + i % w,
        0 <= i % w < w,
        0 <= i / w < h,
        i / w > 0 ==> i >= w,
        i / w + 1 < h ==> i + w < w * h,
        i % w + 1 < w ==> i + 1 < w * h,
{
    vstd::arithmetic::div_mod::lemma_fundamental_div_mod(i, w);
    vstd::arithmetic::div_mod::lemma_mod_bound(i, w);
    let x = i % w;
    let y = i / w;
    assert(i == y * w + x) by (nonlinear_arith)
        requires
            i == w * y + x,
    ;
    assert(0 <= y < h) by (nonlinear_arith)
        requires
            i == y * w + x,
            0 <= x < w,
            0 <= i < w * h,
    ;
    assert(y > 0 ==> i >= w) by (nonlinear_arith)
        requires
            i == y * w + x,
            0 <= x < w,
    ;
    assert(y + 1 < h ==> i + w < w * h) by (nonlinear_arith)
        requires
            i == y * w + x,
            0 <= x < w,
    ;
    assert((y + 1) * w <= w * h) by (nonlinear_arith)
        requires
            0 <= y < h,
            0 < w,
    ;
    assert(x + 1 < w ==> i + 1 < w * h) by (nonlinear_arith)
        requires
            i == y * w + x,
            (y + 1) * w <= w * h,
    ;
}

/// The index of the cell in column `x` and row `y` lies in the area, and gives back
/// its column and row.
pub proof fn lemma_cell_index(w: int, h: int, x: int, y: int)
    requires
        0 <= x < w,
        0 <= y < h,
    ensures
        0 <= y * w + x < w * h,
        (y * w + x) % w == x,
        (y * w + x) / w == y,
{
    assert(0 <= y * w + x < w * h) by (nonlinear_arith)
        requires
            0 <= x < w,
            0 <= y < h,
    ;
    vstd::arithmetic::div_mod::lemma_fundamental_div_mod_converse(y * w + x, w, y, x);
}

/// Every step from a cell of the area that does not leave it stays inside it.
pub proof fn lemma_neighbor_in_area(w: int, h: int, i: int, d: int)
    requires
        0 < w,
        0 <= i < w * h,
    ensures
        -1 <= neighbor(w, h, i, d) < w * h,
{
    lemma_grid_index(w, h, i);
}

/// The step from cell `i` in direction `d`, computed.
pub fn step_index(w: usize, h: usize, i: usize, d: usize) -> (r: Option<usize>)
    requires
        0 < w,
        i < w * h,
        w * h <= usize::MAX,
    ensures
        match r {
            Some(j) => neighbor(w as int, h as int, i as int, d as int) == j && j < w * h,
            None => neighbor(w as int, h as int, i as int, d as int) < 0,
        },
{
    proof {
        lemma_grid_index(w as int, h as int, i as int);
    }
    let x = i % w;
    let y = i / w;
    if d == 0 {
        if x > 0 { Some(i - 1) } else { None }
    } else if d == 1 {
        if x + 1 < w { Some(i + 1) } else { None }
    } else if d == 2 {
        if y > 0 { Some(i - w) } else { None }
    } else {
        if y + 1 < h { Some(i + w) } else { None }
    }
}

/// Cell `j` lies in the area and is not a wall.
pub open spec fn open_cell(area: Seq<Field>, j: int) -> bool {
    0 <= j < area.len() && area[j] != Field::Wall
}

/// The direction opposite to `d`.
pub open spec fn opposite(d: int) -> int {
    if d == 0 { 1 } else if d == 1 { 0 } else if d == 2 { 3 } else { 2 }
}

/// Cell `j` is reached from cell `s` in at most `k` steps through cells that are not walls.
pub open spec fn reached_in(area: Seq<Field>, w: int, h: int, s: int, k: nat, j: int) -> bool
    decreases k,
{
    if k == 0 {
        j == s && open_cell(area, s)
    } else {
        let k1 = (k - 1) as nat;
        reached_in(area, w, h, s, k1, j) || (open_cell(area, j) && (reached_in(
            area,
            w,
            h,
            s,
            k1,
            neighbor(w, h, j, 0),
        ) || reached_in(area, w, h, s, k1, neighbor(w, h, j, 1)) || reached_in(
            area,
            w,
            h,
            s,
            k1,
            neighbor(w, h, j, 2),
        ) || reached_in(area, w, h, s, k1, neighbor(w, h, j, 3))))
    }
}

/// Cell `j` lies in the 4-connected region of cells that are not walls around cell `s`.
pub open spec fn reachable(area: Seq<Field>, w: int, h: int, s: int, j: int) -> bool {
    exists|k: nat| #[trigger] reached_in(area, w, h, s, k, j)
}

/// The step from cell `j` in direction `d` has been dealt with: it leaves the area and
/// `touched` records that, or it meets a wall, or a marked cell.
pub open spec fn dir_done(
    area: Seq<Field>,
    w: int,
    h: int,
    marked: Seq<bool>,
    touched: bool,
    j: int,
    d: int,
) -> bool {
    let nb = neighbor(w, h, j, d);
    if nb < 0 {
        touched
    } else {
        area[nb] == Field::Wall || marked[nb]
    }
}

/// Every step from cell `j` has been dealt with.
pub open spec fn closed(
    area: Seq<Field>,
    w: int,
    h: int,
    marked: Seq<bool>,
    touched: bool,
    j: int,
) -> bool {
    dir_done(area, w, h, marked, touched, j, 0) && dir_done(area, w, h, marked, touched, j, 1)
        && dir_done(area, w, h, marked, touched, j, 2) && dir_done(area, w, h, marked, touched, j, 3)
}

/// Marking more cells, or recording a touch of the frame, keeps a step dealt with.
pub proof fn lemma_dir_done_grows(
    area: Seq<Field>,
    w: int,
    h: int,
    m0: Seq<bool>,
    t0: bool,
    m1: Seq<bool>,
    t1: bool,
    j: int,
    d: int,
)
    requires
        m0.len() == m1.len(),
        forall|k: int| 0 <= k < m0.len() && m0[k] ==> m1[k],
        t0 ==> t1,
        neighbor(w, h, j, d) < m0.len(),
        dir_done(area, w, h, m0, t0, j, d),
    ensures
        dir_done(area, w, h, m1, t1, j, d),
{
}

/// Marking more cells, or recording a touch of the frame, keeps a cell closed.
pub proof fn lemma_closed_grows(
    area: Seq<Field>,
    w: int,
    h: int,
    m0: Seq<bool>,
    t0: bool,
    m1: Seq<bool>,
    t1: bool,
    j: int,
)
    requires
        0 < w,
        m0.len() == w * h,
        0 <= j < m0.len(),
        m0.len() == m1.len(),
        forall|k: int| 0 <= k < m0.len() && m0[k] ==> m1[k],
        t0 ==> t1,
        closed(area, w, h, m0, t0, j),
    ensures
        closed(area, w, h, m1, t1, j),
{
    lemma_neighbor_in_area(w, h, j, 0);
    lemma_neighbor_in_area(w, h, j, 1);
    lemma_neighbor_in_area(w, h, j, 2);
    lemma_neighbor_in_area(w, h, j, 3);
    lemma_dir_done_grows(area, w, h, m0, t0, m1, t1, j, 0);
    lemma_dir_done_grows(area, w, h, m0, t0, m1, t1, j, 1);
    lemma_dir_done_grows(area, w, h, m0, t0, m1, t1, j, 2);
    lemma_dir_done_grows(area, w, h, m0, t0, m1, t1, j, 3);
}

/// Number of cells not marked yet.
pub open spec fn unmarked(marked: Seq<bool>) -> nat
    decreases marked.len(),
{
    if marked.len() == 0 {
        0
    } else {
        unmarked(marked.drop_last()) + if marked.last() { 0nat } else { 1nat }
    }
}

pub proof fn lemma_unmarked_mark(marked: Seq<bool>, i: int)
    requires
        0 <= i < marked.len(),
        !marked[i],
    ensures
        unmarked(marked.update(i, true)) + 1 == unmarked(marked),
    decreases marked.len(),
{
    let m2 = marked.update(i, true);
    if i == marked.len() - 1 {
        assert(m2.drop_last() =~= marked.drop_last());
    } else {
        assert(m2.drop_last() =~= marked.drop_last().update(i, true));
        lemma_unmarked_mark(marked.drop_last(), i);
    }
}

/// A step and the opposite step lead back to the same cell.
pub proof fn lemma_neighbor_opposite(w: int, h: int, i: int, d: int)
    requires
        0 < w,
        0 <= i < w * h,
        0 <= d < 4,
        neighbor(w, h, i, d) >= 0,
    ensures
        neighbor(w, h, neighbor(w, h, i, d), opposite(d)) == i,
{
    lemma_grid_index(w, h, i);
    let x = i % w;
    let y = i / w;
    let j = neighbor(w, h, i, d);
    if d == 0 {
        vstd::arithmetic::div_mod::lemma_fundamental_div_mod_converse(j, w, y, x - 1);
    } else if d == 1 {
        vstd::arithmetic::div_mod::lemma_fundamental_div_mod_converse(j, w, y, x + 1);
    } else if d == 2 {
        assert(j == (y - 1) * w + x) by (nonlinear_arith)
            requires
                j == i - w,
                i == y * w + x,
        ;
        vstd::arithmetic::div_mod::lemma_fundamental_div_mod_converse(j, w, y - 1, x);
    } else {
        assert(j == (y + 1) * w + x) by (nonlinear_arith)
            requires
                j == i + w,
                i == y * w + x,
        ;
        vstd::arithmetic::div_mod::lemma_fundamental_div_mod_converse(j, w, y + 1, x);
    }
}

/// A set of marked cells that holds `s` and is closed under steps holds every cell
/// reached from `s`.
pub proof fn lemma_closed_holds_reached(
    area: Seq<Field>,
    w: int,
    h: int,
    s: int,
    marked: Seq<bool>,
    touched: bool,
    k: nat,
)
    requires
        0 < w,
        area.len() == w * h,
        marked.len() == area.len(),
        open_cell(area, s) ==> marked[s],
        forall|j: int| 0 <= j < marked.len() && #[trigger] marked[j] ==> closed(area, w, h, marked, touched, j),
    ensures
        forall|j: int| #[trigger] reached_in(area, w, h, s, k, j) ==> marked[j],
    decreases k,
{
    if k > 0 {
        let k1 = (k - 1) as nat;
        lemma_closed_holds_reached(area, w, h, s, marked, touched, k1);
        assert forall|j: int| #[trigger] reached_in(area, w, h, s, k, j) implies marked[j] by {
            if !reached_in(area, w, h, s, k1, j) {
                assert(open_cell(area, j));
                assert(reached_in(area, w, h, s, k1, neighbor(w, h, j, 0)) || reached_in(
                    area,
                    w,
                    h,
                    s,
                    k1,
                    neighbor(w, h, j, 1),
                ) || reached_in(area, w, h, s, k1, neighbor(w, h, j, 2)) || reached_in(
                    area,
                    w,
                    h,
                    s,
                    k1,
                    neighbor(w, h, j, 3),
                ));
                let d: int = if reached_in(area, w, h, s, k1, neighbor(w, h, j, 0)) {
                    0
                } else if reached_in(area, w, h, s, k1, neighbor(w, h, j, 1)) {
                    1
                } else if reached_in(area, w, h, s, k1, neighbor(w, h, j, 2)) {
                    2
                } else {
                    3
                };
                let i = neighbor(w, h, j, d);
                reached_in_open(area, w, h, s, k1, i);
                assert(marked[i]);
                lemma_neighbor_opposite(w, h, j, d);
                assert(closed(area, w, h, marked, touched, i));
                assert(dir_done(area, w, h, marked, touched, i, opposite(d)));
            }
        }
    }
}

/// Only cells that are not walls are reached.
pub proof fn reached_in_open(area: Seq<Field>, w: int, h: int, s: int, k: nat, j: int)
    requires
        reached_in(area, w, h, s, k, j),
    ensures
        open_cell(area, j),
    decreases k,
{
    if k > 0 && reached_in(area, w, h, s, (k - 1) as nat, j) {
        reached_in_open(area, w, h, s, (k - 1) as nat, j);
    }
}

} // verus!
