use vstd::prelude::*;
use crate::defs::{CheckError, Direction, Field};
use crate::level::{Level, count_of, first_player_in, lemma_count_of_push};
use crate::grid::{lemma_cell_index, lemma_grid_index};

verus! {

/// What a play session is at one moment: its area, the player's column and row,
/// the moves made so far and the number of pushes among them.
pub struct GameView {
    pub area: Seq<Field>,
    pub x: int,
    pub y: int,
    pub moves: Seq<Direction>,
    pub pushes: int,
}

/// Column change of a move in direction `d`.
pub open spec fn dx(d: Direction) -> int {
    match d {
        Direction::Left | Direction::PushLeft => -1,
        Direction::Right | Direction::PushRight => 1,
        _ => 0,
    }
}

/// Row change of a move in direction `d`.
pub open spec fn dy(d: Direction) -> int {
    match d {
        Direction::Up | Direction::PushUp => -1,
        Direction::Down | Direction::PushDown => 1,
        _ => 0,
    }
}

/// `d` is a push variant.
pub open spec fn is_push(d: Direction) -> bool {
    d == Direction::PushLeft || d == Direction::PushRight || d == Direction::PushUp || d
        == Direction::PushDown
}

/// The plain move along the axis of `d`.
pub open spec fn plain(d: Direction) -> Direction {
    match d {
        Direction::PushLeft => Direction::Left,
        Direction::PushRight => Direction::Right,
        Direction::PushUp => Direction::Up,
        Direction::PushDown => Direction::Down,
        _ => d,
    }
}

/// The push variant of the move along the axis of `d`.
pub open spec fn push_of(d: Direction) -> Direction {
    match d {
        Direction::Left => Direction::PushLeft,
        Direction::Right => Direction::PushRight,
        Direction::Up => Direction::PushUp,
        Direction::Down => Direction::PushDown,
        _ => d,
    }
}

/// Column `x` and row `y` lie inside a `w` x `h` area.
pub open spec fn inside(w: int, h: int, x: int, y: int) -> bool {
    0 <= x < w && 0 <= y < h
}

/// The result of a move in direction `d` from state `v`: the next state, whether the
/// player moved, and whether a pack was pushed.
pub open spec fn step(w: int, h: int, v: GameView, d: Direction) -> (GameView, bool, bool) {
    let x1 = v.x + dx(d);
    let y1 = v.y + dy(d);
    let x2 = x1 + dx(d);
    let y2 = y1 + dy(d);
    let o = v.y * w + v.x;
    let n1 = y1 * w + x1;
    let n2 = y2 * w + x2;
    if d == Direction::NoDirection || !inside(w, h, x1, y1) {
        (v, false, false)
    } else if v.area[n1] == Field::Empty || v.area[n1] == Field::Target {
        (
            GameView {
                area: v.area.update(n1, v.area[n1].with_player()).update(o, v.area[o].without_player()),
                x: x1,
                y: y1,
                moves: v.moves.push(plain(d)),
                pushes: v.pushes,
            },
            true,
            false,
        )
    } else if v.area[n1].has_pack() && inside(w, h, x2, y2) && v.area[n2] != Field::Wall
        && !v.area[n2].has_pack() {
        (
            GameView {
                area: v.area.update(n2, v.area[n2].with_pack()).update(n1, v.area[n1].with_player()).update(
                    o,
                    v.area[o].without_player(),
                ),
                x: x1,
                y: y1,
                moves: v.moves.push(push_of(d)),
                pushes: v.pushes + 1,
            },
            true,
            true,
        )
    } else {
        (v, false, false)
    }
}

/// The state before the last move of `v`: the player steps back, and the pack that
/// the move pushed, if it pushed one, comes back to the player's place.
pub open spec fn unstep(w: int, h: int, v: GameView) -> GameView {
    let d = v.moves.last();
    let px = v.x - dx(d);
    let py = v.y - dy(d);
    let cur = v.y * w + v.x;
    let prev = py * w + px;
    let next = (v.y + dy(d)) * w + v.x + dx(d);
    if is_push(d) {
        GameView {
            area: v.area.update(next, v.area[next].without_pack()).update(cur, v.area[cur].with_pack()).update(
                prev,
                v.area[prev].with_player(),
            ),
            x: px,
            y: py,
            moves: v.moves.drop_last(),
            pushes: v.pushes - 1,
        }
    } else {
        GameView {
            area: v.area.update(cur, v.area[cur].without_player()).update(prev, v.area[prev].with_player()),
            x: px,
            y: py,
            moves: v.moves.drop_last(),
            pushes: v.pushes,
        }
    }
}

/// The last move of `v` can be taken back: it is a move, the player's former place
/// lies inside the area, and a pushed pack lies where the push left it.
pub open spec fn can_unstep(w: int, h: int, v: GameView) -> bool {
    let d = v.moves.last();
    v.moves.len() > 0 && d != Direction::NoDirection && inside(w, h, v.x - dx(d), v.y - dy(d)) && (
    is_push(d) ==> inside(w, h, v.x + dx(d), v.y + dy(d)) && v.area[(v.y + dy(d)) * w + v.x
        + dx(d)].has_pack())
}

/// The area has `w * h` fields, and the player stands in exactly one of them, at
/// column `x` and row `y`.
pub open spec fn single_player(w: int, h: int, v: GameView) -> bool {
    &&& v.area.len() == w * h
    &&& inside(w, h, v.x, v.y)
    &&& forall|i: int| 0 <= i < v.area.len() ==> (#[trigger] v.area[i].has_player() <==> i == v.y * w + v.x)
}

/// Number of push variants in `moves`.
pub open spec fn push_count(moves: Seq<Direction>) -> int
    decreases moves.len(),
{
    if moves.len() == 0 {
        0
    } else {
        push_count(moves.drop_last()) + if is_push(moves.last()) { 1int } else { 0int }
    }
}

/// Every move of `v` can be taken back, one after the other, and every state on the
/// way has a single player and counts its pushes.
pub open spec fn undoable(w: int, h: int, v: GameView) -> bool
    decreases v.moves.len(),
{
    single_player(w, h, v) && v.pushes == push_count(v.moves) && (v.moves.len() == 0 || (
    can_unstep(w, h, v) && undoable(w, h, unstep(w, h, v))))
}

/// A play session on a level: the current area, the player's place, and the moves made.
#[derive(PartialEq, Eq, Debug, Clone)]
pub struct LevelState<'a> {
    pub level: &'a Level,
    pub player_x: usize,
    pub player_y: usize,
    pub area: Vec<Field>,
    pub moves: Vec<Direction>,
    pub pushes: usize,
}

impl<'a> View for LevelState<'a> {
    type V = GameView;

    open spec fn view(&self) -> GameView {
        GameView {
            area: self.area@,
            x: self.player_x as int,
            y: self.player_y as int,
            moves: self.moves@,
            pushes: self.pushes as int,
        }
    }
}

impl<'a> LevelState<'a> {
    /// Width of the level.
    pub open spec fn w(&self) -> int {
        self.level.width as int
    }

    /// Height of the level.
    pub open spec fn h(&self) -> int {
        self.level.height as int
    }

    /// The session is consistent with its level, which holds a single player, and every
    /// move made can be taken back.
    pub open spec fn wf(&self) -> bool {
        &&& self.level.wf()
        &&& count_of(self.level.area@, 0) == 1
        &&& undoable(self.w(), self.h(), self@)
    }
}

/// Index arithmetic for a shifted cell.
proof fn lemma_shift_index(w: int, x: int, y: int, ex: int, ey: int)
    ensures
        (y + ey) * w + (x + ex) == y * w + x + ey * w + ex,
        (y + ey) * w + x + ex == y * w + x + ey * w + ex,
{
    assert((y + ey) * w == y * w + ey * w) by (nonlinear_arith);
}

/// Two places inside the area with the same index are the same place.
proof fn lemma_index_injective(w: int, h: int, x1: int, y1: int, x2: int, y2: int)
    requires
        inside(w, h, x1, y1),
        inside(w, h, x2, y2),
        y1 * w + x1 == y2 * w + x2,
    ensures
        x1 == x2 && y1 == y2,
{
    lemma_cell_index(w, h, x1, y1);
    lemma_cell_index(w, h, x2, y2);
}

/// Counting pushes over one more move.
proof fn lemma_push_count_push(moves: Seq<Direction>, m: Direction)
    ensures
        push_count(moves.push(m)) == push_count(moves) + if is_push(m) { 1int } else { 0int },
{
    assert(moves.push(m).drop_last() =~= moves);
}

/// The pushes are a part of the moves.
proof fn lemma_push_count_bound(moves: Seq<Direction>)
    ensures
        0 <= push_count(moves) <= moves.len(),
    decreases moves.len(),
{
    if moves.len() > 0 {
        lemma_push_count_bound(moves.drop_last());
    }
}

/// A move that succeeds leaves a state with a single player and its pushes counted,
/// whose last move can be taken back.
proof fn lemma_step_keeps(w: int, h: int, v: GameView, d: Direction)
    requires
        single_player(w, h, v),
        v.pushes == push_count(v.moves),
        step(w, h, v, d).1,
    ensures
        single_player(w, h, step(w, h, v, d).0),
        step(w, h, v, d).0.pushes == push_count(step(w, h, v, d).0.moves),
        can_unstep(w, h, step(w, h, v, d).0),
        unstep(w, h, step(w, h, v, d).0) == v,
{
    let x1 = v.x + dx(d);
    let y1 = v.y + dy(d);
    let x2 = x1 + dx(d);
    let y2 = y1 + dy(d);
    let o = v.y * w + v.x;
    let n1 = y1 * w + x1;
    let n2 = y2 * w + x2;
    let v2 = step(w, h, v, d).0;
    lemma_cell_index(w, h, v.x, v.y);
    lemma_cell_index(w, h, x1, y1);
    if o == n1 {
        lemma_index_injective(w, h, v.x, v.y, x1, y1);
    }
    lemma_shift_index(w, v.x, v.y, -dx(d), -dy(d));
    lemma_shift_index(w, x1, y1, -dx(d), -dy(d));
    lemma_shift_index(w, x1, y1, dx(d), dy(d));
    assert(v.area[o].has_player());
    let m = v2.moves.last();
    assert(dx(m) == dx(d) && dy(m) == dy(d));
    lemma_push_count_push(v.moves, m);
    assert(v2.moves.drop_last() =~= v.moves);
    assert(v2.x == x1 && v2.y == y1);
    assert((v2.y - dy(m)) * w + (v2.x - dx(m)) == o);
    assert(v2.y * w + v2.x == n1);
    if step(w, h, v, d).2 {
        lemma_cell_index(w, h, x2, y2);
        if n2 == o {
            lemma_index_injective(w, h, v.x, v.y, x2, y2);
        }
        if n2 == n1 {
            lemma_index_injective(w, h, x1, y1, x2, y2);
        }
        assert(!v.area[n2].has_player());
        let a = v.area;
        let a2 = v2.area;
        assert(a2[n2] == a[n2].with_pack());
        assert(a2[n1] == a[n1].with_player());
        assert(a2[o] == a[o].without_player());
        assert((v2.y + dy(m)) * w + v2.x + dx(m) == n2);
        assert(is_push(m));
        let v3 = unstep(w, h, v2);
        assert(v3.area.len() == a.len());
        assert(v3.area[n2] == a[n2]);
        assert(v3.area[n1] == a[n1]);
        assert(v3.area[o] == a[o]);
        assert(v3.area =~= v.area);
    } else {
        assert(!is_push(m));
        let v3 = unstep(w, h, v2);
        assert(v3.area.len() == v.area.len());
        assert(v3.area[n1] == v.area[n1]);
        assert(v3.area[o] == v.area[o]);
        assert(v3.area =~= v.area);
    }
}

/// Taking back a move just made restores the state from before the move: the area,
/// the player's place, the moves and the pushes.
pub proof fn lemma_move_then_undo(s: LevelState, d: Direction)
    requires
        s.wf(),
        step(s.w(), s.h(), s@, d).1,
    ensures
        unstep(s.w(), s.h(), step(s.w(), s.h(), s@, d).0) == s@,
{
    lemma_step_keeps(s.w(), s.h(), s@, d);
}

/// Every box stands on a target and every target holds a box.
pub open spec fn done(area: Seq<Field>) -> bool {
    count_of(area, 1) == count_of(area, 3) && count_of(area, 2) == count_of(area, 3)
}

/// The state in which a session on `level` starts: the level's own area, the player at
/// the level's first player field, no moves made.
pub open spec fn initial(level: &Level) -> GameView {
    let p = level.first_player();
    GameView {
        area: level.area@,
        x: p % level.width as int,
        y: p / level.width as int,
        moves: seq![],
        pushes: 0,
    }
}

/// In an area with a single player, the first player field is the only one.
proof fn lemma_one_player(s: Seq<Field>)
    requires
        count_of(s, 0) <= 1,
    ensures
        count_of(s, 0) == 0 ==> first_player_in(s) < 0 && forall|i: int| 0 <= i < s.len() ==> !(#[trigger] s[i].has_player()),
        count_of(s, 0) == 1 ==> 0 <= first_player_in(s) < s.len() && forall|i: int|
            0 <= i < s.len() ==> (#[trigger] s[i].has_player() <==> i == first_player_in(s)),
    decreases s.len(),
{
    if s.len() > 0 {
        let t = s.drop_last();
        lemma_one_player(t);
        assert forall|i: int| 0 <= i < t.len() implies t[i] == s[i] by {}
    }
}

/// Once every box stands on a target, a move that fails changes nothing, so the level
/// stays done until a move or an undo changes the area.
pub proof fn lemma_done_stays(s: LevelState, d: Direction)
    requires
        s.wf(),
        done(s.area@),
        !step(s.w(), s.h(), s@, d).1,
    ensures
        step(s.w(), s.h(), s@, d).0 == s@,
        done(step(s.w(), s.h(), s@, d).0.area),
{
}

/// The column and row one step from column `x` and row `y` in direction `d`, forward or
/// backward, where that lies inside the area.
fn shift(w: usize, h: usize, x: usize, y: usize, d: Direction, back: bool) -> (r: Option<(usize, usize)>)
    requires
        x < w,
        y < h,
    ensures
        ({
            let ex = if back { -dx(d) } else { dx(d) };
            let ey = if back { -dy(d) } else { dy(d) };
            match r {
                Some((a, b)) => inside(w as int, h as int, x + ex, y + ey) && a == x + ex && b == y + ey,
                None => !inside(w as int, h as int, x + ex, y + ey),
            }
        }),
{
    let left = match d {
        Direction::Left | Direction::PushLeft => !back,
        Direction::Right | Direction::PushRight => back,
        _ => false,
    };
    let right = match d {
        Direction::Right | Direction::PushRight => !back,
        Direction::Left | Direction::PushLeft => back,
        _ => false,
    };
    let up = match d {
        Direction::Up | Direction::PushUp => !back,
        Direction::Down | Direction::PushDown => back,
        _ => false,
    };
    let down = match d {
        Direction::Down | Direction::PushDown => !back,
        Direction::Up | Direction::PushUp => back,
        _ => false,
    };
    if left {
        if x > 0 { Some((x - 1, y)) } else { None }
    } else if right {
        if x + 1 < w { Some((x + 1, y)) } else { None }
    } else if up {
        if y > 0 { Some((x, y - 1)) } else { None }
    } else if down {
        if y + 1 < h { Some((x, y + 1)) } else { None }
    } else {
        Some((x, y))
    }
}

/// The plain move along the axis of `d`.
fn plain_dir(d: Direction) -> (r: Direction)
    ensures
        r == plain(d),
{
    match d {
        Direction::PushLeft => Direction::Left,
        Direction::PushRight => Direction::Right,
        Direction::PushUp => Direction::Up,
        Direction::PushDown => Direction::Down,
        _ => d,
    }
}

/// The push variant of the move along the axis of `d`.
fn push_dir(d: Direction) -> (r: Direction)
    ensures
        r == push_of(d),
{
    match d {
        Direction::Left => Direction::PushLeft,
        Direction::Right => Direction::PushRight,
        Direction::Up => Direction::PushUp,
        Direction::Down => Direction::PushDown,
        _ => d,
    }
}

impl<'a> LevelState<'a> {
    /// Start a session on a level. The level must hold exactly one player.
    pub fn new(level: &'a Level) -> (r: Result<LevelState<'a>, CheckError>)
        requires
            level.wf(),
        ensures
            count_of(level.area@, 0) == 0 ==> r == Err::<LevelState<'a>, CheckError>(CheckError::NoPlayer),
            count_of(level.area@, 0) > 1 ==> r == Err::<LevelState<'a>, CheckError>(
                CheckError::TooManyPlayers,
            ),
            count_of(level.area@, 0) == 1 ==> (r matches Ok(s) && s.wf() && s.level == level && s@
                == initial(level)),
    {
        let (players, _, _, first) = level.count_fields();
        if players == 0 {
            return Err(CheckError::NoPlayer);
        }
        if players > 1 {
            return Err(CheckError::TooManyPlayers);
        }
        proof {
            lemma_one_player(level.area@);
        }
        let p = first.unwrap();
        let area = copy_area(&level.area);
        let s = LevelState {
            level,
            player_x: p % level.width,
            player_y: p / level.width,
            area,
            moves: Vec::new(),
            pushes: 0,
        };
        proof {
            s.lemma_initial_undoable();
        }
        Ok(s)
    }

    proof fn lemma_initial_undoable(&self)
        requires
            self.level.wf(),
            count_of(self.level.area@, 0) == 1,
            self@ == initial(self.level),
        ensures
            self.wf(),
    {
        lemma_one_player(self.level.area@);
        let p = self.level.first_player();
        lemma_grid_index(self.w(), self.h(), p);
    }

    /// Column of the player.
    pub fn player_x(&self) -> (r: usize)
        ensures
            r == self.player_x,
    {
        self.player_x
    }

    /// Row of the player.
    pub fn player_y(&self) -> (r: usize)
        ensures
            r == self.player_y,
    {
        self.player_y
    }

    /// The current area.
    pub fn area(&self) -> (r: &Vec<Field>)
        ensures
            r@ == self.area@,
    {
        &self.area
    }

    /// The moves made so far.
    pub fn moves(&self) -> (r: &Vec<Direction>)
        ensures
            r@ == self.moves@,
    {
        &self.moves
    }

    /// Number of pushes among the moves made so far.
    pub fn pushes_count(&self) -> (r: usize)
        ensures
            r == self.pushes,
    {
        self.pushes
    }

    /// The level played.
    pub fn level(&self) -> (r: &'a Level)
        ensures
            r == self.level,
    {
        self.level
    }

    /// Go back to the start of the level: undo every move.
    pub fn reset(&mut self)
        requires
            old(self).wf(),
        ensures
            final(self).wf(),
            final(self).level == old(self).level,
            final(self)@ == initial(old(self).level),
    {
        let level = self.level;
        let (_, _, _, first) = level.count_fields();
        proof {
            lemma_one_player(level.area@);
        }
        let p = first.unwrap();
        self.moves = Vec::new();
        self.pushes = 0;
        self.player_x = p % level.width;
        self.player_y = p / level.width;
        self.area = copy_area(&level.area);
        proof {
            self.lemma_initial_undoable();
        }
    }

    /// Make a move in direction `dir` where it is possible: onto an empty field or a
    /// target, or onto a pack that can be pushed one field further, onto an empty field
    /// or a target. Return whether the player moved and whether a pack was pushed. A
    /// move is recorded as a plain move, a push as its push variant.
    pub fn make_move(&mut self, dir: Direction) -> (r: (bool, bool))
        requires
            old(self).wf(),
        ensures
            final(self).wf(),
            final(self).level == old(self).level,
            final(self)@ == step(old(self).w(), old(self).h(), old(self)@, dir).0,
            r == (step(old(self).w(), old(self).h(), old(self)@, dir).1, step(
                old(self).w(),
                old(self).h(),
                old(self)@,
                dir,
            ).2),
            r.1 ==> r.0,
    {
        let ghost v = self@;
        let ghost w0 = self.w();
        let ghost h0 = self.h();
        let w = self.level.width;
        let h = self.level.height;
        if dir == Direction::NoDirection {
            return (false, false);
        }
        let size = self.area.len();
        assert(size == w0 * h0);
        let x = self.player_x;
        let y = self.player_y;
        let next = shift(w, h, x, y, dir, false);
        if next.is_none() {
            return (false, false);
        }
        let (x1, y1) = next.unwrap();
        proof {
            lemma_cell_index(w0, h0, x as int, y as int);
            lemma_cell_index(w0, h0, x1 as int, y1 as int);
            if y * w + x == y1 * w + x1 {
                lemma_index_injective(w0, h0, x as int, y as int, x1 as int, y1 as int);
            }
            assert(self.area@[y * w + x].has_player());
            lemma_push_count_bound(self.moves@);
        }
        let this_pos = y * w + x;
        let next_pos = y1 * w + x1;
        let f1 = self.area[next_pos];
        if f1 == Field::Empty || f1 == Field::Target {
            let mut f = f1;
            f.set_player();
            self.area.set(next_pos, f);
            let mut g = self.area[this_pos];
            g.unset_player();
            self.area.set(this_pos, g);
            self.player_x = x1;
            self.player_y = y1;
            self.moves.push(plain_dir(dir));
            proof {
                lemma_step_keeps(w0, h0, v, dir);
                assert(self@.area =~= step(w0, h0, v, dir).0.area);
                assert(self@ == step(w0, h0, v, dir).0);
            }
            (true, false)
        } else if f1.is_pack() {
            let next2 = shift(w, h, x1, y1, dir, false);
            if next2.is_none() {
                return (false, false);
            }
            let (x2, y2) = next2.unwrap();
            proof {
                lemma_cell_index(w0, h0, x2 as int, y2 as int);
            }
            let next2_pos = y2 * w + x2;
            let f2 = self.area[next2_pos];
            if f2 != Field::Wall && !f2.is_pack() {
                proof {
                    if next2_pos == this_pos {
                        lemma_index_injective(w0, h0, x as int, y as int, x2 as int, y2 as int);
                    }
                    if next2_pos == next_pos {
                        lemma_index_injective(w0, h0, x1 as int, y1 as int, x2 as int, y2 as int);
                    }
                }
                let mut f = f2;
                f.set_pack();
                self.area.set(next2_pos, f);
                let mut f = f1;
                f.set_player();
                self.area.set(next_pos, f);
                let mut g = self.area[this_pos];
                g.unset_player();
                self.area.set(this_pos, g);
                self.player_x = x1;
                self.player_y = y1;
                self.moves.push(push_dir(dir));
                // The pushes are among the moves, whose number fits in a usize.
                let moves_made = self.moves.len();
                assert(self.pushes < moves_made);
                self.pushes = self.pushes + 1;
                proof {
                    lemma_step_keeps(w0, h0, v, dir);
                    assert(self@.area =~= step(w0, h0, v, dir).0.area);
                    assert(self@ == step(w0, h0, v, dir).0);
                }
                (true, true)
            } else {
                (false, false)
            }
        } else {
            (false, false)
        }
    }

    /// Take back the last move. Return false where no move was made.
    pub fn undo_move(&mut self) -> (r: bool)
        requires
            old(self).wf(),
        ensures
            final(self).wf(),
            final(self).level == old(self).level,
            r == (old(self)@.moves.len() > 0),
            r ==> final(self)@ == unstep(old(self).w(), old(self).h(), old(self)@),
            !r ==> final(self)@ == old(self)@,
    {
        let ghost v = self@;
        let ghost w0 = self.w();
        let ghost h0 = self.h();
        if self.moves.len() == 0 {
            return false;
        }
        let dir = self.moves.pop().unwrap();
        let size = self.area.len();
        assert(size == w0 * h0);
        let w = self.level.width;
        let h = self.level.height;
        let x = self.player_x;
        let y = self.player_y;
        let (px, py) = shift(w, h, x, y, dir, true).unwrap();
        proof {
            lemma_cell_index(w0, h0, x as int, y as int);
            lemma_cell_index(w0, h0, px as int, py as int);
            if y * w + x == py * w + px {
                lemma_index_injective(w0, h0, x as int, y as int, px as int, py as int);
            }
            assert(v.area[y * w + x].has_player());
            assert(v.moves.drop_last() =~= self.moves@);
            lemma_push_count_bound(self.moves@);
        }
        let this_pos = y * w + x;
        let prev_pos = py * w + px;
        let pushed = match dir {
            Direction::PushLeft | Direction::PushRight | Direction::PushUp | Direction::PushDown => true,
            _ => false,
        };
        if pushed {
            let (nx, ny) = shift(w, h, x, y, dir, false).unwrap();
            proof {
                lemma_cell_index(w0, h0, nx as int, ny as int);
                if ny * w + nx == this_pos {
                    lemma_index_injective(w0, h0, x as int, y as int, nx as int, ny as int);
                }
                if ny * w + nx == prev_pos {
                    lemma_index_injective(w0, h0, px as int, py as int, nx as int, ny as int);
                }
            }
            let next_pos = ny * w + nx;
            let mut g = self.area[next_pos];
            g.unset_pack();
            self.area.set(next_pos, g);
            let mut g = self.area[this_pos];
            g.set_pack();
            self.area.set(this_pos, g);
            self.pushes = self.pushes - 1;
        } else {
            let mut g = self.area[this_pos];
            g.unset_player();
            self.area.set(this_pos, g);
        }
        let mut g = self.area[prev_pos];
        g.set_player();
        self.area.set(prev_pos, g);
        self.player_x = px;
        self.player_y = py;
        proof {
            assert(self@.area =~= unstep(w0, h0, v).area);
            assert(self@ == unstep(w0, h0, v));
        }
        true
    }

    /// Tell whether the level is done: every box stands on a target and every target
    /// holds a box.
    pub fn is_done(&self) -> (r: bool)
        ensures
            r == done(self.area@),
    {
        let n = self.area.len();
        let ghost area = self.area@;
        let mut packs: usize = 0;
        let mut targets: usize = 0;
        let mut on_targets: usize = 0;
        let mut i: usize = 0;
        while i < n
            invariant
                n == area.len(),
                area == self.area@,
                i <= n,
                packs == count_of(area.subrange(0, i as int), 1),
                targets == count_of(area.subrange(0, i as int), 2),
                on_targets == count_of(area.subrange(0, i as int), 3),
            decreases n - i,
        {
            proof {
                lemma_count_of_push(area, i as int, 1);
                lemma_count_of_push(area, i as int, 2);
                lemma_count_of_push(area, i as int, 3);
            }
            let f = self.area[i];
            if f.is_pack() {
                packs = packs + 1;
            }
            if f.is_target() {
                targets = targets + 1;
            }
            if f == Field::PackOnTarget {
                on_targets = on_targets + 1;
            }
            i = i + 1;
        }
        proof {
            assert(area.subrange(0, n as int) =~= area);
        }
        packs == on_targets && targets == on_targets
    }
}

/// A copy of an area.
fn copy_area(area: &Vec<Field>) -> (r: Vec<Field>)
    ensures
        r@ == area@,
{
    let mut r: Vec<Field> = Vec::new();
    let mut i: usize = 0;
    while i < area.len()
        invariant
            i <= area@.len(),
            r@ == area@.subrange(0, i as int),
        decreases area@.len() - i,
    {
        r.push(area[i]);
        i = i + 1;
        proof {
            assert(r@ =~= area@.subrange(0, i as int));
        }
    }
    proof {
        assert(area@.subrange(0, area@.len() as int) =~= area@);
    }
    r
}

} // verus!
