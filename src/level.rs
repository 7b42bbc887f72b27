use vstd::prelude::*;
use crate::defs::{CheckError, CheckErrors, Field, ParseError, char_to_field, field_of_char};
use vstd::string::{StrSliceExecFns, StringSliceAdditionalSpecFns};
use crate::grid::{
    closed, dir_done, lemma_cell_index, lemma_closed_grows, lemma_closed_holds_reached,
    lemma_dir_done_grows, lemma_grid_index, lemma_neighbor_in_area, lemma_neighbor_opposite, lemma_unmarked_mark,
    on_border, open_cell, reachable, reached_in, step_index, unmarked,
};

verus! {

/// A level of the game. The name may be empty. The area holds the fields of the level
/// row by row, from top to bottom and from left to right.
#[derive(PartialEq, Eq, Debug)]
pub struct Level {
    pub name: String,
    pub width: usize,
    pub height: usize,
    pub area: Vec<Field>,
}

/// What a level is: its name, its dimensions and its fields.
pub struct LevelModel {
    pub name: Seq<char>,
    pub width: nat,
    pub height: nat,
    pub area: Seq<Field>,
}

impl View for Level {
    type V = LevelModel;

    open spec fn view(&self) -> LevelModel {
        LevelModel {
            name: self.name@,
            width: self.width as nat,
            height: self.height as nat,
            area: self.area@,
        }
    }
}

impl Level {
    /// The area holds exactly `width * height` fields.
    pub open spec fn wf(&self) -> bool {
        self.area@.len() == self.width * self.height
    }

    /// Cell `j` lies in the region of cells that are not walls around cell `s`.
    pub open spec fn reaches(&self, s: int, j: int) -> bool {
        reachable(self.area@, self.width as int, self.height as int, s, j)
    }

    /// Cell `j` lies on the frame of the level.
    pub open spec fn at_border(&self, j: int) -> bool {
        on_border(self.width as int, self.height as int, j)
    }

    /// Mark the fields that the player standing at cell `start` can walk to, through
    /// fields that are not walls (packs do not stop the walk), and tell whether the walk
    /// reaches the frame of the level, where the player could leave it.
    pub fn fill_reachable(&self, start: usize) -> (r: (Vec<bool>, bool))
        requires
            self.wf(),
            start < self.area@.len(),
        ensures
            r.0@.len() == self.area@.len(),
            forall|j: int| 0 <= j < self.area@.len() ==> r.0@[j] == self.reaches(start as int, j),
            r.1 == exists|j: int|
                0 <= j < self.area@.len() && self.reaches(start as int, j) && self.at_border(j),
    {
        let n = self.area.len();
        let w = self.width;
        let h = self.height;
        let ghost area = self.area@;
        let ghost s = start as int;
        proof {
            if w == 0 {
                assert(w * h == 0);
            }
        }
        let mut marked: Vec<bool> = Vec::new();
        let mut i: usize = 0;
        while i < n
            invariant
                i <= n,
                marked@.len() == i,
                forall|j: int| 0 <= j < i ==> !marked@[j],
                unmarked(marked@) == i,
            decreases n - i,
        {
            proof {
                assert(marked@.push(false).drop_last() =~= marked@);
            }
            marked.push(false);
            i = i + 1;
        }
        let mut stack: Vec<usize> = Vec::new();
        let mut touched = false;
        if self.area[start] != Field::Wall {
            proof {
                lemma_unmarked_mark(marked@, s);
                assert(reached_in(area, w as int, h as int, s, 0, s));
            }
            marked.set(start, true);
            stack.push(start);
            assert(stack@[0] == start);
            assert forall|j: int| 0 <= j < n && #[trigger] marked@[j] implies j == s by {}
        }
        while stack.len() > 0
            invariant
                0 < w,
                n == area.len(),
                area == self.area@,
                w == self.width,
                h == self.height,
                self.wf(),
                s < n,
                marked@.len() == n,
                open_cell(area, s) ==> marked@[s],
                forall|j: int|
                    0 <= j < n && #[trigger] marked@[j] ==> reachable(area, w as int, h as int, s, j),
                forall|j: int| 0 <= j < n && #[trigger] marked@[j] ==> area[j] != Field::Wall,
                forall|k: int|
                    0 <= k < stack@.len() ==> #[trigger] stack@[k] < n && marked@[stack@[k] as int],
                stack@.no_duplicates(),
                forall|j: int|
                    0 <= j < n && #[trigger] marked@[j] && !stack@.contains(j as usize) ==> closed(
                        area,
                        w as int,
                        h as int,
                        marked@,
                        touched,
                        j,
                    ),
                touched ==> exists|j: int|
                    0 <= j < n && reachable(area, w as int, h as int, s, j) && on_border(
                        w as int,
                        h as int,
                        j,
                    ),
                unmarked(marked@) <= n,
            decreases 2 * unmarked(marked@) + stack@.len(),
        {
            let ghost measure = 2 * unmarked(marked@) + stack@.len();
            let ghost before = stack@;
            let c = stack.pop().unwrap();
            assert(!stack@.contains(c)) by {
                if stack@.contains(c) {
                    let k = choose|k: int| 0 <= k < stack@.len() && stack@[k] == c;
                    assert(before[k] == before[before.len() - 1]);
                }
            }
            assert forall|j: usize| #[trigger] before.contains(j) && j != c implies stack@.contains(j) by {
                let k = choose|k: int| 0 <= k < before.len() && before[k] == j;
                assert(stack@[k] == j);
            }
            let mut d: usize = 0;
            while d < 4
                invariant
                    0 < w,
                    n == area.len(),
                    area == self.area@,
                    w == self.width,
                    h == self.height,
                    self.wf(),
                    s < n,
                    c < n,
                    d <= 4,
                    marked@.len() == n,
                    marked@[c as int],
                    !stack@.contains(c),
                    open_cell(area, s) ==> marked@[s],
                    forall|j: int|
                        0 <= j < n && #[trigger] marked@[j] ==> reachable(area, w as int, h as int, s, j),
                    forall|j: int| 0 <= j < n && #[trigger] marked@[j] ==> area[j] != Field::Wall,
                    forall|k: int|
                        0 <= k < stack@.len() ==> #[trigger] stack@[k] < n && marked@[stack@[k] as int],
                    stack@.no_duplicates(),
                    forall|j: int|
                        0 <= j < n && #[trigger] marked@[j] && !stack@.contains(j as usize) && j != c
                            ==> closed(area, w as int, h as int, marked@, touched, j),
                    forall|e: int|
                        0 <= e < d ==> #[trigger] dir_done(area, w as int, h as int, marked@, touched, c as int, e),
                    touched ==> exists|j: int|
                        0 <= j < n && reachable(area, w as int, h as int, s, j) && on_border(
                            w as int,
                            h as int,
                            j,
                        ),
                    unmarked(marked@) <= n,
                    2 * unmarked(marked@) + stack@.len() < measure,
                decreases 4 - d,
            {
                let ghost m0 = marked@;
                let ghost t0 = touched;
                let ghost st0 = stack@;
                match step_index(w, h, c, d) {
                    None => {
                        proof {
                            assert(reachable(area, w as int, h as int, s, c as int));
                            assert(on_border(w as int, h as int, c as int));
                        }
                        touched = true;
                    },
                    Some(nb) => {
                        if self.area[nb] != Field::Wall && !marked[nb] {
                            proof {
                                lemma_neighbor_opposite(w as int, h as int, c as int, d as int);
                                let k = choose|k: nat| #[trigger] reached_in(area, w as int, h as int, s, k, c as int);
                                assert(reached_in(area, w as int, h as int, s, k + 1, nb as int));
                                lemma_unmarked_mark(marked@, nb as int);
                            }
                            marked.set(nb, true);
                            stack.push(nb);
                            assert(stack@[stack@.len() - 1] == nb);
                            assert forall|j: int| 0 <= j < n && #[trigger] marked@[j] && !m0[j]
                                implies stack@.contains(j as usize) by {
                                assert(j == nb);
                            }
                        }
                    },
                }
                proof {
                    assert forall|j: usize| #[trigger] st0.contains(j) implies stack@.contains(j) by {
                        let k = choose|k: int| 0 <= k < st0.len() && st0[k] == j;
                        assert(stack@[k] == j);
                    }
                    assert forall|j: int|
                        0 <= j < n && #[trigger] marked@[j] && !stack@.contains(j as usize) && j != c
                            implies closed(area, w as int, h as int, marked@, touched, j) by {
                        assert(m0[j]);
                        assert(!st0.contains(j as usize));
                        lemma_closed_grows(area, w as int, h as int, m0, t0, marked@, touched, j);
                    }
                    assert forall|e: int| 0 <= e < d + 1 implies #[trigger] dir_done(
                        area,
                        w as int,
                        h as int,
                        marked@,
                        touched,
                        c as int,
                        e,
                    ) by {
                        if e < d {
                            lemma_neighbor_in_area(w as int, h as int, c as int, e);
                            lemma_dir_done_grows(area, w as int, h as int, m0, t0, marked@, touched, c as int, e);
                        }
                    }
                }
                d = d + 1;
            }
        }
        proof {
            assert forall|j: int| 0 <= j < n && #[trigger] marked@[j] implies closed(
                area,
                w as int,
                h as int,
                marked@,
                touched,
                j,
            ) by {
                assert(!stack@.contains(j as usize));
            }
            assert forall|j: int| 0 <= j < n implies marked@[j] == reachable(
                area,
                w as int,
                h as int,
                s,
                j,
            ) by {
                if reachable(area, w as int, h as int, s, j) {
                    let k = choose|k: nat| #[trigger] reached_in(area, w as int, h as int, s, k, j);
                    lemma_closed_holds_reached(area, w as int, h as int, s, marked@, touched, k);
                }
            }
            if exists|j: int|
                0 <= j < n && reachable(area, w as int, h as int, s, j) && on_border(w as int, h as int, j) {
                let j = choose|j: int|
                    0 <= j < n && reachable(area, w as int, h as int, s, j) && on_border(w as int, h as int, j);
                assert(marked@[j]);
                assert(closed(area, w as int, h as int, marked@, touched, j));
            }
            if touched {
                let j = choose|j: int|
                    0 <= j < n && reachable(area, w as int, h as int, s, j) && on_border(w as int, h as int, j);
                assert(self.reaches(s, j) && self.at_border(j));
            }
        }
        (marked, touched)
    }

    /// Count the players, packs and targets, and find the first player.
    pub(crate) fn count_fields(&self) -> (r: (usize, usize, usize, Option<usize>))
        requires
            self.wf(),
        ensures
            r.0 == count_of(self.area@, 0),
            r.1 == count_of(self.area@, 1),
            r.2 == count_of(self.area@, 2),
            match r.3 {
                Some(p) => p == self.first_player() && p < self.area@.len(),
                None => self.first_player() < 0,
            },
    {
        let n = self.area.len();
        let ghost area = self.area@;
        let mut players: usize = 0;
        let mut packs: usize = 0;
        let mut targets: usize = 0;
        let mut first: Option<usize> = None;
        let mut i: usize = 0;
        while i < n
            invariant
                n == area.len(),
                area == self.area@,
                i <= n,
                players == count_of(area.subrange(0, i as int), 0),
                packs == count_of(area.subrange(0, i as int), 1),
                targets == count_of(area.subrange(0, i as int), 2),
                match first {
                    Some(p) => p == first_player_in(area.subrange(0, i as int)) && p < i,
                    None => first_player_in(area.subrange(0, i as int)) < 0,
                },
            decreases n - i,
        {
            proof {
                lemma_count_of_push(area, i as int, 0);
                lemma_count_of_push(area, i as int, 1);
                lemma_count_of_push(area, i as int, 2);
                assert(area.subrange(0, i + 1).drop_last() =~= area.subrange(0, i as int));
            }
            let f = self.area[i];
            if f.is_player() {
                players = players + 1;
                if first.is_none() {
                    first = Some(i);
                }
            }
            if f.is_pack() {
                packs = packs + 1;
            }
            if f.is_target() {
                targets = targets + 1;
            }
            i = i + 1;
        }
        proof {
            assert(area.subrange(0, n as int) =~= area);
        }
        (players, packs, targets, first)
    }

    /// Append the errors of the walk from the player at cell `p`: `LevelOpen` where the
    /// walk reaches the frame, then, row by row, each plain pack and each empty target
    /// outside the region of cells that are not walls around `p`.
    pub fn check_level_by_fill(&self, p: usize, errors: &mut Vec<CheckError>)
        requires
            self.wf(),
            p < self.area@.len(),
            p == self.first_player(),
        ensures
            final(errors)@ == old(errors)@ + self.fill_errors(),
    {
        let (reached, touched) = self.fill_reachable(p);
        let ghost base = errors@;
        if touched {
            errors.push(CheckError::LevelOpen);
        }
        self.push_unreached(p, &reached, Field::Pack, errors);
        self.push_unreached(p, &reached, Field::Target, errors);
        assert(errors@ =~= base + self.fill_errors());
    }

    /// Append, row by row, the fields equal to `kind` that are not marked in `reached`.
    fn push_unreached(&self, p: usize, reached: &Vec<bool>, kind: Field, errors: &mut Vec<CheckError>)
        requires
            self.wf(),
            p < self.area@.len(),
            kind == Field::Pack || kind == Field::Target,
            reached@.len() == self.area@.len(),
            forall|j: int| 0 <= j < self.area@.len() ==> reached@[j] == self.reaches(p as int, j),
        ensures
            final(errors)@ == old(errors)@ + self.unreached_errors(p as int, kind, self.area@.len()),
    {
        let n = self.area.len();
        let w = self.width;
        let ghost base = errors@;
        let mut i: usize = 0;
        while i < n
            invariant
                n == self.area@.len(),
                w == self.width,
                self.wf(),
                i <= n,
                kind == Field::Pack || kind == Field::Target,
                reached@.len() == n,
                forall|j: int| 0 <= j < n ==> reached@[j] == self.reaches(p as int, j),
                errors@ == base + self.unreached_errors(p as int, kind, i as nat),
            decreases n - i,
        {
            if self.area[i] == kind && !reached[i] {
                proof {
                    let h = self.height;
                    assert(w > 0) by (nonlinear_arith)
                        requires
                            i < w * h,
                    ;
                }
                if kind == Field::Pack {
                    errors.push(CheckError::PackNotAvailable(i % w, i / w));
                } else {
                    errors.push(CheckError::TargetNotAvailable(i % w, i / w));
                }
            }
            i = i + 1;
            proof {
                assert(errors@ =~= base + self.unreached_errors(p as int, kind, i as nat));
            }
        }
    }

    /// Append the 2x2 blocks of packs and walls that hold a pack off target, row by row.
    fn push_block_errors(&self, errors: &mut Vec<CheckError>)
        requires
            self.wf(),
        ensures
            final(errors)@ == old(errors)@ + self.block_errors(),
    {
        let w = self.width;
        let h = self.height;
        let n = self.area.len();
        let ghost base = errors@;
        if w < 2 || h < 2 {
            return;
        }
        let mut iy: usize = 0;
        while iy < h - 1
            invariant
                w == self.width,
                h == self.height,
                self.wf(),
                n == w * h,
                w >= 2,
                h >= 2,
                iy <= h - 1,
                errors@ == base + self.block_rows(iy as nat),
            decreases h - iy,
        {
            let mut ix: usize = 0;
            while ix < w - 1
                invariant
                    w == self.width,
                    h == self.height,
                    self.wf(),
                    n == w * h,
                    w >= 2,
                    iy < h - 1,
                    ix <= w - 1,
                    errors@ == base + self.block_rows(iy as nat) + self.block_row(iy as int, ix as nat),
                decreases w - ix,
            {
                proof {
                    lemma_cell_index(w as int, h as int, ix as int, iy as int);
                    lemma_cell_index(w as int, h as int, ix + 1, iy as int);
                    lemma_cell_index(w as int, h as int, ix as int, iy + 1);
                    lemma_cell_index(w as int, h as int, ix + 1, iy + 1);
                }
                let ul = self.area[iy * w + ix];
                let ur = self.area[iy * w + ix + 1];
                let dl = self.area[(iy + 1) * w + ix];
                let dr = self.area[(iy + 1) * w + ix + 1];
                if (ul.is_pack() || ul == Field::Wall) && (ur.is_pack() || ur == Field::Wall) && (
                dl.is_pack() || dl == Field::Wall) && (dr.is_pack() || dr == Field::Wall) {
                    let mut packs: usize = 0;
                    let mut on_target: usize = 0;
                    if ul.is_pack() { packs = packs + 1; }
                    if ur.is_pack() { packs = packs + 1; }
                    if dl.is_pack() { packs = packs + 1; }
                    if dr.is_pack() { packs = packs + 1; }
                    if ul == Field::PackOnTarget { on_target = on_target + 1; }
                    if ur == Field::PackOnTarget { on_target = on_target + 1; }
                    if dl == Field::PackOnTarget { on_target = on_target + 1; }
                    if dr == Field::PackOnTarget { on_target = on_target + 1; }
                    if on_target != packs {
                        errors.push(CheckError::Locked2x2Block(ix, iy));
                    }
                }
                ix = ix + 1;
                proof {
                    assert(errors@ =~= base + self.block_rows(iy as nat) + self.block_row(iy as int, ix as nat));
                }
            }
            iy = iy + 1;
            proof {
                assert(errors@ =~= base + self.block_rows(iy as nat));
            }
        }
    }

    /// Append the plain packs locked in corners of walls, row by row.
    fn push_corner_errors(&self, errors: &mut Vec<CheckError>)
        requires
            self.wf(),
        ensures
            final(errors)@ == old(errors)@ + self.corner_errors(),
    {
        let w = self.width;
        let h = self.height;
        let n = self.area.len();
        let ghost base = errors@;
        if w < 3 || h < 3 {
            return;
        }
        let mut iy: usize = 1;
        while iy < h - 1
            invariant
                w == self.width,
                h == self.height,
                self.wf(),
                n == w * h,
                w >= 3,
                h >= 3,
                1 <= iy <= h - 1,
                errors@ == base + self.corner_rows(iy as nat),
            decreases h - iy,
        {
            let mut ix: usize = 1;
            while ix < w - 1
                invariant
                    w == self.width,
                    h == self.height,
                    self.wf(),
                    n == w * h,
                    w >= 3,
                    1 <= iy < h - 1,
                    1 <= ix <= w - 1,
                    errors@ == base + self.corner_rows(iy as nat) + self.corner_row(iy as int, ix as nat),
                decreases w - ix,
            {
                proof {
                    lemma_cell_index(w as int, h as int, ix as int, iy - 1);
                    lemma_cell_index(w as int, h as int, ix - 1, iy as int);
                    lemma_cell_index(w as int, h as int, ix as int, iy as int);
                    lemma_cell_index(w as int, h as int, ix + 1, iy as int);
                    lemma_cell_index(w as int, h as int, ix as int, iy + 1);
                }
                let field_u = self.area[(iy - 1) * w + ix];
                let field_l = self.area[iy * w + ix - 1];
                let field = self.area[iy * w + ix];
                let field_r = self.area[iy * w + ix + 1];
                let field_d = self.area[(iy + 1) * w + ix];
                if field == Field::Pack {
                    let up = field_u == Field::Wall;
                    let down = field_d == Field::Wall;
                    let left = field_l == Field::Wall;
                    let right = field_r == Field::Wall;
                    if (up && (left || right)) || (down && (left || right)) || (left && (up || down))
                        || (right && (up || down)) {
                        errors.push(CheckError::LockedPackApartWalls(ix, iy));
                    }
                }
                ix = ix + 1;
                proof {
                    assert(errors@ =~= base + self.corner_rows(iy as nat) + self.corner_row(iy as int, ix as nat));
                }
            }
            iy = iy + 1;
            proof {
                assert(errors@ =~= base + self.corner_rows(iy as nat));
            }
        }
    }

    /// Validate the level. Every defect found is reported, in this order: the number of
    /// players, the numbers of packs and targets, then, walking from the player, an open
    /// level, unreachable packs and unreachable targets, then locked 2x2 blocks, then
    /// packs locked in corners of walls.
    pub fn check(&self) -> (r: Result<(), CheckErrors>)
        requires
            self.wf(),
        ensures
            match r {
                Ok(()) => self.all_errors().len() == 0,
                Err(e) => e.0@ == self.all_errors() && e.0@.len() > 0,
            },
    {
        let mut errors: Vec<CheckError> = Vec::new();
        let (players, packs, targets, first) = self.count_fields();
        if players == 0 {
            errors.push(CheckError::NoPlayer);
        } else if players > 1 {
            errors.push(CheckError::TooManyPlayers);
        }
        if packs < targets {
            errors.push(CheckError::TooFewPacks(targets));
        } else if targets < packs {
            errors.push(CheckError::TooFewTargets(packs));
        }
        let ghost counted = errors@;
        assert(counted =~= self.player_errors() + self.count_errors());
        match first {
            Some(p) => self.check_level_by_fill(p, &mut errors),
            None => {},
        }
        self.push_block_errors(&mut errors);
        self.push_corner_errors(&mut errors);
        assert(errors@ =~= self.all_errors());
        if errors.len() != 0 {
            Err(CheckErrors(errors))
        } else {
            Ok(())
        }
    }

    /// Name of the level.
    pub fn name(&self) -> (r: &String)
        ensures
            r@ == self.name@,
    {
        &self.name
    }

    /// Width of the level.
    pub fn width(&self) -> (r: usize)
        ensures
            r == self.width,
    {
        self.width
    }

    /// Height of the level.
    pub fn height(&self) -> (r: usize)
        ensures
            r == self.height,
    {
        self.height
    }

    /// The area of the level.
    pub fn area(&self) -> (r: &Vec<Field>)
        ensures
            r@ == self.area@,
    {
        &self.area
    }

    /// An empty level: no name, no fields.
    pub fn empty() -> (r: Level)
        ensures
            r.name@.len() == 0,
            r.width == 0,
            r.height == 0,
            r.area@.len() == 0,
            r.wf(),
    {
        Level { name: String::new(), width: 0, height: 0, area: Vec::new() }
    }

    /// Create a level from its area.
    pub fn new(name: &str, width: usize, height: usize, area: Vec<Field>) -> (r: Result<Level, ParseError>)
        ensures
            area@.len() == width * height ==> (r matches Ok(l) && l.name@ == name@ && l.width == width
                && l.height == height && l.area@ == area@ && l.wf()),
            area@.len() != width * height ==> r == Err::<Level, ParseError>(ParseError::WrongSize(width, height)),
    {
        let size = width.checked_mul(height);
        let len = area.len();
        if size.is_some() && size.unwrap() == len {
            Ok(Level { name: name.to_owned(), width, height, area })
        } else {
            Err(ParseError::WrongSize(width, height))
        }
    }

    /// Parse a level from its text: one character for each field, row by row.
    pub fn from_str(name: &str, width: usize, height: usize, astr: &str) -> (r: Result<Level, ParseError>)
        ensures
            astr.spec_bytes().len() != width * height ==> r == Err::<Level, ParseError>(
                ParseError::WrongSize(width, height),
            ),
            astr.spec_bytes().len() == width * height && first_bad_char(astr@) >= 0 ==> width > 0 && r
                == Err::<Level, ParseError>(
                ParseError::WrongField(
                    (first_bad_char(astr@) % width as int) as usize,
                    (first_bad_char(astr@) / width as int) as usize,
                ),
            ),
            astr.spec_bytes().len() == width * height && first_bad_char(astr@) < 0 ==> (r matches Ok(l)
                && l.name@ == name@ && l.width == width && l.height == height && l.area@ == decode(astr@)
                && l.wf()),
    {
        let size = width.checked_mul(height);
        let len = astr.as_bytes().len();
        if size.is_none() || size.unwrap() != len {
            return Err(ParseError::WrongSize(width, height));
        }
        let n = astr.unicode_len();
        let mut area: Vec<Field> = Vec::new();
        let mut i: usize = 0;
        while i < n
            invariant
                n == astr@.len(),
                astr.spec_bytes().len() == width * height,
                i <= n,
                first_bad_char(astr@.subrange(0, i as int)) < 0,
                area@ == decode(astr@.subrange(0, i as int)),
            decreases n - i,
        {
            let c = astr.get_char(i);
            proof {
                assert(astr@.subrange(0, i + 1).drop_last() =~= astr@.subrange(0, i as int));
            }
            match char_to_field(c) {
                Some(f) => {
                    area.push(f);
                },
                None => {
                    proof {
                        lemma_first_bad_prefix(astr@, i as int);
                        lemma_nonempty_bytes(astr);
                        assert(width > 0) by (nonlinear_arith)
                            requires
                                0 < width * height,
                        ;
                    }
                    return Err(ParseError::WrongField(i % width, i / width));
                },
            }
            i = i + 1;
            proof {
                assert(area@ =~= decode(astr@.subrange(0, i as int)));
            }
        }
        proof {
            assert(astr@.subrange(0, n as int) =~= astr@);
            lemma_fields_are_ascii(astr@);
            vstd::utf8::is_ascii_chars_encode_utf8(astr@);
        }
        Ok(Level { name: name.to_owned(), width, height, area })
    }

    /// The field in column `x` and row `y`.
    pub open spec fn at(&self, x: int, y: int) -> Field {
        self.area@[y * self.width + x]
    }

    /// Index of the first field that holds the player, or -1 where none does.
    pub open spec fn first_player(&self) -> int {
        first_player_in(self.area@)
    }

    /// Errors on the number of players.
    pub open spec fn player_errors(&self) -> Seq<CheckError> {
        let np = count_of(self.area@, 0);
        if np == 0 {
            seq![CheckError::NoPlayer]
        } else if np == 1 {
            seq![]
        } else {
            seq![CheckError::TooManyPlayers]
        }
    }

    /// Errors on the numbers of packs and targets.
    pub open spec fn count_errors(&self) -> Seq<CheckError> {
        let packs = count_of(self.area@, 1);
        let targets = count_of(self.area@, 2);
        if packs < targets {
            seq![CheckError::TooFewPacks(targets as usize)]
        } else if targets < packs {
            seq![CheckError::TooFewTargets(packs as usize)]
        } else {
            seq![]
        }
    }

    /// Errors of the walk from the player: an open level, then the plain packs and
    /// the empty targets that the player cannot reach, row by row.
    pub open spec fn fill_errors(&self) -> Seq<CheckError> {
        let p = self.first_player();
        if p < 0 {
            seq![]
        } else {
            let open = exists|j: int| 0 <= j < self.area@.len() && self.reaches(p, j) && self.at_border(j);
            (if open { seq![CheckError::LevelOpen] } else { seq![] })
                + self.unreached_errors(p, Field::Pack, self.area@.len())
                + self.unreached_errors(p, Field::Target, self.area@.len())
        }
    }

    /// For the first `i` fields, the fields equal to `kind` that are not reached from cell `p`.
    pub open spec fn unreached_errors(&self, p: int, kind: Field, i: nat) -> Seq<CheckError>
        decreases i,
    {
        if i == 0 {
            seq![]
        } else {
            let j = i - 1;
            let x = (j % self.width as int) as usize;
            let y = (j / self.width as int) as usize;
            self.unreached_errors(p, kind, (i - 1) as nat) + if self.area@[j] == kind && !self.reaches(p, j) {
                if kind == Field::Pack {
                    seq![CheckError::PackNotAvailable(x, y)]
                } else {
                    seq![CheckError::TargetNotAvailable(x, y)]
                }
            } else {
                seq![]
            }
        }
    }

    /// The 2x2 window with its top left field at column `x` and row `y` holds only
    /// packs and walls, and not every pack in it stands on a target.
    pub open spec fn block_locked(&self, x: int, y: int) -> bool {
        let (a, b, c, d) = (self.at(x, y), self.at(x + 1, y), self.at(x, y + 1), self.at(x + 1, y + 1));
        (a.has_pack() || a == Field::Wall) && (b.has_pack() || b == Field::Wall) && (c.has_pack() || c
            == Field::Wall) && (d.has_pack() || d == Field::Wall) && on_target_n(a) + on_target_n(b)
            + on_target_n(c) + on_target_n(d) != pack_n(a) + pack_n(b) + pack_n(c) + pack_n(d)
    }

    /// Locked 2x2 blocks with their top left field in row `y`, in the first `c` columns.
    pub open spec fn block_row(&self, y: int, c: nat) -> Seq<CheckError>
        decreases c,
    {
        if c == 0 {
            seq![]
        } else {
            let x = c - 1;
            self.block_row(y, (c - 1) as nat) + if self.block_locked(x, y) {
                seq![CheckError::Locked2x2Block(x as usize, y as usize)]
            } else {
                seq![]
            }
        }
    }

    /// Locked 2x2 blocks with their top left field in the first `r` rows.
    pub open spec fn block_rows(&self, r: nat) -> Seq<CheckError>
        decreases r,
    {
        if r == 0 {
            seq![]
        } else {
            self.block_rows((r - 1) as nat) + self.block_row(r - 1, (self.width - 1) as nat)
        }
    }

    /// Locked 2x2 blocks, row by row.
    pub open spec fn block_errors(&self) -> Seq<CheckError> {
        if self.width >= 2 && self.height >= 2 {
            self.block_rows((self.height - 1) as nat)
        } else {
            seq![]
        }
    }

    /// The field in column `x` and row `y` is a plain pack with a wall beside it and a
    /// wall above or below it.
    pub open spec fn corner_locked(&self, x: int, y: int) -> bool {
        let up = self.at(x, y - 1) == Field::Wall;
        let down = self.at(x, y + 1) == Field::Wall;
        let left = self.at(x - 1, y) == Field::Wall;
        let right = self.at(x + 1, y) == Field::Wall;
        self.at(x, y) == Field::Pack && ((up && (left || right)) || (down && (left || right)) || (left
            && (up || down)) || (right && (up || down)))
    }

    /// Packs locked in corners in row `y`, among the inner columns before column `c`.
    pub open spec fn corner_row(&self, y: int, c: nat) -> Seq<CheckError>
        decreases c,
    {
        if c <= 1 {
            seq![]
        } else {
            let x = c - 1;
            self.corner_row(y, (c - 1) as nat) + if self.corner_locked(x, y) {
                seq![CheckError::LockedPackApartWalls(x as usize, y as usize)]
            } else {
                seq![]
            }
        }
    }

    /// Packs locked in corners among the inner rows before row `r`.
    pub open spec fn corner_rows(&self, r: nat) -> Seq<CheckError>
        decreases r,
    {
        if r <= 1 {
            seq![]
        } else {
            self.corner_rows((r - 1) as nat) + self.corner_row(r - 1, (self.width - 1) as nat)
        }
    }

    /// Packs locked in corners of walls, row by row.
    pub open spec fn corner_errors(&self) -> Seq<CheckError> {
        if self.width >= 3 && self.height >= 3 {
            self.corner_rows((self.height - 1) as nat)
        } else {
            seq![]
        }
    }

    /// Every defect of the level, in the order in which validation reports them.
    pub open spec fn all_errors(&self) -> Seq<CheckError> {
        self.player_errors() + self.count_errors() + self.fill_errors() + self.block_errors()
            + self.corner_errors()
    }
}

/// Index of the first character of `s` that stands for no field, or -1 where every
/// character stands for one.
pub open spec fn first_bad_char(s: Seq<char>) -> int
    decreases s.len(),
{
    if s.len() == 0 {
        -1
    } else if first_bad_char(s.drop_last()) >= 0 {
        first_bad_char(s.drop_last())
    } else if field_of_char(s.last()) is None {
        s.len() - 1
    } else {
        -1
    }
}

/// The fields that the characters of `s` stand for, an empty field for any other
/// character.
pub open spec fn decode(s: Seq<char>) -> Seq<Field> {
    s.map_values(
        |c: char|
            match field_of_char(c) {
                Some(f) => f,
                None => Field::Empty,
            },
    )
}

/// Where the prefix before `i` holds only field characters and the character at `i`
/// stands for no field, `i` is the first bad character of the whole text.
pub proof fn lemma_first_bad_prefix(s: Seq<char>, i: int)
    requires
        0 <= i < s.len(),
        first_bad_char(s.subrange(0, i)) < 0,
        field_of_char(s[i]) is None,
    ensures
        first_bad_char(s) == i,
    decreases s.len(),
{
    if s.len() == i + 1 {
        assert(s.drop_last() =~= s.subrange(0, i));
    } else {
        assert(s.drop_last().subrange(0, i) =~= s.subrange(0, i));
        lemma_first_bad_prefix(s.drop_last(), i);
    }
}

/// A text whose characters all stand for fields is ASCII.
proof fn lemma_fields_are_ascii(s: Seq<char>)
    requires
        first_bad_char(s) < 0,
    ensures
        vstd::utf8::is_ascii_chars(s),
    decreases s.len(),
{
    if s.len() > 0 {
        lemma_fields_are_ascii(s.drop_last());
        assert forall|i: int| 0 <= i < s.len() implies '\0' <= #[trigger] s[i] <= '\u{7f}' by {
            if i < s.len() - 1 {
                assert(s[i] == s.drop_last()[i]);
            }
        }
    }
}

/// A text with a character has a byte.
proof fn lemma_nonempty_bytes(s: &str)
    requires
        s@.len() > 0,
    ensures
        s.spec_bytes().len() > 0,
{
    reveal_with_fuel(vstd::utf8::encode_utf8, 1);
}

/// 1 for a field holding a pack, else 0.
pub open spec fn pack_n(f: Field) -> int {
    if f.has_pack() { 1 } else { 0 }
}

/// 1 for a pack on a target, else 0.
pub open spec fn on_target_n(f: Field) -> int {
    if f == Field::PackOnTarget { 1 } else { 0 }
}

/// The error that reports field `j` of kind `kind` as out of the player's reach.
pub open spec fn unreached_entry(w: int, kind: Field, j: int) -> CheckError {
    if kind == Field::Pack {
        CheckError::PackNotAvailable((j % w) as usize, (j / w) as usize)
    } else {
        CheckError::TargetNotAvailable((j % w) as usize, (j / w) as usize)
    }
}

/// The walk from the player reports a plain pack, or an empty target, exactly when it
/// lies outside the region of cells that are not walls around the player: no reached
/// field is ever reported, and every field of that kind out of reach is.
pub proof fn lemma_unreached_errors_exact(level: &Level, p: int, kind: Field, i: nat)
    requires
        level.wf(),
        level.width > 0,
        i <= level.area@.len(),
        kind == Field::Pack || kind == Field::Target,
    ensures
        forall|j: int|
            0 <= j < i ==> (level.unreached_errors(p, kind, i).contains(
                #[trigger] unreached_entry(level.width as int, kind, j),
            ) <==> (level.area@[j] == kind && !level.reaches(p, j))),
    decreases i,
{
    let w = level.width as int;
    if i > 0 {
        lemma_unreached_errors_exact(level, p, kind, (i - 1) as nat);
        let prev = level.unreached_errors(p, kind, (i - 1) as nat);
        let cur = level.unreached_errors(p, kind, i);
        let last = i - 1;
        assert forall|j: int| 0 <= j < i implies (cur.contains(#[trigger] unreached_entry(w, kind, j))
            <==> (level.area@[j] == kind && !level.reaches(p, j))) by {
            let e = unreached_entry(w, kind, j);
            if j < last {
                lemma_grid_index(w, level.height as int, j);
                lemma_grid_index(w, level.height as int, last);
                assert(e != unreached_entry(w, kind, last));
                if cur.contains(e) {
                    let k = choose|k: int| 0 <= k < cur.len() && cur[k] == e;
                    if k >= prev.len() {
                        assert(cur[k] == unreached_entry(w, kind, last));
                    }
                    assert(prev.contains(e));
                }
                if prev.contains(e) {
                    let k = choose|k: int| 0 <= k < prev.len() && prev[k] == e;
                    assert(cur[k] == e);
                }
            } else {
                if level.area@[j] == kind && !level.reaches(p, j) {
                    assert(cur[cur.len() - 1] == e);
                } else {
                    assert(cur == prev);
                    if prev.contains(e) {
                        lemma_unreached_not_beyond(level, p, kind, (i - 1) as nat, j);
                    }
                }
            }
        }
    }
}

/// The errors for the first `i` fields report none of the fields from `i` on.
proof fn lemma_unreached_not_beyond(level: &Level, p: int, kind: Field, i: nat, j: int)
    requires
        level.wf(),
        level.width > 0,
        i <= j < level.area@.len(),
        kind == Field::Pack || kind == Field::Target,
    ensures
        !level.unreached_errors(p, kind, i).contains(unreached_entry(level.width as int, kind, j)),
    decreases i,
{
    let w = level.width as int;
    if i > 0 {
        lemma_unreached_not_beyond(level, p, kind, (i - 1) as nat, j);
        lemma_grid_index(w, level.height as int, j);
        lemma_grid_index(w, level.height as int, i - 1);
        let prev = level.unreached_errors(p, kind, (i - 1) as nat);
        let cur = level.unreached_errors(p, kind, i);
        let e = unreached_entry(w, kind, j);
        assert(e != unreached_entry(w, kind, i - 1));
        if cur.contains(e) {
            let k = choose|k: int| 0 <= k < cur.len() && cur[k] == e;
            if k < prev.len() {
                assert(prev[k] == e);
            }
        }
    }
}

/// The field is of the given kind: 0 holds the player, 1 holds a pack, 2 is a target,
/// 3 is a pack on a target.
pub open spec fn is_kind(f: Field, kind: int) -> bool {
    if kind == 0 {
        f.has_player()
    } else if kind == 1 {
        f.has_pack()
    } else if kind == 2 {
        f.has_target()
    } else {
        f == Field::PackOnTarget
    }
}

/// Number of fields of `s` of the given kind.
pub open spec fn count_of(s: Seq<Field>, kind: int) -> nat
    decreases s.len(),
{
    if s.len() == 0 {
        0
    } else {
        count_of(s.drop_last(), kind) + if is_kind(s.last(), kind) { 1nat } else { 0nat }
    }
}

/// Counting over one more field.
pub proof fn lemma_count_of_push(s: Seq<Field>, i: int, kind: int)
    requires
        0 <= i < s.len(),
    ensures
        count_of(s.subrange(0, i + 1), kind) == count_of(s.subrange(0, i), kind) + if is_kind(
            s[i],
            kind,
        ) {
            1nat
        } else {
            0nat
        },
        count_of(s.subrange(0, i), kind) <= i,
    decreases i,
{
    assert(s.subrange(0, i + 1).drop_last() =~= s.subrange(0, i));
    if i > 0 {
        lemma_count_of_push(s, i - 1, kind);
    }
}

/// Index of the first field of `s` that holds the player, or -1 where none does.
pub open spec fn first_player_in(s: Seq<Field>) -> int
    decreases s.len(),
{
    if s.len() == 0 {
        -1
    } else if first_player_in(s.drop_last()) >= 0 {
        first_player_in(s.drop_last())
    } else if s.last().has_player() {
        s.len() - 1
    } else {
        -1
    }
}

} // verus!
