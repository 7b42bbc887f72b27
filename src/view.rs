use vstd::prelude::*;

verus! {

/// Where a level of `level_dim` fields along one axis is drawn on a display of
/// `disp_dim` cells, keeping the field `center` in sight: the first display cell used,
/// the first level field shown, and the number of fields shown.
pub open spec fn window(level_dim: int, disp_dim: int, center: int) -> (int, int, int) {
    if disp_dim >= level_dim {
        (disp_dim / 2 - level_dim / 2, 0, level_dim)
    } else if center >= disp_dim / 2 {
        if center + (disp_dim - disp_dim / 2) <= level_dim {
            (0, center - disp_dim / 2, disp_dim)
        } else {
            (0, level_dim - disp_dim, disp_dim)
        }
    } else {
        (0, 0, disp_dim)
    }
}

/// Place a level along one axis of the display: the level is centered where it fits,
/// else the shown part is centered on `center` and kept inside the level.
pub fn determine_display_and_level_position(level_dim: usize, disp_dim: usize, center: usize) -> (r: (
    usize,
    usize,
    usize,
))
    ensures
        (r.0 as int, r.1 as int, r.2 as int) == window(level_dim as int, disp_dim as int, center as int),
        r.1 + r.2 <= level_dim,
{
    let half = disp_dim / 2;
    if disp_dim >= level_dim {
        (half - level_dim / 2, 0, level_dim)
    } else if center >= half {
        if center <= level_dim - (disp_dim - half) {
            (0, center - half, disp_dim)
        } else {
            (0, level_dim - disp_dim, disp_dim)
        }
    } else {
        (0, 0, disp_dim)
    }
}

/// Characters at which a message line may be broken.
pub open spec fn is_break(c: char) -> bool {
    c == ' ' || c == '.' || c == ';' || c == ',' || c == '\t'
}

/// Characters dropped from the end of a broken line.
pub open spec fn is_blank(c: char) -> bool {
    c == ' ' || c == '\n' || c == '\t'
}

/// Index of the first line feed among `t[from..to]`, counted from `from`, or -1.
pub open spec fn first_newline(t: Seq<char>, from: int, to: int) -> int
    decreases to - from,
{
    if from >= to {
        -1
    } else if t[from] == '\n' {
        0
    } else if first_newline(t, from + 1, to) >= 0 {
        first_newline(t, from + 1, to) + 1
    } else {
        -1
    }
}

/// Index of the last break character among `t[from..to]`, counted from `from`, or -1.
pub open spec fn last_break(t: Seq<char>, from: int, to: int) -> int
    decreases to - from,
{
    if from >= to {
        -1
    } else if is_break(t[to - 1]) {
        to - 1 - from
    } else {
        last_break(t, from, to - 1)
    }
}

/// From offset `p` of a line starting at `i`, step back over blank characters, but not
/// below offset 1.
pub open spec fn back_off(t: Seq<char>, i: int, p: int) -> int
    decreases p,
{
    if p > 1 && is_blank(t[i + p]) {
        back_off(t, i, p - 1)
    } else {
        p
    }
}

/// A line feed found lies in the range searched.
pub proof fn lemma_first_newline_bound(t: Seq<char>, from: int, to: int)
    requires
        from <= to,
    ensures
        first_newline(t, from, to) < to - from,
    decreases to - from,
{
    if from < to && t[from] != '\n' {
        lemma_first_newline_bound(t, from + 1, to);
    }
}

/// A break character found lies in the range searched.
pub proof fn lemma_last_break_bound(t: Seq<char>, from: int, to: int)
    requires
        from <= to,
    ensures
        last_break(t, from, to) < to - from,
    decreases to - from,
{
    if from < to && !is_break(t[to - 1]) {
        lemma_last_break_bound(t, from, to - 1);
    }
}

#[via_fn]
proof fn wrap_from_decreases(t: Seq<char>, m: int, i: int) {
    if m > 0 {
        lemma_first_newline_bound(t, i, i + m);
        lemma_last_break_bound(t, i, i + m);
    }
    if i <= t.len() {
        lemma_first_newline_bound(t, i, t.len() as int);
    }
}

/// The lines of a message from offset `i` on, at most `m` characters each: a line ends
/// at a line feed, else it is broken after its last break character, without the blank
/// characters before that; a stretch of `m` characters with neither is passed over.
pub open spec fn wrap_from(t: Seq<char>, m: int, i: int) -> Seq<Seq<char>>
    decreases t.len() - i,
    via wrap_from_decreases
{
    if m <= 0 || i < 0 || i >= t.len() + 1 {
        seq![]
    } else if i + m < t.len() {
        let nl = first_newline(t, i, i + m);
        let br = last_break(t, i, i + m);
        if nl >= 0 {
            seq![t.subrange(i, i + nl)] + wrap_from(t, m, i + nl + 1)
        } else if br >= 0 {
            seq![t.subrange(i, i + back_off(t, i, br) + 1)] + wrap_from(t, m, i + br + 1)
        } else {
            wrap_from(t, m, i + m)
        }
    } else {
        let nl = first_newline(t, i, t.len() as int);
        if nl >= 0 {
            seq![t.subrange(i, i + nl)] + if i + nl + 1 >= t.len() {
                seq![]
            } else {
                wrap_from(t, m, i + nl + 1)
            }
        } else {
            seq![t.subrange(i, t.len() as int)]
        }
    }
}

/// Index of the first line feed among `t[from..to]`, counted from `from`.
fn find_newline(t: &Vec<char>, from: usize, to: usize) -> (r: Option<usize>)
    requires
        from <= to <= t@.len(),
    ensures
        match r {
            Some(p) => p == first_newline(t@, from as int, to as int) && p < to - from,
            None => first_newline(t@, from as int, to as int) < 0,
        },
    decreases to - from,
{
    if from >= to {
        None
    } else if t[from] == '\n' {
        Some(0)
    } else {
        match find_newline(t, from + 1, to) {
            Some(p) => Some(p + 1),
            None => None,
        }
    }
}

/// Index of the last break character among `t[from..to]`, counted from `from`.
fn find_last_break(t: &Vec<char>, from: usize, to: usize) -> (r: Option<usize>)
    requires
        from <= to <= t@.len(),
    ensures
        match r {
            Some(p) => p == last_break(t@, from as int, to as int) && p < to - from,
            None => last_break(t@, from as int, to as int) < 0,
        },
    decreases to - from,
{
    if from >= to {
        None
    } else {
        let c = t[to - 1];
        if c == ' ' || c == '.' || c == ';' || c == ',' || c == '\t' {
            Some(to - 1 - from)
        } else {
            find_last_break(t, from, to - 1)
        }
    }
}

/// The characters `t[from..to]`.
fn slice_of(t: &Vec<char>, from: usize, to: usize) -> (r: Vec<char>)
    requires
        from <= to <= t@.len(),
    ensures
        r@ == t@.subrange(from as int, to as int),
{
    let mut r: Vec<char> = Vec::new();
    let mut k = from;
    while k < to
        invariant
            from <= k <= to,
            to <= t@.len(),
            r@ == t@.subrange(from as int, k as int),
        decreases to - k,
    {
        r.push(t[k]);
        k = k + 1;
        proof {
            assert(r@ =~= t@.subrange(from as int, k as int));
        }
    }
    r
}

/// Break a message into lines of at most `max_len` characters.
pub fn wrap_message(t: &Vec<char>, max_len: usize) -> (r: Vec<Vec<char>>)
    requires
        max_len > 0,
    ensures
        r@.map_values(|l: Vec<char>| l@) == wrap_from(t@, max_len as int, 0),
{
    let n = t.len();
    let m = max_len;
    let ghost whole = wrap_from(t@, m as int, 0);
    let mut out: Vec<Vec<char>> = Vec::new();
    let mut i: usize = 0;
    let mut done = false;
    while !done
        invariant
            n == t@.len(),
            m > 0,
            i <= n,
            done ==> out@.map_values(|l: Vec<char>| l@) == whole,
            !done ==> out@.map_values(|l: Vec<char>| l@) + wrap_from(t@, m as int, i as int) == whole,
        decreases n - i + if done { 0int } else { 1int },
    {
        let ghost before = out@.map_values(|l: Vec<char>| l@);
        let ghost rest = wrap_from(t@, m as int, i as int);
        if m < n - i {
            match find_newline(t, i, i + m) {
                Some(p) => {
                    out.push(slice_of(t, i, i + p));
                    i = i + p + 1;
                },
                None => match find_last_break(t, i, i + m) {
                    Some(b) => {
                        let mut p = b;
                        while p > 1 && (t[i + p] == ' ' || t[i + p] == '\n' || t[i + p] == '\t')
                            invariant
                                p <= b,
                                i + b < n,
                                n == t@.len(),
                                back_off(t@, i as int, p as int) == back_off(t@, i as int, b as int),
                            decreases p,
                        {
                            p = p - 1;
                        }
                        out.push(slice_of(t, i, i + p + 1));
                        i = i + b + 1;
                    },
                    None => {
                        i = i + m;
                    },
                },
            }
        } else {
            match find_newline(t, i, n) {
                Some(p) => {
                    out.push(slice_of(t, i, i + p));
                    if i + p + 1 >= n {
                        done = true;
                    } else {
                        i = i + p + 1;
                    }
                },
                None => {
                    out.push(slice_of(t, i, n));
                    done = true;
                },
            }
        }
        proof {
            let now = out@.map_values(|l: Vec<char>| l@);
            if now.len() > before.len() {
                assert(now =~= before + seq![now.last()]);
            } else {
                assert(now =~= before);
            }
        }
    }
    out
}

} // verus!
