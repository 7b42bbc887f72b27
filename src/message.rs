use vstd::prelude::*;
use crate::defs::{CheckError, CheckErrors};
use crate::text::{chars_of, string_of};

verus! {

/// The decimal digits of `n`.
pub open spec fn digits(n: nat) -> Seq<char>
    decreases n,
{
    if n < 10 {
        seq![(n + '0' as nat) as char]
    } else {
        digits(n / 10).push(((n % 10) + '0' as nat) as char)
    }
}

/// `x` and `y` written as a place: `4x5`.
pub open spec fn place(x: usize, y: usize) -> Seq<char> {
    digits(x as nat) + "x"@ + digits(y as nat)
}

/// The text of an error.
pub open spec fn error_text(e: CheckError) -> Seq<char> {
    match e {
        CheckError::NoPlayer => "No player"@,
        CheckError::TooManyPlayers => "Too many players"@,
        CheckError::NoPacksAndTargets => "No packs and targets"@,
        CheckError::LevelOpen => "Level open"@,
        CheckError::TooFewPacks(n) => "Too few packs - required "@ + digits(n as nat),
        CheckError::TooFewTargets(n) => "Too few targets - required "@ + digits(n as nat),
        CheckError::PackNotAvailable(x, y) => "Pack "@ + place(x, y) + " not available"@,
        CheckError::TargetNotAvailable(x, y) => "Target "@ + place(x, y) + " not available"@,
        CheckError::LockedPackApartWalls(x, y) => "Locked pack "@ + place(x, y) + " apart walls"@,
        CheckError::Locked2x2Block(x, y) => "Locked 2x2 block "@ + place(x, y),
    }
}

/// The texts of errors, each closed by a full stop, separated by spaces.
pub open spec fn errors_text(es: Seq<CheckError>) -> Seq<char>
    decreases es.len(),
{
    if es.len() == 0 {
        seq![]
    } else if es.len() == 1 {
        error_text(es[0]) + "."@
    } else {
        errors_text(es.drop_last()) + " "@ + error_text(es.last()) + "."@
    }
}

/// Append the characters of `s`.
fn append(out: &mut Vec<char>, s: &str)
    ensures
        final(out)@ == old(out)@ + s@,
{
    let cs = chars_of(s);
    let mut i: usize = 0;
    let ghost start = out@;
    while i < cs.len()
        invariant
            i <= cs@.len(),
            out@ == start + cs@.take(i as int),
        decreases cs@.len() - i,
    {
        out.push(cs[i]);
        i = i + 1;
        proof {
            assert(out@ =~= start + cs@.take(i as int));
        }
    }
    proof {
        assert(cs@.take(cs@.len() as int) =~= cs@);
    }
}

/// The character of a decimal digit.
fn digit_char(d: usize) -> (c: char)
    requires
        d < 10,
    ensures
        c == (d + '0' as nat) as char,
{
    match d {
        0 => '0',
        1 => '1',
        2 => '2',
        3 => '3',
        4 => '4',
        5 => '5',
        6 => '6',
        7 => '7',
        8 => '8',
        _ => '9',
    }
}

/// Append the decimal digits of `n`.
fn append_number(out: &mut Vec<char>, n: usize)
    ensures
        final(out)@ == old(out)@ + digits(n as nat),
    decreases n,
{
    if n >= 10 {
        append_number(out, n / 10);
    }
    let c = digit_char(n % 10);
    out.push(c);
    proof {
        if n < 10 {
            assert(old(out)@ + digits(n as nat) =~= old(out)@.push(c));
        }
    }
}

fn append_place(out: &mut Vec<char>, x: usize, y: usize)
    ensures
        final(out)@ == old(out)@ + place(x, y),
{
    append_number(out, x);
    append(out, "x");
    append_number(out, y);
    assert(final(out)@ =~= old(out)@ + place(x, y));
}

impl CheckError {
    /// The text of the error, as a message shows it.
    pub fn to_text(&self) -> (r: String)
        ensures
            r@ == error_text(*self),
    {
        let mut out: Vec<char> = Vec::new();
        self.append_text(&mut out);
        assert(out@ =~= error_text(*self));
        string_of(&out)
    }

    fn append_text(&self, out: &mut Vec<char>)
        ensures
            final(out)@ == old(out)@ + error_text(*self),
    {
        let ghost start = out@;
        match *self {
            CheckError::NoPlayer => append(out, "No player"),
            CheckError::TooManyPlayers => append(out, "Too many players"),
            CheckError::NoPacksAndTargets => append(out, "No packs and targets"),
            CheckError::LevelOpen => append(out, "Level open"),
            CheckError::TooFewPacks(n) => {
                append(out, "Too few packs - required ");
                append_number(out, n);
            },
            CheckError::TooFewTargets(n) => {
                append(out, "Too few targets - required ");
                append_number(out, n);
            },
            CheckError::PackNotAvailable(x, y) => {
                append(out, "Pack ");
                append_place(out, x, y);
                append(out, " not available");
            },
            CheckError::TargetNotAvailable(x, y) => {
                append(out, "Target ");
                append_place(out, x, y);
                append(out, " not available");
            },
            CheckError::LockedPackApartWalls(x, y) => {
                append(out, "Locked pack ");
                append_place(out, x, y);
                append(out, " apart walls");
            },
            CheckError::Locked2x2Block(x, y) => {
                append(out, "Locked 2x2 block ");
                append_place(out, x, y);
            },
        }
        assert(out@ =~= start + error_text(*self));
    }
}

impl CheckErrors {
    /// The errors as a message shows them: each closed by a full stop, separated by
    /// spaces.
    pub fn to_text(&self) -> (r: String)
        ensures
            r@ == errors_text(self.0@),
    {
        let mut out: Vec<char> = Vec::new();
        let mut i: usize = 0;
        while i < self.0.len()
            invariant
                i <= self.0@.len(),
                out@ == errors_text(self.0@.take(i as int)),
            decreases self.0@.len() - i,
        {
            let ghost before = out@;
            if i > 0 {
                append(&mut out, " ");
            }
            self.0[i].append_text(&mut out);
            append(&mut out, ".");
            i = i + 1;
            proof {
                let t = self.0@.take(i as int);
                assert(t.drop_last() =~= self.0@.take(i - 1));
                assert(out@ =~= errors_text(t));
            }
        }
        proof {
            assert(self.0@.take(self.0@.len() as int) =~= self.0@);
        }
        string_of(&out)
    }
}

} // verus!
