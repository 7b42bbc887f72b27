use vstd::prelude::*;

verus! {

/// The character has the Unicode White_Space property: the controls from tab to
/// carriage return, the space, next line, no-break space, ogham space mark, the spaces
/// from en quad to hair space, line and paragraph separators, narrow no-break space,
/// medium mathematical space and ideographic space.
pub open spec fn white_space(c: char) -> bool {
    ('\u{9}' <= c && c <= '\u{d}') || c == ' ' || c == '\u{85}' || c == '\u{a0}' || c == '\u{1680}'
        || ('\u{2000}' <= c && c <= '\u{200a}') || c == '\u{2028}' || c == '\u{2029}' || c
        == '\u{202f}' || c == '\u{205f}' || c == '\u{3000}'
}

/// Whether a character is alphabetic or numeric in Unicode's sense.
pub uninterp spec fn alphanumeric(c: char) -> bool;

/// Tell whether a character is white space, as `char::is_whitespace` does.
pub fn is_whitespace(c: char) -> (r: bool)
    ensures
        r == white_space(c),
{
    match c {
        '\u{9}'..='\u{d}' | ' ' | '\u{85}' | '\u{a0}' | '\u{1680}' | '\u{2000}'..='\u{200a}'
        | '\u{2028}' | '\u{2029}' | '\u{202f}' | '\u{205f}' | '\u{3000}' => true,
        _ => false,
    }
}

/// Relies on char::is_alphanumeric: it tells whether a character is alphabetic or
/// numeric; among ASCII characters these are the letters and the digits.
#[verifier::external_body]
pub(crate) fn is_alphanumeric(c: char) -> (r: bool)
    ensures
        r == alphanumeric(c),
        c <= '\u{7f}' ==> (r <==> (('a' <= c && c <= 'z') || ('A' <= c && c <= 'Z') || ('0' <= c
            && c <= '9'))),
{
    c.is_alphanumeric()
}

/// Relies on String::push: it appends the character to the end of the string.
#[verifier::external_body]
fn push_char(s: &mut String, c: char)
    ensures
        final(s)@ == old(s)@.push(c),
{
    s.push(c)
}

/// The string made of the characters of `chars`.
pub fn string_of(chars: &Vec<char>) -> (r: String)
    ensures
        r@ == chars@,
{
    let mut r = String::new();
    let mut i: usize = 0;
    while i < chars.len()
        invariant
            i <= chars@.len(),
            r@ == chars@.take(i as int),
        decreases chars@.len() - i,
    {
        push_char(&mut r, chars[i]);
        i = i + 1;
        proof {
            assert(r@ =~= chars@.take(i as int));
        }
    }
    proof {
        assert(chars@.take(chars@.len() as int) =~= chars@);
    }
    r
}

/// The characters of `s`.
pub fn chars_of(s: &str) -> (r: Vec<char>)
    ensures
        r@ == s@,
{
    broadcast use vstd::string::axiom_spec_iter;

    let mut r: Vec<char> = Vec::new();
    for c in it: s.chars()
        invariant
            r@ == it.seq().take(it.index() as int),
    {
        r.push(c);
        proof {
            assert(r@ =~= it.seq().take(it.index() as int + 1));
        }
    }
    assert(r@ =~= s@);
    r
}

/// A line read from a text loses the carriage return before its line feed.
pub open spec fn strip_cr(line: Seq<char>) -> Seq<char> {
    if line.len() > 0 && line.last() == '\r' {
        line.drop_last()
    } else {
        line
    }
}

/// The lines ended by a line feed in `s`, and what follows the last line feed.
pub open spec fn split_state(s: Seq<char>) -> (Seq<Seq<char>>, Seq<char>)
    decreases s.len(),
{
    if s.len() == 0 {
        (seq![], seq![])
    } else {
        let (lines, cur) = split_state(s.drop_last());
        if s.last() == '\n' {
            (lines.push(strip_cr(cur)), seq![])
        } else {
            (lines, cur.push(s.last()))
        }
    }
}

/// The lines of `s`: split at line feeds, a carriage return before a line feed
/// dropped, and no empty line after a final line feed.
pub open spec fn lines_of(s: Seq<char>) -> Seq<Seq<char>> {
    let (lines, cur) = split_state(s);
    if cur.len() > 0 {
        lines.push(cur)
    } else {
        lines
    }
}

/// Split a text into its lines.
pub fn split_lines(s: &Vec<char>) -> (r: Vec<Vec<char>>)
    ensures
        r@.len() == lines_of(s@).len(),
        forall|i: int| 0 <= i < r@.len() ==> #[trigger] r@[i]@ == lines_of(s@)[i],
{
    let mut lines: Vec<Vec<char>> = Vec::new();
    let mut cur: Vec<char> = Vec::new();
    let mut i: usize = 0;
    while i < s.len()
        invariant
            i <= s@.len(),
            lines@.len() == split_state(s@.take(i as int)).0.len(),
            forall|k: int| 0 <= k < lines@.len() ==> #[trigger] lines@[k]@ == split_state(s@.take(i as int)).0[k],
            cur@ == split_state(s@.take(i as int)).1,
        decreases s@.len() - i,
    {
        let c = s[i];
        proof {
            assert(s@.take(i + 1).drop_last() =~= s@.take(i as int));
        }
        if c == '\n' {
            let n = cur.len();
            if n > 0 && cur[n - 1] == '\r' {
                cur.pop();
            }
            lines.push(cur);
            cur = Vec::new();
        } else {
            cur.push(c);
        }
        i = i + 1;
    }
    proof {
        assert(s@.take(s@.len() as int) =~= s@);
    }
    if cur.len() > 0 {
        lines.push(cur);
    }
    lines
}

/// `s` without its trailing white space.
pub open spec fn trim_end(s: Seq<char>) -> Seq<char>
    decreases s.len(),
{
    if s.len() > 0 && white_space(s.last()) {
        trim_end(s.drop_last())
    } else {
        s
    }
}

/// `s` without its leading white space.
pub open spec fn trim_start(s: Seq<char>) -> Seq<char>
    decreases s.len(),
{
    if s.len() > 0 && white_space(s[0]) {
        trim_start(s.drop_first())
    } else {
        s
    }
}

/// `s` without its leading and trailing white space.
pub open spec fn trim(s: Seq<char>) -> Seq<char> {
    trim_start(trim_end(s))
}

/// The line without its trailing white space.
pub fn trimmed_end(s: &Vec<char>) -> (r: Vec<char>)
    ensures
        r@ == trim_end(s@),
        r@.len() <= s@.len(),
{
    let mut n = s.len();
    assert(s@.take(n as int) =~= s@);
    while n > 0 && is_whitespace(s[n - 1])
        invariant
            n <= s@.len(),
            trim_end(s@.take(n as int)) == trim_end(s@),
        decreases n,
    {
        proof {
            assert(s@.take(n as int).drop_last() =~= s@.take(n - 1));
        }
        n = n - 1;
    }
    let mut r: Vec<char> = Vec::new();
    let mut i: usize = 0;
    while i < n
        invariant
            n <= s@.len(),
            i <= n,
            r@ == s@.take(i as int),
        decreases n - i,
    {
        r.push(s[i]);
        i = i + 1;
        proof {
            assert(r@ =~= s@.take(i as int));
        }
    }
    r
}

/// The characters from `from` on, without leading and trailing white space.
pub fn trimmed_from(s: &Vec<char>, from: usize) -> (r: Vec<char>)
    requires
        from <= s@.len(),
    ensures
        r@ == trim(s@.skip(from as int)),
{
    let ghost rest = s@.skip(from as int);
    let mut n = s.len();
    while n > from && is_whitespace(s[n - 1])
        invariant
            from <= n <= s@.len(),
            rest == s@.skip(from as int),
            trim_end(s@.subrange(from as int, n as int)) == trim_end(rest),
        decreases n,
    {
        proof {
            assert(s@.subrange(from as int, n as int).drop_last() =~= s@.subrange(from as int, n - 1));
        }
        n = n - 1;
    }
    proof {
        assert(s@.subrange(from as int, n as int).len() == 0 || !white_space(
            s@.subrange(from as int, n as int).last(),
        ));
    }
    let mut b = from;
    while b < n && is_whitespace(s[b])
        invariant
            from <= b <= n,
            n <= s@.len(),
            trim_end(rest) == s@.subrange(from as int, n as int),
            trim(rest) == trim_start(s@.subrange(b as int, n as int)),
        decreases n - b,
    {
        proof {
            assert(s@.subrange(b as int, n as int).drop_first() =~= s@.subrange(b + 1, n as int));
        }
        b = b + 1;
    }
    let mut r: Vec<char> = Vec::new();
    let mut i: usize = b;
    while i < n
        invariant
            b <= i <= n,
            n <= s@.len(),
            r@ == s@.subrange(b as int, i as int),
        decreases n - i,
    {
        r.push(s[i]);
        i = i + 1;
        proof {
            assert(r@ =~= s@.subrange(b as int, i as int));
        }
    }
    r
}

} // verus!
