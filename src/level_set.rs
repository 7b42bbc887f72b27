use vstd::prelude::*;
use crate::defs::{Field, LevelParseError, ParseError, char_to_field};
use crate::xml::{ReadError, read_from_xml};
use vstd::string::StrSliceExecFns;
use crate::level::{Level, LevelModel, decode, first_bad_char, lemma_first_bad_prefix};
use crate::text::{
    alphanumeric, chars_of, is_alphanumeric, lines_of, split_lines, string_of, trim, trim_end,
    trimmed_end, trimmed_from,
};

verus! {

/// A level of a level set, or the error met while reading it.
pub type LevelResult = Result<Level, LevelParseError>;

/// A set of levels with its name.
#[derive(PartialEq, Eq, Debug)]
pub struct LevelSet {
    pub name: String,
    pub levels: Vec<LevelResult>,
}

/// What an entry of a level set is: a level, or the number and name of a level that
/// could not be read, with the error.
pub enum Entry {
    Good(LevelModel),
    Bad(nat, Seq<char>, ParseError),
}

/// The entry that a read level stands for.
pub open spec fn entry_of(r: LevelResult) -> Entry {
    match r {
        Ok(l) => Entry::Good(l@),
        Err(e) => Entry::Bad(e.number as nat, e.name@, e.error),
    }
}

/// The entry under another name.
pub open spec fn renamed(e: Entry, name: Seq<char>) -> Entry {
    match e {
        Entry::Good(l) => Entry::Good(LevelModel { name, ..l }),
        Entry::Bad(n, _, err) => Entry::Bad(n, name, err),
    }
}

/// `s` followed by empty fields up to `w` fields.
pub open spec fn pad(s: Seq<Field>, w: nat) -> Seq<Field> {
    s + Seq::new((w - s.len()) as nat, |_i: int| Field::Empty)
}

/// The area of a level written as `rows`, each padded with empty fields to `w` fields.
pub open spec fn fill_rows(rows: Seq<Seq<char>>, w: nat) -> Seq<Field>
    decreases rows.len(),
{
    if rows.len() == 0 {
        seq![]
    } else {
        fill_rows(rows.drop_last(), w) + pad(decode(rows.last()), w)
    }
}

/// Where the reading of a text level set stands after some lines.
pub struct TextModel {
    /// Name of the set.
    pub name: Seq<char>,
    /// The entries read so far.
    pub levels: Seq<Entry>,
    /// The first line, which may name the set, has been read.
    pub started: bool,
    /// Still in the lines before the levels: comments, text, and one empty line.
    pub skipping: bool,
    /// The empty line allowed before the levels has been seen.
    pub empty_seen: bool,
    /// The name given by the last comment taken.
    pub level_name: Seq<char>,
    /// Names come before their levels.
    pub name_first: bool,
    /// The last line read was a comment.
    pub in_comments: bool,
    /// Rows of a level are being read.
    pub in_level: bool,
    /// The rows read, without trailing white space.
    pub rows: Seq<Seq<char>>,
    /// The longest row read.
    pub width: nat,
    /// Column and row of the last wrong field found.
    pub error: Option<(nat, nat)>,
}

/// The state before any line.
pub open spec fn text_start() -> TextModel {
    TextModel {
        name: seq![],
        levels: seq![],
        started: false,
        skipping: true,
        empty_seen: false,
        level_name: seq![],
        name_first: false,
        in_comments: false,
        in_level: false,
        rows: seq![],
        width: 0,
        error: None,
    }
}

/// The line is a comment.
pub open spec fn is_comment(l: Seq<char>) -> bool {
    l.len() > 0 && l[0] == ';'
}

/// Before the levels, a line is passed over when it is a comment, starts with a letter
/// or a digit, or is the first empty line.
pub open spec fn passed_over(st: TextModel, l: Seq<char>) -> bool {
    is_comment(l) || (l.len() > 0 && alphanumeric(l[0])) || (l.len() == 0 && !st.empty_seen)
}

/// The level being read ends: it joins the entries, as a level or as its error.
pub open spec fn text_finish(st: TextModel) -> TextModel {
    let entry = match st.error {
        None => Entry::Good(
            LevelModel {
                name: st.level_name,
                width: st.width,
                height: st.rows.len(),
                area: fill_rows(st.rows, st.width),
            },
        ),
        Some((x, y)) => Entry::Bad(st.levels.len(), st.level_name, ParseError::WrongField(x as usize, y as usize)),
    };
    TextModel { levels: st.levels.push(entry), in_level: false, ..st }
}

/// A comment names the levels: the ones that follow it where the set gives names
/// first, else the level before it.
pub open spec fn text_comment(st: TextModel, l: Seq<char>) -> TextModel {
    let name = trim(l.drop_first());
    let first = st.name_first || st.levels.len() == 0;
    TextModel {
        level_name: name,
        name_first: first,
        in_comments: true,
        levels: if !first {
            st.levels.update(st.levels.len() - 1, renamed(st.levels.last(), name))
        } else {
            st.levels
        },
        ..st
    }
}

/// A row of the level being read.
pub open spec fn text_row(st: TextModel, l: Seq<char>) -> TextModel {
    TextModel {
        width: if l.len() > st.width { l.len() } else { st.width },
        error: if first_bad_char(l) >= 0 {
            Some((first_bad_char(l) as nat, st.rows.len()))
        } else {
            st.error
        },
        rows: st.rows.push(trim_end(l)),
        ..st
    }
}

/// A line among the levels. Blank lines are passed over. A comment ends the level
/// being read and names levels, but a comment that follows a comment is passed over.
/// Any other line is a row of a level.
pub open spec fn text_body(st: TextModel, l: Seq<char>) -> TextModel {
    if trim(l).len() == 0 {
        st
    } else if st.in_level {
        if is_comment(l) {
            text_comment(text_finish(st), l)
        } else {
            text_row(st, l)
        }
    } else if is_comment(l) {
        if st.in_comments {
            st
        } else {
            text_comment(st, l)
        }
    } else {
        text_row(
            TextModel { in_level: true, rows: seq![], width: 0, error: None, in_comments: false, ..st },
            l,
        )
    }
}

/// One more line. The first line names the set where it is a comment.
pub open spec fn text_line(st: TextModel, l: Seq<char>) -> TextModel {
    if !st.started {
        TextModel { started: true, name: if is_comment(l) { trim(l.drop_first()) } else { st.name }, ..st }
    } else if st.skipping && passed_over(st, l) {
        TextModel { empty_seen: st.empty_seen || l.len() == 0, ..st }
    } else {
        text_body(TextModel { skipping: false, ..st }, l)
    }
}

/// The state after the first `n` lines.
pub open spec fn text_fold(lines: Seq<Seq<char>>, n: nat) -> TextModel
    decreases n,
{
    if n == 0 {
        text_start()
    } else {
        text_line(text_fold(lines, (n - 1) as nat), lines[n - 1])
    }
}

/// What a text level set reads as: its name and entries.
pub open spec fn text_set(s: Seq<char>) -> TextModel {
    let lines = lines_of(s);
    let st = text_fold(lines, lines.len());
    if st.in_level {
        text_finish(st)
    } else {
        st
    }
}

/// Index of the first character of `l` that stands for no field.
pub fn first_bad(l: &Vec<char>) -> (r: Option<usize>)
    ensures
        match r {
            Some(p) => first_bad_char(l@) == p && p < l@.len(),
            None => first_bad_char(l@) < 0,
        },
{
    let mut i: usize = 0;
    while i < l.len()
        invariant
            i <= l@.len(),
            first_bad_char(l@.take(i as int)) < 0,
        decreases l@.len() - i,
    {
        proof {
            assert(l@.take(i + 1).drop_last() =~= l@.take(i as int));
        }
        if char_to_field(l[i]).is_none() {
            proof {
                assert(l@.take(i as int) =~= l@.subrange(0, i as int));
                lemma_first_bad_prefix(l@, i as int);
            }
            return Some(i);
        }
        i = i + 1;
    }
    proof {
        assert(l@.take(l@.len() as int) =~= l@);
    }
    None
}

/// The area of a level written as `rows`, each padded with empty fields to `width` fields.
pub(crate) fn fill_area(rows: &Vec<Vec<char>>, width: usize) -> (r: Vec<Field>)
    requires
        forall|k: int| 0 <= k < rows@.len() ==> #[trigger] rows@[k]@.len() <= width,
    ensures
        r@ == fill_rows(rows@.map_values(|row: Vec<char>| row@), width as nat),
        r@.len() == width * rows@.len(),
{
    let ghost model = rows@.map_values(|row: Vec<char>| row@);
    let mut area: Vec<Field> = Vec::new();
    let mut y: usize = 0;
    while y < rows.len()
        invariant
            y <= rows@.len(),
            model == rows@.map_values(|row: Vec<char>| row@),
            forall|k: int| 0 <= k < rows@.len() ==> #[trigger] rows@[k]@.len() <= width,
            area@ == fill_rows(model.take(y as int), width as nat),
            area@.len() == width * y,
        decreases rows@.len() - y,
    {
        let row = &rows[y];
        let ghost before = area@;
        let mut x: usize = 0;
        while x < row.len()
            invariant
                x <= row@.len(),
                row@.len() <= width,
                area@ == before + decode(row@.take(x as int)),
            decreases row@.len() - x,
        {
            let c = row[x];
            match char_to_field(c) {
                Some(f) => area.push(f),
                None => area.push(Field::Empty),
            }
            x = x + 1;
            proof {
                assert(area@ =~= before + decode(row@.take(x as int)));
            }
        }
        let ghost decoded = area@;
        while x < width
            invariant
                row@.len() <= x <= width,
                decoded == before + decode(row@),
                area@ == decoded + Seq::new((x - row@.len()) as nat, |_i: int| Field::Empty),
            decreases width - x,
        {
            area.push(Field::Empty);
            x = x + 1;
            proof {
                assert(area@ =~= decoded + Seq::new((x - row@.len()) as nat, |_i: int| Field::Empty));
            }
        }
        proof {
            assert(row@.take(row@.len() as int) =~= row@);
            assert(model.take(y + 1).drop_last() =~= model.take(y as int));
            assert(area@ =~= fill_rows(model.take(y + 1), width as nat));
            assert(width * (y + 1) == width * y + width) by (nonlinear_arith);
        }
        y = y + 1;
    }
    proof {
        assert(model.take(rows@.len() as int) =~= model);
    }
    area
}

/// The reading of a text level set, line by line.
struct TextReader {
    name: Vec<char>,
    levels: Vec<LevelResult>,
    started: bool,
    skipping: bool,
    empty_seen: bool,
    level_name: Vec<char>,
    name_first: bool,
    in_comments: bool,
    in_level: bool,
    rows: Vec<Vec<char>>,
    width: usize,
    error: Option<(usize, usize)>,
}

impl TextReader {
    spec fn model(&self) -> TextModel {
        TextModel {
            name: self.name@,
            levels: self.levels@.map_values(|r: LevelResult| entry_of(r)),
            started: self.started,
            skipping: self.skipping,
            empty_seen: self.empty_seen,
            level_name: self.level_name@,
            name_first: self.name_first,
            in_comments: self.in_comments,
            in_level: self.in_level,
            rows: self.rows@.map_values(|row: Vec<char>| row@),
            width: self.width as nat,
            error: match self.error {
                Some((x, y)) => Some((x as nat, y as nat)),
                None => None,
            },
        }
    }

    /// Every row fits in the width, and every level read is well formed.
    spec fn inv(&self) -> bool {
        &&& forall|k: int| 0 <= k < self.rows@.len() ==> #[trigger] self.rows@[k]@.len() <= self.width
        &&& forall|k: int| 0 <= k < self.levels@.len() ==> (#[trigger] self.levels@[k] matches Ok(l) ==> l.wf())
    }

    fn new() -> (r: TextReader)
        ensures
            r.model() == text_start(),
            r.inv(),
    {
        let r = TextReader {
            name: Vec::new(),
            levels: Vec::new(),
            started: false,
            skipping: true,
            empty_seen: false,
            level_name: Vec::new(),
            name_first: false,
            in_comments: false,
            in_level: false,
            rows: Vec::new(),
            width: 0,
            error: None,
        };
        assert(r.model().levels =~= seq![]);
        assert(r.model().rows =~= seq![]);
        r
    }

    fn finish_level(&mut self)
        requires
            old(self).inv(),
        ensures
            final(self).inv(),
            final(self).model() == text_finish(old(self).model()),
    {
        let ghost m = self.model();
        let entry = match self.error {
            None => {
                let area = fill_area(&self.rows, self.width);
                Ok(
                    Level {
                        name: string_of(&self.level_name),
                        width: self.width,
                        height: self.rows.len(),
                        area,
                    },
                )
            },
            Some((x, y)) => Err(
                LevelParseError {
                    number: self.levels.len(),
                    name: string_of(&self.level_name),
                    error: ParseError::WrongField(x, y),
                },
            ),
        };
        self.levels.push(entry);
        self.in_level = false;
        proof {
            assert(self.model().levels =~= text_finish(m).levels);
            assert(self.model().rows =~= m.rows);
        }
    }

    fn comment(&mut self, l: &Vec<char>)
        requires
            old(self).inv(),
            is_comment(l@),
        ensures
            final(self).inv(),
            final(self).model() == text_comment(old(self).model(), l@),
    {
        let ghost m = self.model();
        let name = trimmed_from(l, 1);
        proof {
            assert(l@.skip(1) =~= l@.drop_first());
        }
        let first = self.name_first || self.levels.len() == 0;
        if !first {
            let last = self.levels.pop().unwrap();
            let renamed_last = match last {
                Ok(level) => Ok(Level { name: string_of(&name), ..level }),
                Err(e) => Err(LevelParseError { name: string_of(&name), ..e }),
            };
            self.levels.push(renamed_last);
        }
        self.level_name = name;
        self.name_first = first;
        self.in_comments = true;
        proof {
            assert(self.model().levels =~= text_comment(m, l@).levels);
        }
    }

    fn row(&mut self, l: &Vec<char>)
        requires
            old(self).inv(),
        ensures
            final(self).inv(),
            final(self).model() == text_row(old(self).model(), l@),
    {
        let ghost m = self.model();
        if l.len() > self.width {
            self.width = l.len();
        }
        match first_bad(l) {
            Some(p) => {
                self.error = Some((p, self.rows.len()));
            },
            None => {},
        }
        let t = trimmed_end(l);
        self.rows.push(t);
        proof {
            assert(self.model().rows =~= text_row(m, l@).rows);
        }
    }

    fn body(&mut self, l: &Vec<char>)
        requires
            old(self).inv(),
        ensures
            final(self).inv(),
            final(self).model() == text_body(old(self).model(), l@),
    {
        let blank = trimmed_from(l, 0).len() == 0;
        proof {
            assert(l@.skip(0) =~= l@);
        }
        if blank {
            return;
        }
        let comment = l.len() > 0 && l[0] == ';';
        if self.in_level {
            if comment {
                self.finish_level();
                self.comment(l);
            } else {
                self.row(l);
            }
        } else if comment {
            if !self.in_comments {
                self.comment(l);
            }
        } else {
            let ghost m = self.model();
            self.in_level = true;
            self.rows = Vec::new();
            self.width = 0;
            self.error = None;
            self.in_comments = false;
            proof {
                assert(self.model().rows =~= seq![]);
                assert(self.model() == (TextModel {
                    in_level: true,
                    rows: seq![],
                    width: 0,
                    error: None,
                    in_comments: false,
                    ..m
                }));
            }
            self.row(l);
        }
    }

    fn line(&mut self, l: &Vec<char>)
        requires
            old(self).inv(),
        ensures
            final(self).inv(),
            final(self).model() == text_line(old(self).model(), l@),
    {
        let comment = l.len() > 0 && l[0] == ';';
        if !self.started {
            self.started = true;
            if comment {
                let name = trimmed_from(l, 1);
                proof {
                    assert(l@.skip(1) =~= l@.drop_first());
                }
                self.name = name;
            }
            return;
        }
        let passed = comment || (l.len() > 0 && is_alphanumeric(l[0])) || (l.len() == 0 && !self.empty_seen);
        if self.skipping && passed {
            if l.len() == 0 {
                self.empty_seen = true;
            }
            return;
        }
        self.skipping = false;
        self.body(l);
    }
}

impl LevelSet {
    /// Name of the level set.
    pub fn name(&self) -> (r: &String)
        ensures
            r@ == self.name@,
    {
        &self.name
    }

    /// The levels of the set, or their errors.
    pub fn levels(&self) -> (r: &Vec<LevelResult>)
        ensures
            r@ == self.levels@,
    {
        &self.levels
    }

    /// Tell whether some level of the set could not be read.
    pub fn has_errors(&self) -> (r: bool)
        ensures
            r == exists|k: int| 0 <= k < self.levels@.len() && #[trigger] self.levels@[k] is Err,
    {
        let mut i: usize = 0;
        while i < self.levels.len()
            invariant
                i <= self.levels@.len(),
                forall|k: int| 0 <= k < i ==> !(#[trigger] self.levels@[k] is Err),
            decreases self.levels@.len() - i,
        {
            if self.levels[i].is_err() {
                return true;
            }
            i = i + 1;
        }
        false
    }

    /// Read a level set from its text: XML where the text starts with `<?xml`, else
    /// the plain text format.
    pub fn from_str(text: &str) -> (r: Result<LevelSet, ReadError>)
        ensures
            !starts_xml(text@) ==> (r matches Ok(set) && set.name@ == text_set(text@).name
                && set.levels@.map_values(|e: LevelResult| entry_of(e)) == text_set(text@).levels),
            r matches Ok(set) ==> forall|k: int|
                0 <= k < set.levels@.len() ==> (#[trigger] set.levels@[k] matches Ok(l) ==> l.wf()),
    {
        if is_xml(text) {
            read_from_xml(text)
        } else {
            Ok(LevelSet::read_from_text(text))
        }
    }

    /// Read a level set written as text: a first line naming the set, comments and
    /// text before the levels, then levels drawn row by row, each named by a comment.
    pub fn read_from_text(text: &str) -> (r: LevelSet)
        ensures
            r.name@ == text_set(text@).name,
            r.levels@.map_values(|e: LevelResult| entry_of(e)) == text_set(text@).levels,
            forall|k: int| 0 <= k < r.levels@.len() ==> (#[trigger] r.levels@[k] matches Ok(l) ==> l.wf()),
    {
        let chars = chars_of(text);
        let lines = split_lines(&chars);
        let ghost ls = lines_of(text@);
        let mut reader = TextReader::new();
        let mut i: usize = 0;
        while i < lines.len()
            invariant
                i <= lines@.len(),
                lines@.len() == ls.len(),
                forall|k: int| 0 <= k < lines@.len() ==> #[trigger] lines@[k]@ == ls[k],
                reader.inv(),
                reader.model() == text_fold(ls, i as nat),
            decreases lines@.len() - i,
        {
            reader.line(&lines[i]);
            i = i + 1;
        }
        if reader.in_level {
            reader.finish_level();
        }
        LevelSet { name: string_of(&reader.name), levels: reader.levels }
    }
}

/// The text starts with an XML declaration.
pub open spec fn starts_xml(s: Seq<char>) -> bool {
    s.len() >= 5 && s.take(5) == "<?xml"@
}

/// Tell whether the text starts with an XML declaration.
fn is_xml(text: &str) -> (r: bool)
    ensures
        r == starts_xml(text@),
{
    let tag = "<?xml";
    let n = tag.unicode_len();
    if text.unicode_len() < n {
        return false;
    }
    proof {
        reveal_strlit("<?xml");
    }
    let mut i: usize = 0;
    while i < n
        invariant
            n == tag@.len(),
            n == 5,
            tag@ == "<?xml"@,
            text@.len() >= n,
            i <= n,
            text@.take(i as int) == tag@.take(i as int),
        decreases n - i,
    {
        if text.get_char(i) != tag.get_char(i) {
            return false;
        }
        i = i + 1;
        proof {
            assert(text@.take(i as int) =~= tag@.take(i as int));
        }
    }
    proof {
        assert(tag@.take(5) =~= tag@);
    }
    true
}

} // verus!
