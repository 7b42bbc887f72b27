use vstd::prelude::*;
use quick_xml::Reader;
use quick_xml::events::Event;
use quick_xml::events::BytesText;
use quick_xml::events::attributes::Attribute;
use vstd::string::StrSliceExecFns;
use crate::defs::{Field, LevelParseError, ParseError, XmlParseError};
use crate::level::{Level, LevelModel, first_bad_char};
use crate::level_set::{Entry, LevelResult, LevelSet, entry_of, fill_area, fill_rows, first_bad};
use crate::text::{chars_of, trim_end, trimmed_end};

verus! {

/// A quick_xml reader over the bytes of a document, kept opaque: only the functions
/// below read from it.
#[verifier::external_body]
pub struct XmlDocument<'a> {
    reader: Reader<&'a [u8]>,
}

/// The error type of quick_xml, carried from the reader to be mapped to a `ReadError`.
#[verifier::external_type_specification]
#[verifier::external_body]
pub struct ExXmlError(quick_xml::Error);

/// One event of an XML document, as plain values: a start tag with its name and its
/// attributes (a key and a raw value each, or nothing where the attribute is
/// malformed), an end tag with its name, raw text, the end of the document, or any
/// other event.
pub enum XmlItem {
    Start(Vec<u8>, Vec<Option<(Vec<u8>, Vec<u8>)>>),
    End(Vec<u8>),
    Text(Vec<u8>),
    Eof,
    Other,
}

/// Relies on quick_xml::Reader::from_str: a reader over the bytes of the document.
#[verifier::external_body]
pub(crate) fn xml_reader<'a>(text: &'a str) -> XmlDocument<'a> {
    XmlDocument { reader: Reader::from_str(text) }
}

/// Relies on quick_xml::Reader::read_event: the next event of the document, or the
/// syntax error met. Once the end is reached, every further event is the end.
#[verifier::external_body]
pub(crate) fn read_item(doc: &mut XmlDocument) -> Result<XmlItem, quick_xml::Error> {
    let mut buf = Vec::new();
    Ok(match doc.reader.read_event(&mut buf)? {
        Event::Start(e) => XmlItem::Start(
            e.name().to_vec(),
            e.attributes().map(|a| a.ok().map(|a| (a.key.to_vec(), a.value.to_vec()))).collect(),
        ),
        Event::End(e) => XmlItem::End(e.name().to_vec()),
        Event::Text(e) => XmlItem::Text(e.escaped().to_vec()),
        Event::Eof => XmlItem::Eof,
        _ => XmlItem::Other,
    })
}

/// What quick_xml reads from the raw bytes of a text: its characters with escapes
/// replaced, or nothing where an escape or the UTF-8 is malformed.
pub uninterp spec fn text_unescaped(raw: Seq<u8>) -> Option<Seq<char>>;

/// What quick_xml reads from the raw bytes of an attribute value: its characters with
/// escapes replaced, or nothing where an escape or the UTF-8 is malformed.
pub uninterp spec fn value_unescaped(raw: Seq<u8>) -> Option<Seq<char>>;

/// Relies on quick_xml::events::BytesText::unescape_and_decode: the text with its
/// escapes replaced, or the error met. Without the `encoding` feature the result
/// depends on the bytes alone.
#[verifier::external_body]
pub(crate) fn unescape_text(doc: &XmlDocument, raw: &Vec<u8>) -> (r: Result<String, quick_xml::Error>)
    ensures
        match r {
            Ok(s) => text_unescaped(raw@) == Some(s@),
            Err(_) => text_unescaped(raw@) is None,
        },
{
    BytesText::from_escaped(raw.as_slice()).unescape_and_decode(&doc.reader)
}

/// Relies on quick_xml::events::attributes::Attribute::unescape_and_decode_value: the
/// attribute value with its escapes replaced, or the error met. Without the `encoding`
/// feature the result depends on the bytes alone.
#[verifier::external_body]
pub(crate) fn unescape_value(doc: &XmlDocument, raw: &Vec<u8>) -> (r: Result<String, quick_xml::Error>)
    ensures
        match r {
            Ok(s) => value_unescaped(raw@) == Some(s@),
            Err(_) => value_unescaped(raw@) is None,
        },
{
    Attribute { key: &[], value: std::borrow::Cow::Borrowed(raw.as_slice()) }.unescape_and_decode_value(&doc.reader)
}

/// The characters that the bytes of a tag name stand for, one for each byte.
pub open spec fn name_chars(name: Seq<u8>) -> Seq<char> {
    name.map_values(|b: u8| b as char)
}

/// The tag name is `tag`.
pub fn name_is(name: &Vec<u8>, tag: &str) -> (r: bool)
    ensures
        r == (name_chars(name@) == tag@),
{
    let n = tag.unicode_len();
    if name.len() != n {
        return false;
    }
    let mut i: usize = 0;
    while i < n
        invariant
            name@.len() == tag@.len(),
            n == tag@.len(),
            i <= n,
            name_chars(name@).take(i as int) == tag@.take(i as int),
        decreases n - i,
    {
        if name[i] as char != tag.get_char(i) {
            return false;
        }
        i = i + 1;
        proof {
            assert(name_chars(name@).take(i as int) =~= tag@.take(i as int));
        }
    }
    proof {
        assert(name_chars(name@).take(n as int) =~= name_chars(name@));
        assert(tag@.take(n as int) =~= tag@);
    }
    true
}

/// Error met while reading a level set.
#[derive(PartialEq, Eq, Structural, Debug, Clone, Copy)]
pub enum ReadError {
    /// The XML elements are not nested as a level set requires.
    Structure(XmlParseError),
    /// The XML text is malformed.
    Syntax,
    /// A width or a height is not a number.
    BadNumber,
}

/// An XML event as the level set reading sees it: a start tag, with the `Id`, `Width`
/// and `Height` attributes where it starts a level; an end tag; text; the end of the
/// document; anything else.
pub enum XmlToken {
    Start(Vec<u8>, Option<String>, usize, usize),
    End(Vec<u8>),
    Text(String),
    Eof,
    Other,
}

/// Where the reading of an XML level set stands.
pub struct XmlModel {
    /// Name of the set, from its title.
    pub name: Seq<char>,
    /// The entries read so far.
    pub levels: Seq<Entry>,
    /// Inside `SokobanLevels`.
    pub in_levels: bool,
    /// Inside `LevelCollection`.
    pub in_collection: bool,
    /// Inside `Title`, before its text.
    pub in_title: bool,
    /// Inside a row `L` of a level.
    pub in_line: bool,
    /// Inside a `Level`.
    pub in_level: bool,
    /// Name, width and height given to the level, 0 where not given.
    pub level_name: Seq<char>,
    pub width: nat,
    pub height: nat,
    /// Rows of the level read so far, without trailing white space, cut to the width.
    pub lines: Seq<Seq<char>>,
    /// The end of the document was reached.
    pub done: bool,
}

/// The state before any event.
pub open spec fn xml_start() -> XmlModel {
    XmlModel {
        name: seq![],
        levels: seq![],
        in_levels: false,
        in_collection: false,
        in_title: false,
        in_line: false,
        in_level: false,
        level_name: seq![],
        width: 0,
        height: 0,
        lines: seq![],
        done: false,
    }
}

/// The longest of `lines`.
pub open spec fn max_len(lines: Seq<Seq<char>>) -> nat
    decreases lines.len(),
{
    if lines.len() == 0 {
        0
    } else if lines.last().len() > max_len(lines.drop_last()) {
        lines.last().len()
    } else {
        max_len(lines.drop_last())
    }
}

/// Index of the first of `lines` with a character that stands for no field, or -1.
pub open spec fn first_bad_line(lines: Seq<Seq<char>>) -> int
    decreases lines.len(),
{
    if lines.len() == 0 {
        -1
    } else if first_bad_line(lines.drop_last()) >= 0 {
        first_bad_line(lines.drop_last())
    } else if first_bad_char(lines.last()) >= 0 {
        lines.len() - 1
    } else {
        -1
    }
}

/// A row cut to the width, where a width is given.
pub open spec fn cut(t: Seq<char>, w: nat) -> Seq<char> {
    if w != 0 && t.len() > w {
        t.take(w as int)
    } else {
        t
    }
}

/// The level being read ends. Its height is the one given, else the number of rows;
/// its width the one given, else the longest row. It joins the entries as a level,
/// its rows padded with empty fields, or as the first wrong field found.
pub open spec fn xml_finish(st: XmlModel) -> XmlModel {
    let h = if st.height == 0 { st.lines.len() } else { st.height };
    let w = if st.width == 0 { max_len(st.lines) } else { st.width };
    let bad = first_bad_line(st.lines);
    let entry = if bad >= 0 {
        Entry::Bad(
            st.levels.len(),
            st.level_name,
            ParseError::WrongField(first_bad_char(st.lines[bad]) as usize, bad as usize),
        )
    } else {
        Entry::Good(
            LevelModel {
                name: st.level_name,
                width: w,
                height: h,
                area: fill_rows(st.lines, w) + Seq::new(((h - st.lines.len()) * w) as nat, |_i: int| Field::Empty),
            },
        )
    };
    XmlModel { levels: st.levels.push(entry), in_level: false, ..st }
}

/// An event inside a level: rows `L` hold text, and the end of the level, the end of
/// the document, or a row beyond the height given ends the level.
pub open spec fn xml_level_step(st: XmlModel, tok: XmlToken) -> XmlModel {
    match tok {
        XmlToken::Start(n, _, _, _) => if name_chars(n@) == "L"@ {
            XmlModel { in_line: true, ..st }
        } else {
            st
        },
        XmlToken::End(n) => if name_chars(n@) == "Level"@ {
            xml_finish(st)
        } else if name_chars(n@) == "L"@ {
            XmlModel { in_line: false, ..st }
        } else {
            st
        },
        XmlToken::Text(t) => if !st.in_line {
            st
        } else if st.height != 0 && st.lines.len() == st.height {
            xml_finish(st)
        } else {
            XmlModel { lines: st.lines.push(cut(trim_end(t@), st.width)), ..st }
        },
        XmlToken::Eof => xml_finish(st),
        XmlToken::Other => st,
    }
}

/// An event outside levels. `SokobanLevels` holds a `Title` and a `LevelCollection`,
/// which holds the levels; an element in the wrong place is an error.
pub open spec fn xml_outer_step(st: XmlModel, tok: XmlToken) -> Option<XmlModel> {
    match tok {
        XmlToken::Start(n, id, w, h) => if name_chars(n@) == "SokobanLevels"@ {
            if st.in_levels { None } else { Some(XmlModel { in_levels: true, ..st }) }
        } else if name_chars(n@) == "Title"@ {
            if st.in_collection { None } else { Some(XmlModel { in_title: true, ..st }) }
        } else if name_chars(n@) == "LevelCollection"@ {
            if !st.in_levels { None } else { Some(XmlModel { in_collection: true, ..st }) }
        } else if name_chars(n@) == "Level"@ {
            if !st.in_collection {
                None
            } else {
                Some(
                    XmlModel {
                        in_level: true,
                        level_name: match id {
                            Some(s) => s@,
                            None => seq![],
                        },
                        width: w as nat,
                        height: h as nat,
                        lines: seq![],
                        ..st
                    },
                )
            }
        } else {
            Some(st)
        },
        XmlToken::End(n) => if name_chars(n@) == "SokobanLevels"@ {
            Some(XmlModel { in_levels: false, ..st })
        } else if name_chars(n@) == "Title"@ {
            Some(XmlModel { in_title: false, ..st })
        } else if name_chars(n@) == "LevelCollection"@ {
            Some(XmlModel { in_collection: false, ..st })
        } else {
            Some(st)
        },
        XmlToken::Text(t) => if st.in_title {
            Some(XmlModel { name: t@, in_title: false, ..st })
        } else {
            Some(st)
        },
        XmlToken::Eof => Some(XmlModel { done: true, ..st }),
        XmlToken::Other => Some(st),
    }
}

/// One more event, or None where the structure is wrong.
pub open spec fn xml_step(st: XmlModel, tok: XmlToken) -> Option<XmlModel> {
    if st.done {
        Some(st)
    } else if st.in_level {
        Some(xml_level_step(st, tok))
    } else {
        xml_outer_step(st, tok)
    }
}

/// The digits of a decimal number, after an optional plus sign.
pub open spec fn decimal_digits(s: Seq<char>) -> Seq<char> {
    if s.len() > 0 && s[0] == '+' {
        s.drop_first()
    } else {
        s
    }
}

/// Value of a sequence of decimal digits.
pub open spec fn digits_value(s: Seq<char>) -> int
    decreases s.len(),
{
    if s.len() == 0 {
        0
    } else {
        digits_value(s.drop_last()) * 10 + (s.last() as int - '0' as int)
    }
}

/// The number written in `s`: decimal digits after an optional plus sign, and no more
/// than fits in a `usize`.
pub open spec fn decimal_of(s: Seq<char>) -> Option<usize> {
    let d = decimal_digits(s);
    if d.len() > 0 && (forall|i: int| 0 <= i < d.len() ==> '0' <= #[trigger] d[i] <= '9')
        && digits_value(d) <= usize::MAX {
        Some(digits_value(d) as usize)
    } else {
        None
    }
}

proof fn lemma_digits_grow(s: Seq<char>, i: int)
    requires
        0 <= i <= s.len(),
        forall|k: int| 0 <= k < s.len() ==> '0' <= #[trigger] s[k] <= '9',
    ensures
        digits_value(s) >= digits_value(s.take(i)) >= 0,
    decreases s.len() - i,
{
    if i < s.len() {
        lemma_digits_grow(s, i + 1);
        assert(s.take(i + 1).drop_last() =~= s.take(i));
    } else {
        assert(s.take(i) =~= s);
        lemma_digits_nonneg(s);
    }
}

proof fn lemma_digits_nonneg(s: Seq<char>)
    requires
        forall|k: int| 0 <= k < s.len() ==> '0' <= #[trigger] s[k] <= '9',
    ensures
        digits_value(s) >= 0,
    decreases s.len(),
{
    if s.len() > 0 {
        lemma_digits_nonneg(s.drop_last());
    }
}

/// Read a decimal number.
pub fn parse_decimal(s: &String) -> (r: Option<usize>)
    ensures
        r == decimal_of(s@),
{
    let chars = chars_of(s.as_str());
    let ghost d = decimal_digits(s@);
    let start: usize = if chars.len() > 0 && chars[0] == '+' { 1 } else { 0 };
    assert(d =~= s@.skip(start as int));
    if start >= chars.len() {
        return None;
    }
    let mut v: usize = 0;
    let mut i: usize = start;
    while i < chars.len()
        invariant
            start <= i <= chars@.len(),
            chars@ == s@,
            d == decimal_digits(s@),
            d == s@.skip(start as int),
            v == digits_value(d.take(i - start)),
            forall|k: int| 0 <= k < i - start ==> '0' <= #[trigger] d[k] <= '9',
        decreases chars@.len() - i,
    {
        let c = chars[i];
        proof {
            assert(d.take(i - start + 1).drop_last() =~= d.take(i - start));
            assert(d[i - start] == c);
        }
        if c < '0' || c > '9' {
            return None;
        }
        let digit = (c as u32 - '0' as u32) as usize;
        let next = v.checked_mul(10);
        if next.is_none() || next.unwrap() > usize::MAX - digit {
            proof {
                let t = d.take(i - start + 1);
                assert(t.last() == c);
                assert(digits_value(t) == v * 10 + digit);
                if forall|k: int| 0 <= k < d.len() ==> '0' <= #[trigger] d[k] <= '9' {
                    lemma_digits_grow(d, i - start + 1);
                }
            }
            return None;
        }
        v = next.unwrap() + digit;
        i = i + 1;
    }
    proof {
        assert(d.take(d.len() as int) =~= d);
    }
    Some(v)
}

/// The reading of an XML level set, event by event.
pub struct XmlState {
    name: String,
    levels: Vec<LevelResult>,
    in_levels: bool,
    in_collection: bool,
    in_title: bool,
    in_line: bool,
    in_level: bool,
    level_name: String,
    width: usize,
    height: usize,
    lines: Vec<Vec<char>>,
    done: bool,
}

/// The longest of `lines`.
fn max_line_len(lines: &Vec<Vec<char>>) -> (r: usize)
    ensures
        r == max_len(lines@.map_values(|l: Vec<char>| l@)),
        forall|k: int| 0 <= k < lines@.len() ==> #[trigger] lines@[k]@.len() <= r,
{
    let ghost m = lines@.map_values(|l: Vec<char>| l@);
    let mut r: usize = 0;
    let mut i: usize = 0;
    while i < lines.len()
        invariant
            i <= lines@.len(),
            m == lines@.map_values(|l: Vec<char>| l@),
            r == max_len(m.take(i as int)),
            forall|k: int| 0 <= k < i ==> #[trigger] lines@[k]@.len() <= r,
        decreases lines@.len() - i,
    {
        proof {
            assert(m.take(i + 1).drop_last() =~= m.take(i as int));
        }
        if lines[i].len() > r {
            r = lines[i].len();
        }
        i = i + 1;
    }
    proof {
        assert(m.take(lines@.len() as int) =~= m);
    }
    r
}

/// The first of `lines` with a character that stands for no field, and that
/// character's index.
fn first_bad_row(lines: &Vec<Vec<char>>) -> (r: Option<(usize, usize)>)
    ensures
        match r {
            Some((y, x)) => y < lines@.len() && first_bad_line(lines@.map_values(|l: Vec<char>| l@)) == y
                && first_bad_char(lines@[y as int]@) == x,
            None => first_bad_line(lines@.map_values(|l: Vec<char>| l@)) < 0,
        },
{
    let ghost m = lines@.map_values(|l: Vec<char>| l@);
    let mut i: usize = 0;
    while i < lines.len()
        invariant
            i <= lines@.len(),
            m == lines@.map_values(|l: Vec<char>| l@),
            first_bad_line(m.take(i as int)) < 0,
        decreases lines@.len() - i,
    {
        proof {
            assert(m.take(i + 1).drop_last() =~= m.take(i as int));
        }
        match first_bad(&lines[i]) {
            Some(x) => {
                proof {
                    lemma_first_bad_line_prefix(m, i as int);
                }
                return Some((i, x));
            },
            None => {},
        }
        i = i + 1;
    }
    proof {
        assert(m.take(lines@.len() as int) =~= m);
    }
    None
}

proof fn lemma_first_bad_line_prefix(m: Seq<Seq<char>>, i: int)
    requires
        0 <= i < m.len(),
        first_bad_line(m.take(i)) < 0,
        first_bad_char(m[i]) >= 0,
    ensures
        first_bad_line(m) == i,
    decreases m.len(),
{
    if m.len() == i + 1 {
        assert(m.drop_last() =~= m.take(i));
    } else {
        assert(m.drop_last().take(i) =~= m.take(i));
        lemma_first_bad_line_prefix(m.drop_last(), i);
    }
}

impl XmlState {
    pub closed spec fn model(&self) -> XmlModel {
        XmlModel {
            name: self.name@,
            levels: self.levels@.map_values(|r: LevelResult| entry_of(r)),
            in_levels: self.in_levels,
            in_collection: self.in_collection,
            in_title: self.in_title,
            in_line: self.in_line,
            in_level: self.in_level,
            level_name: self.level_name@,
            width: self.width as nat,
            height: self.height as nat,
            lines: self.lines@.map_values(|l: Vec<char>| l@),
            done: self.done,
        }
    }

    /// Rows fit in the width and height given, and every level read is well formed.
    pub closed spec fn inv(&self) -> bool {
        &&& self.height != 0 ==> self.lines@.len() <= self.height
        &&& self.width != 0 ==> forall|k: int| 0 <= k < self.lines@.len() ==> #[trigger] self.lines@[k]@.len() <= self.width
        &&& forall|k: int| 0 <= k < self.levels@.len() ==> (#[trigger] self.levels@[k] matches Ok(l) ==> l.wf())
    }

    pub fn new() -> (r: XmlState)
        ensures
            r.model() == xml_start(),
            r.inv(),
    {
        let r = XmlState {
            name: String::new(),
            levels: Vec::new(),
            in_levels: false,
            in_collection: false,
            in_title: false,
            in_line: false,
            in_level: false,
            level_name: String::new(),
            width: 0,
            height: 0,
            lines: Vec::new(),
            done: false,
        };
        assert(r.model().levels =~= seq![]);
        assert(r.model().lines =~= seq![]);
        r
    }

    /// The end of the document was reached.
    pub fn done(&self) -> (r: bool)
        ensures
            r == self.model().done,
    {
        self.done
    }

    /// The next text event is read: a title, or a row of a level within its height.
    pub fn wants_text(&self) -> (r: bool)
        ensures
            r == (!self.model().done && if self.model().in_level {
                self.model().in_line && !(self.model().height != 0 && self.model().lines.len()
                    == self.model().height)
            } else {
                self.model().in_title
            }),
    {
        !self.done && if self.in_level {
            self.in_line && !(self.height != 0 && self.lines.len() == self.height)
        } else {
            self.in_title
        }
    }

    /// A start tag of this name starts a level, whose attributes are read.
    pub fn takes_attributes(&self, name: &Vec<u8>) -> (r: bool)
        ensures
            r == (!self.model().done && !self.model().in_level && self.model().in_collection
                && name_chars(name@) == "Level"@),
    {
        !self.done && !self.in_level && self.in_collection && name_is(name, "Level")
    }

    fn finish_level(&mut self)
        requires
            old(self).inv(),
        ensures
            final(self).inv(),
            final(self).model() == xml_finish(old(self).model()),
    {
        let ghost m = self.model();
        let h = if self.height == 0 { self.lines.len() } else { self.height };
        let w = if self.width == 0 { max_line_len(&self.lines) } else { self.width };
        let entry = match first_bad_row(&self.lines) {
            Some((y, x)) => Err(
                LevelParseError {
                    number: self.levels.len(),
                    name: self.level_name.clone(),
                    error: ParseError::WrongField(x, y),
                },
            ),
            None => {
                let mut area = fill_area(&self.lines, w);
                let ghost rows = area@;
                let mut r = self.lines.len();
                assert((r - self.lines@.len()) * w == 0) by (nonlinear_arith)
                    requires
                        r == self.lines@.len(),
                ;
                assert(area@ =~= rows + Seq::new(((r - self.lines@.len()) * w) as nat, |_i: int| Field::Empty));
                while r < h
                    invariant
                        self.lines@.len() <= r <= h,
                        rows.len() == w * self.lines@.len(),
                        area@ == rows + Seq::new(((r - self.lines@.len()) * w) as nat, |_i: int| Field::Empty),
                    decreases h - r,
                {
                    let ghost before = area@;
                    let mut x: usize = 0;
                    while x < w
                        invariant
                            x <= w,
                            area@ == before + Seq::new(x as nat, |_i: int| Field::Empty),
                        decreases w - x,
                    {
                        area.push(Field::Empty);
                        x = x + 1;
                        proof {
                            assert(area@ =~= before + Seq::new(x as nat, |_i: int| Field::Empty));
                        }
                    }
                    proof {
                        let k = r - self.lines@.len();
                        assert((k + 1) * w == k * w + w) by (nonlinear_arith);
                        assert(area@ =~= rows + Seq::new(((r + 1 - self.lines@.len()) * w) as nat, |_i: int| Field::Empty));
                    }
                    r = r + 1;
                }
                proof {
                    let k = h - self.lines@.len();
                    assert(w * self.lines@.len() + k * w == w * h) by (nonlinear_arith)
                        requires
                            k == h - self.lines@.len(),
                    ;
                }
                Ok(Level { name: self.level_name.clone(), width: w, height: h, area })
            },
        };
        self.levels.push(entry);
        self.in_level = false;
        proof {
            assert(self.model().levels =~= xml_finish(m).levels);
        }
    }

    /// Take one event.
    pub fn feed(&mut self, tok: XmlToken) -> (r: Result<(), XmlParseError>)
        requires
            old(self).inv(),
        ensures
            final(self).inv(),
            match xml_step(old(self).model(), tok) {
                None => r == Err::<(), XmlParseError>(XmlParseError::BadStructure),
                Some(m) => r is Ok && final(self).model() == m,
            },
    {
        let ghost m = self.model();
        if self.done {
            return Ok(());
        }
        if self.in_level {
            match tok {
                XmlToken::Start(n, _, _, _) => {
                    if name_is(&n, "L") {
                        self.in_line = true;
                    }
                },
                XmlToken::End(n) => {
                    if name_is(&n, "Level") {
                        self.finish_level();
                    } else if name_is(&n, "L") {
                        self.in_line = false;
                    }
                },
                XmlToken::Text(t) => {
                    if self.in_line {
                        if self.height != 0 && self.lines.len() == self.height {
                            self.finish_level();
                        } else {
                            let chars = chars_of(t.as_str());
                            let mut line = trimmed_end(&chars);
                            if self.width != 0 && line.len() > self.width {
                                line.truncate(self.width);
                            }
                            proof {
                                assert(line@ =~= cut(trim_end(t@), m.width));
                            }
                            self.lines.push(line);
                            proof {
                                assert(self.model().lines =~= m.lines.push(cut(trim_end(t@), m.width)));
                            }
                        }
                    }
                },
                XmlToken::Eof => {
                    self.finish_level();
                },
                XmlToken::Other => {},
            }
            return Ok(());
        }
        match tok {
            XmlToken::Start(n, id, w, h) => {
                if name_is(&n, "SokobanLevels") {
                    if self.in_levels {
                        return Err(XmlParseError::BadStructure);
                    }
                    self.in_levels = true;
                } else if name_is(&n, "Title") {
                    if self.in_collection {
                        return Err(XmlParseError::BadStructure);
                    }
                    self.in_title = true;
                } else if name_is(&n, "LevelCollection") {
                    if !self.in_levels {
                        return Err(XmlParseError::BadStructure);
                    }
                    self.in_collection = true;
                } else if name_is(&n, "Level") {
                    if !self.in_collection {
                        return Err(XmlParseError::BadStructure);
                    }
                    self.in_level = true;
                    self.level_name = match id {
                        Some(s) => s,
                        None => String::new(),
                    };
                    self.width = w;
                    self.height = h;
                    self.lines = Vec::new();
                    proof {
                        assert(self.model().lines =~= seq![]);
                    }
                }
            },
            XmlToken::End(n) => {
                if name_is(&n, "SokobanLevels") {
                    self.in_levels = false;
                } else if name_is(&n, "Title") {
                    self.in_title = false;
                } else if name_is(&n, "LevelCollection") {
                    self.in_collection = false;
                }
            },
            XmlToken::Text(t) => {
                if self.in_title {
                    self.name = t;
                    self.in_title = false;
                }
            },
            XmlToken::Eof => {
                self.done = true;
            },
            XmlToken::Other => {},
        }
        Ok(())
    }

    /// The level set read.
    pub fn into_set(self) -> (r: LevelSet)
        requires
            self.inv(),
        ensures
            r.name@ == self.model().name,
            r.levels@.map_values(|e: LevelResult| entry_of(e)) == self.model().levels,
            forall|k: int| 0 <= k < r.levels@.len() ==> (#[trigger] r.levels@[k] matches Ok(l) ==> l.wf()),
    {
        LevelSet { name: self.name, levels: self.levels }
    }
}

/// The attributes of a level read so far: its `Id`, `Width` and `Height`, the two
/// numbers 0 where not given, or the error met.
pub type AttrsRead = Result<(Option<Seq<char>>, usize, usize), ReadError>;

/// One more attribute of a level. `Id` names the level; `Width` and `Height` must be
/// decimal numbers; other attributes, and malformed ones, are passed over.
pub open spec fn attribute_step(acc: AttrsRead, a: Option<(Vec<u8>, Vec<u8>)>) -> AttrsRead {
    match acc {
        Err(e) => Err(e),
        Ok((id, w, h)) => match a {
            None => acc,
            Some((k, raw)) => {
                let key = name_chars(k@);
                if key != "Id"@ && key != "Width"@ && key != "Height"@ {
                    acc
                } else {
                    match value_unescaped(raw@) {
                        None => Err(ReadError::Syntax),
                        Some(v) => if key == "Id"@ {
                            Ok((Some(v), w, h))
                        } else {
                            match decimal_of(v) {
                                None => Err(ReadError::BadNumber),
                                Some(n) => if key == "Width"@ {
                                    Ok((id, n, h))
                                } else {
                                    Ok((id, w, n))
                                },
                            }
                        },
                    }
                }
            },
        },
    }
}

/// The first `n` attributes of a level, read.
pub open spec fn attributes_read(attrs: Seq<Option<(Vec<u8>, Vec<u8>)>>, n: nat) -> AttrsRead
    decreases n,
{
    if n == 0 || n > attrs.len() {
        Ok((None, 0, 0))
    } else {
        attribute_step(attributes_read(attrs, (n - 1) as nat), attrs[n - 1])
    }
}

/// The `Id`, `Width` and `Height` attributes of a level.
fn level_attributes(
    doc: &XmlDocument,
    attrs: &Vec<Option<(Vec<u8>, Vec<u8>)>>,
) -> (r: Result<(Option<String>, usize, usize), ReadError>)
    ensures
        match r {
            Ok((id, w, h)) => attributes_read(attrs@, attrs@.len()) == Ok::<
                (Option<Seq<char>>, usize, usize),
                ReadError,
            >((
                match id {
                    Some(s) => Some(s@),
                    None => None,
                },
                w,
                h,
            )),
            Err(e) => attributes_read(attrs@, attrs@.len()) == Err::<(Option<Seq<char>>, usize, usize), ReadError>(e),
        },
{
    let mut id: Option<String> = None;
    let mut width: usize = 0;
    let mut height: usize = 0;
    let mut i: usize = 0;
    while i < attrs.len()
        invariant
            i <= attrs@.len(),
            attributes_read(attrs@, i as nat) == Ok::<(Option<Seq<char>>, usize, usize), ReadError>((
                match id {
                    Some(s) => Some(s@),
                    None => None,
                },
                width,
                height,
            )),
        decreases attrs@.len() - i,
    {
        proof {
            lemma_attributes_err_stays(attrs@, (i + 1) as nat);
        }
        match &attrs[i] {
            Some((key, raw)) => {
                let is_id = name_is(key, "Id");
                let is_width = name_is(key, "Width");
                let is_height = name_is(key, "Height");
                if is_id || is_width || is_height {
                    let value = match unescape_value(doc, raw) {
                        Ok(v) => v,
                        Err(_) => return Err(ReadError::Syntax),
                    };
                    if is_id {
                        id = Some(value);
                    } else {
                        let n = match parse_decimal(&value) {
                            Some(n) => n,
                            None => return Err(ReadError::BadNumber),
                        };
                        if is_width {
                            width = n;
                        } else {
                            height = n;
                        }
                    }
                }
            },
            None => {},
        }
        i = i + 1;
    }
    Ok((id, width, height))
}

/// Once an attribute fails, reading more attributes keeps that error.
proof fn lemma_attributes_err_stays(attrs: Seq<Option<(Vec<u8>, Vec<u8>)>>, n: nat)
    ensures
        forall|m: nat|
            n <= m <= attrs.len() && #[trigger] attributes_read(attrs, n) is Err ==> attributes_read(attrs, m)
                == attributes_read(attrs, n),
    decreases attrs.len() - n,
{
    if n < attrs.len() {
        lemma_attributes_err_stays(attrs, n + 1);
    }
}

/// Read a level set written in XML: `SokobanLevels` holding a `Title`, the name of the
/// set, and a `LevelCollection` of `Level` elements, each with its rows in `L` elements.
/// Every level read is well formed.
pub fn read_from_xml(text: &str) -> (r: Result<LevelSet, ReadError>)
    ensures
        r matches Ok(set) ==> forall|k: int|
            0 <= k < set.levels@.len() ==> (#[trigger] set.levels@[k] matches Ok(l) ==> l.wf()),
{
    let mut doc = xml_reader(text);
    let mut st = XmlState::new();
    // Every event but the end takes at least one byte of the text, and the end comes
    // at most twice: once to close a level left open, once more to stop.
    let len = text.as_bytes().len();
    let mut budget: usize = if len < usize::MAX - 2 { len + 2 } else { usize::MAX };
    while !st.done()
        invariant
            st.inv(),
        decreases budget,
    {
        if budget == 0 {
            return Err(ReadError::Syntax);
        }
        budget = budget - 1;
        let item = match read_item(&mut doc) {
            Ok(item) => item,
            Err(_) => return Err(ReadError::Syntax),
        };
        let tok = match item {
            XmlItem::Start(name, attrs) => {
                if st.takes_attributes(&name) {
                    let (id, w, h) = level_attributes(&doc, &attrs)?;
                    XmlToken::Start(name, id, w, h)
                } else {
                    XmlToken::Start(name, None, 0, 0)
                }
            },
            XmlItem::End(name) => XmlToken::End(name),
            XmlItem::Text(raw) => {
                if st.wants_text() {
                    match unescape_text(&doc, &raw) {
                        Ok(t) => XmlToken::Text(t),
                        Err(_) => return Err(ReadError::Syntax),
                    }
                } else {
                    XmlToken::Text(String::new())
                }
            },
            XmlItem::Eof => XmlToken::Eof,
            XmlItem::Other => XmlToken::Other,
        };
        match st.feed(tok) {
            Ok(()) => {},
            Err(e) => return Err(ReadError::Structure(e)),
        }
    }
    Ok(st.into_set())
}

} // verus!
