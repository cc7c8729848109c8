//! Reading a dataset from its lines.
//!
//! A line that starts with `%` is a comment wherever it stands. The header
//! comes first: `@relation` with the title, `@attribute` with a name and a
//! type, and `@data`, after which every line is a record. The words of a
//! header line are separated by single spaces, the values of a record by
//! commas.
//!
//! Loading takes two steps. `Draft::read` reads the lines into a draft, in
//! which a numeric value is still the token that spells it.
//! `ArffContent::new` then takes the number that each of these tokens
//! denotes, in the order in which `Draft::numeric_tokens` lists them, and
//! builds the dataset with its indices.

use crate::arff::{
    cells, columns, declared_kind, find_token, position, rows, ArffContent, Attribute,
    AttributeType, Cell, Column, Instance, Kind, Value,
};
use crate::error::LoadError;
use crate::index::{cell_fits, make_samples};
use crate::number::{Number, NumberView, INFINITY_BITS, NEG_INFINITY_BITS};
use crate::text::{lemma_split_sizes, same_text, split, split_on, texts};
use vstd::prelude::*;

verus! {

/// What an entry of a draft holds.
pub enum EntryView {
    /// No value.
    Missing,
    /// The token of a number that is still to be read.
    Pending(Seq<char>),
    /// A number that the token itself names.
    Known(NumberView),
    /// The position of a token among those of a categorical attribute.
    Text(usize),
    /// A free text.
    String(Seq<char>),
}

/// One value of a record in a draft.
#[derive(Debug)]
pub enum Entry {
    Missing,
    Pending(String),
    Known(Number),
    Text(usize),
    String(String),
}

impl View for Entry {
    type V = EntryView;

    open spec fn view(&self) -> EntryView {
        match self {
            Entry::Missing => EntryView::Missing,
            Entry::Pending(token) => EntryView::Pending(token@),
            Entry::Known(n) => EntryView::Known(n@),
            Entry::Text(i) => EntryView::Text(*i),
            Entry::String(s) => EntryView::String(s@),
        }
    }
}

/// The entries held by a list.
pub open spec fn entries(v: Seq<Entry>) -> Seq<EntryView> {
    Seq::new(v.len(), |i: int| v[i]@)
}

/// The rows of entries held by a list.
pub open spec fn entry_rows(v: Seq<Vec<Entry>>) -> Seq<Seq<EntryView>> {
    Seq::new(v.len(), |i: int| entries(v[i]@))
}

/// What has been read of a dataset.
pub struct Scan {
    pub title: Seq<char>,
    pub columns: Seq<Column>,
    /// Whether the header has ended.
    pub reading_data: bool,
    pub rows: Seq<Seq<EntryView>>,
    /// For every row the number of the line that it was read from.
    pub places: Seq<usize>,
}

/// Positive infinity, as it is known and displayed.
pub open spec fn infinity() -> NumberView {
    NumberView { bits: INFINITY_BITS, text: "inf"@ }
}

/// Negative infinity, as it is known and displayed.
pub open spec fn neg_infinity() -> NumberView {
    NumberView { bits: NEG_INFINITY_BITS, text: "-inf"@ }
}

/// Whether a line is a comment.
pub open spec fn is_comment(line: Seq<char>) -> bool {
    line.len() > 0 && line[0] == '%'
}

/// What a header declares.
pub struct Heading {
    pub title: Seq<char>,
    pub columns: Seq<Column>,
}

/// What one line adds to a header, and whether the header ends with it; or
/// the fault in the line. A line whose first word is none of the three
/// keywords adds nothing.
pub open spec fn header_line(h: Heading, line: Seq<char>, at: usize) -> Result<
    (Heading, bool),
    LoadError,
> {
    let words = split(line, ' ');
    if words[0] == "@relation"@ {
        if words.len() < 2 {
            Err(LoadError::MissingTitle { line: at })
        } else {
            Ok((Heading { title: words[1], ..h }, false))
        }
    } else if words[0] == "@attribute"@ {
        if words.len() < 2 {
            Err(LoadError::MissingName { line: at })
        } else if words.len() < 3 {
            Err(LoadError::MissingType { line: at })
        } else {
            match declared_kind(words[2]) {
                Some(kind) => Ok(
                    (
                        Heading { columns: h.columns.push(Column { name: words[1], kind }), ..h },
                        false,
                    ),
                ),
                None => Err(LoadError::BadType { line: at }),
            }
        }
    } else if words[0] == "@data"@ {
        Ok((h, true))
    } else {
        Ok((h, false))
    }
}

/// The entry that a token makes in a column of the given kind; `None`
/// where the column is categorical and the token is none of its tokens.
/// `?` stands for a missing value in every column.
pub open spec fn entry_of(kind: Kind, token: Seq<char>) -> Option<EntryView> {
    if token == "?"@ {
        Some(EntryView::Missing)
    } else {
        match kind {
            Kind::Numeric => if token == "Infinity"@ {
                Some(EntryView::Known(infinity()))
            } else if token == "-Infinity"@ {
                Some(EntryView::Known(neg_infinity()))
            } else {
                Some(EntryView::Pending(token))
            },
            Kind::Text(tokens) => match position(tokens, token) {
                Some(i) => Some(EntryView::Text(i as usize)),
                None => None,
            },
            Kind::String => Some(EntryView::String(token)),
            Kind::Unknown => Some(EntryView::Missing),
        }
    }
}

/// The entries that the first `m` tokens of a record make, or the fault in
/// the first token that makes none.
pub open spec fn record_entries(
    columns: Seq<Column>,
    tokens: Seq<Seq<char>>,
    at: usize,
    m: nat,
) -> Result<Seq<EntryView>, LoadError>
    decreases m,
{
    if m == 0 {
        Ok(Seq::empty())
    } else {
        match record_entries(columns, tokens, at, (m - 1) as nat) {
            Err(e) => Err(e),
            Ok(before) => match entry_of(columns[m - 1].kind, tokens[m - 1]) {
                Some(entry) => Ok(before.push(entry)),
                None => Err(
                    LoadError::UnknownCategory { line: at, attribute: (m - 1) as usize },
                ),
            },
        }
    }
}

/// The record that a line holds: one entry for every column, made from the
/// values of the line in their order. Values beyond the last column are
/// not looked at; a line with fewer values than columns is a fault.
pub open spec fn record_line(columns: Seq<Column>, line: Seq<char>, at: usize) -> Result<
    Seq<EntryView>,
    LoadError,
> {
    let tokens = split(line, ',');
    if tokens.len() < columns.len() {
        Err(LoadError::ShortRecord { line: at })
    } else {
        record_entries(columns, tokens, at, columns.len())
    }
}

/// What one line adds to what has been read, or the fault in it.
pub open spec fn scan_line(st: Scan, line: Seq<char>, at: usize) -> Result<Scan, LoadError> {
    if is_comment(line) {
        Ok(st)
    } else if st.reading_data {
        match record_line(st.columns, line, at) {
            Ok(row) => Ok(Scan { rows: st.rows.push(row), places: st.places.push(at), ..st }),
            Err(e) => Err(e),
        }
    } else {
        match header_line(Heading { title: st.title, columns: st.columns }, line, at) {
            Ok((h, ended)) => Ok(
                Scan { title: h.title, columns: h.columns, reading_data: ended, ..st },
            ),
            Err(e) => Err(e),
        }
    }
}

/// Nothing read yet.
pub open spec fn nothing_read() -> Scan {
    Scan {
        title: Seq::empty(),
        columns: Seq::empty(),
        reading_data: false,
        rows: Seq::empty(),
        places: Seq::empty(),
    }
}

/// What the first `m` lines hold, or the first fault in them.
pub open spec fn scan(lines: Seq<Seq<char>>, m: nat) -> Result<Scan, LoadError>
    decreases m,
{
    if m == 0 {
        Ok(nothing_read())
    } else {
        match scan(lines, (m - 1) as nat) {
            Err(e) => Err(e),
            Ok(st) => scan_line(st, lines[m - 1], (m - 1) as usize),
        }
    }
}

/// Whether an entry may stand in a column of the given kind.
pub open spec fn entry_fits(kind: Kind, entry: EntryView) -> bool {
    match entry {
        EntryView::Missing => true,
        EntryView::Pending(_) => kind is Numeric,
        EntryView::Known(_) => kind is Numeric,
        EntryView::Text(i) => kind matches Kind::Text(tokens) && i < tokens.len(),
        EntryView::String(_) => kind is String,
    }
}

impl Scan {
    /// The invariant of what has been read: every row has an entry for
    /// every column, of the column's kind, and a line that it came from.
    pub open spec fn wf(self) -> bool {
        &&& self.places.len() == self.rows.len()
        &&& self.rows.len() > 0 ==> self.reading_data
        &&& forall|r: int|
            0 <= r < self.rows.len() ==> {
                &&& (#[trigger] self.rows[r]).len() == self.columns.len()
                &&& forall|a: int|
                    0 <= a < self.columns.len() ==> entry_fits(
                        self.columns[a].kind,
                        #[trigger] self.rows[r][a],
                    )
            }
    }
}

/// How many of the first `m` entries of a row are numbers still to be
/// read.
pub open spec fn pending_in(row: Seq<EntryView>, m: nat) -> nat
    decreases m,
{
    if m == 0 {
        0
    } else {
        pending_in(row, (m - 1) as nat) + if row[m - 1] is Pending {
            1nat
        } else {
            0nat
        }
    }
}

/// How many entries of the first `r` rows are numbers still to be read.
pub open spec fn pending_before(rows: Seq<Seq<EntryView>>, r: nat) -> nat
    decreases r,
{
    if r == 0 {
        0
    } else {
        pending_before(rows, (r - 1) as nat) + pending_in(rows[r - 1], rows[r - 1].len())
    }
}

/// The tokens of the numbers still to be read among the first `m` entries
/// of a row, in their order.
pub open spec fn pending_tokens_in(row: Seq<EntryView>, m: nat) -> Seq<Seq<char>>
    decreases m,
{
    if m == 0 {
        Seq::empty()
    } else {
        let before = pending_tokens_in(row, (m - 1) as nat);
        match row[m - 1] {
            EntryView::Pending(token) => before.push(token),
            _ => before,
        }
    }
}

/// The tokens of the numbers still to be read in the first `r` rows, row
/// by row.
pub open spec fn pending_tokens(rows: Seq<Seq<EntryView>>, r: nat) -> Seq<Seq<char>>
    decreases r,
{
    if r == 0 {
        Seq::empty()
    } else {
        pending_tokens(rows, (r - 1) as nat) + pending_tokens_in(rows[r - 1], rows[r - 1].len())
    }
}

/// The place of an entry among the numbers still to be read, counted row
/// by row.
pub open spec fn ordinal(rows: Seq<Seq<EntryView>>, r: int, a: int) -> int {
    (pending_before(rows, r as nat) + pending_in(rows[r], a as nat)) as int
}

/// The number given for the token at place `k`, if any.
pub open spec fn number_at(numbers: Seq<Option<NumberView>>, k: int) -> Option<NumberView> {
    if 0 <= k < numbers.len() {
        numbers[k]
    } else {
        None
    }
}

/// The cell that an entry becomes, given the number read from its token
/// where it has one; `None` where the token was not read as a number.
pub open spec fn cell_of(entry: EntryView, reading: Option<NumberView>) -> Option<Cell> {
    match entry {
        EntryView::Missing => Some(Cell::Missing),
        EntryView::Pending(_) => match reading {
            Some(n) => Some(Cell::Numeric(n)),
            None => None,
        },
        EntryView::Known(n) => Some(Cell::Numeric(n)),
        EntryView::Text(i) => Some(Cell::Text(i)),
        EntryView::String(s) => Some(Cell::String(s)),
    }
}

/// The cell at column `a` of row `r`, given the numbers read.
pub open spec fn cell_at(
    rows: Seq<Seq<EntryView>>,
    numbers: Seq<Option<NumberView>>,
    r: int,
    a: int,
) -> Option<Cell> {
    cell_of(rows[r][a], number_at(numbers, ordinal(rows, r, a)))
}

/// Among the first `m` entries of row `r`, the first that was not read as a
/// number.
pub open spec fn unread_in(
    rows: Seq<Seq<EntryView>>,
    numbers: Seq<Option<NumberView>>,
    r: int,
    m: nat,
) -> Option<int>
    decreases m,
{
    if m == 0 {
        None
    } else {
        match unread_in(rows, numbers, r, (m - 1) as nat) {
            Some(a) => Some(a),
            None => if cell_at(rows, numbers, r, m - 1) is None {
                Some(m - 1)
            } else {
                None
            },
        }
    }
}

/// Among the first `m` rows, the row and column of the first entry that was
/// not read as a number.
pub open spec fn unread(rows: Seq<Seq<EntryView>>, numbers: Seq<Option<NumberView>>, m: nat) -> Option<
    (int, int),
>
    decreases m,
{
    if m == 0 {
        None
    } else {
        match unread(rows, numbers, (m - 1) as nat) {
            Some(place) => Some(place),
            None => match unread_in(rows, numbers, m - 1, rows[m - 1].len()) {
                Some(a) => Some((m - 1, a)),
                None => None,
            },
        }
    }
}

/// The rows of the dataset: every entry of the draft with its number read,
/// or the fault of the first entry whose token is no number.
pub open spec fn filled(st: Scan, numbers: Seq<Option<NumberView>>) -> Result<
    Seq<Seq<Cell>>,
    LoadError,
> {
    match unread(st.rows, numbers, st.rows.len()) {
        Some((r, a)) => Err(LoadError::BadNumber { line: st.places[r], attribute: a as usize }),
        None => Ok(
            Seq::new(
                st.rows.len(),
                |r: int| Seq::new(st.rows[r].len(), |a: int| cell_at(st.rows, numbers, r, a)->0),
            ),
        ),
    }
}

/// What a list of numbers holds.
pub open spec fn readings(v: Seq<Option<Number>>) -> Seq<Option<NumberView>> {
    Seq::new(
        v.len(),
        |i: int|
            match v[i] {
                Some(n) => Some(n@),
                None => None,
            },
    )
}

/// A dataset as read from its lines, before its numbers are read.
#[derive(Debug)]
pub struct Draft {
    pub(crate) title: String,
    pub(crate) attributes: Vec<Attribute>,
    /// Whether the header has ended.
    pub(crate) reading_data: bool,
    pub(crate) rows: Vec<Vec<Entry>>,
    /// For every row the number of the line that it was read from.
    pub(crate) places: Vec<usize>,
}

impl View for Draft {
    type V = Scan;

    open(crate) spec fn view(&self) -> Scan {
        Scan {
            title: self.title@,
            columns: columns(self.attributes@),
            reading_data: self.reading_data,
            rows: entry_rows(self.rows@),
            places: self.places@,
        }
    }
}

/// The number that a token names by itself: one of the two infinities.
pub fn known_number(token: &str) -> (r: Option<Number>)
    ensures
        match r {
            Some(n) => (token@ == "Infinity"@ && n@ == infinity()) || (token@ != "Infinity"@
                && token@ == "-Infinity"@ && n@ == neg_infinity()),
            None => token@ != "Infinity"@ && token@ != "-Infinity"@,
        },
{
    if same_text(token, "Infinity") {
        Some(Number { bits: INFINITY_BITS, text: String::from_str("inf") })
    } else if same_text(token, "-Infinity") {
        Some(Number { bits: NEG_INFINITY_BITS, text: String::from_str("-inf") })
    } else {
        None
    }
}

/// Makes the entry of a token in a column of the given type.
fn read_entry(att_type: &AttributeType, token: &String) -> (r: Option<Entry>)
    ensures
        match r {
            Some(entry) => entry_of(att_type@, token@) == Some(entry@),
            None => entry_of(att_type@, token@) is None,
        },
{
    if same_text(token.as_str(), "?") {
        return Some(Entry::Missing);
    }
    match att_type {
        AttributeType::Numeric => match known_number(token.as_str()) {
            Some(n) => Some(Entry::Known(n)),
            None => Some(Entry::Pending(token.clone())),
        },
        AttributeType::Text(tokens) => match find_token(tokens.as_slice(), token.as_str()) {
            Some(i) => Some(Entry::Text(i)),
            None => None,
        },
        AttributeType::String => Some(Entry::String(token.clone())),
        AttributeType::Unknown => Some(Entry::Missing),
    }
}

proof fn lemma_record_fault_stays(
    columns: Seq<Column>,
    tokens: Seq<Seq<char>>,
    at: usize,
    m: nat,
    n: nat,
)
    requires
        m <= n,
        record_entries(columns, tokens, at, m) is Err,
    ensures
        record_entries(columns, tokens, at, n) == record_entries(columns, tokens, at, m),
    decreases n - m,
{
    if m < n {
        lemma_record_fault_stays(columns, tokens, at, m, (n - 1) as nat);
    }
}

proof fn lemma_scan_fault_stays(lines: Seq<Seq<char>>, m: nat, n: nat)
    requires
        m <= n,
        scan(lines, m) is Err,
    ensures
        scan(lines, n) == scan(lines, m),
    decreases n - m,
{
    if m < n {
        lemma_scan_fault_stays(lines, m, (n - 1) as nat);
    }
}

/// An entry made from a token fits the column it was made for.
pub proof fn lemma_entry_fits(kind: Kind, token: Seq<char>)
    requires
        entry_of(kind, token) is Some,
    ensures
        entry_fits(kind, entry_of(kind, token)->0),
{
    match kind {
        Kind::Text(tokens) => {
            if token != "?"@ {
                let i = position(tokens, token)->0;
                assert(crate::arff::is_position(tokens, token, i));
            }
        },
        _ => {},
    }
}

/// Reads one line of a header into `title` and `attributes`; `at` is the
/// number of the line. Tells whether the header ends with the line.
pub fn load_line(title: &mut String, attributes: &mut Vec<Attribute>, line: &str, at: usize) -> (r:
    Result<bool, LoadError>)
    ensures
        match r {
            Ok(ended) => header_line(
                Heading { title: old(title)@, columns: columns(old(attributes)@) },
                line@,
                at,
            ) == Ok::<(Heading, bool), LoadError>(
                (Heading { title: final(title)@, columns: columns(final(attributes)@) }, ended),
            ),
            Err(e) => {
                &&& header_line(
                    Heading { title: old(title)@, columns: columns(old(attributes)@) },
                    line@,
                    at,
                ) == Err::<(Heading, bool), LoadError>(e)
                &&& final(title)@ == old(title)@
                &&& columns(final(attributes)@) == columns(old(attributes)@)
            },
        },
{
    let words = split_on(line, ' ');
    proof {
        lemma_split_sizes(line@, ' ');
        assert(texts(words@)[0] == words[0]@);
    }
    if same_text(words[0].as_str(), "@relation") {
        if words.len() < 2 {
            return Err(LoadError::MissingTitle { line: at });
        }
        proof {
            assert(texts(words@)[1] == words[1]@);
        }
        *title = words[1].clone();
        Ok(false)
    } else if same_text(words[0].as_str(), "@attribute") {
        if words.len() < 2 {
            return Err(LoadError::MissingName { line: at });
        }
        if words.len() < 3 {
            return Err(LoadError::MissingType { line: at });
        }
        proof {
            assert(texts(words@)[1] == words[1]@);
            assert(texts(words@)[2] == words[2]@);
        }
        match AttributeType::parse(words[2].as_str()) {
            Some(att_type) => {
                let ghost was = columns(attributes@);
                let attr = Attribute { name: words[1].clone(), att_type };
                attributes.push(attr);
                proof {
                    assert(columns(attributes@) =~= was.push(
                        Column { name: words[1]@, kind: att_type@ },
                    ));
                }
                Ok(false)
            },
            None => Err(LoadError::BadType { line: at }),
        }
    } else if same_text(words[0].as_str(), "@data") {
        Ok(true)
    } else {
        Ok(false)
    }
}

/// What a record holds, or the fault.
pub open spec fn record_result(r: Result<Vec<Entry>, LoadError>) -> Result<Seq<EntryView>, LoadError> {
    match r {
        Ok(row) => Ok(entries(row@)),
        Err(e) => Err(e),
    }
}

/// Reads one record for the given attributes; `at` is the number of the
/// line.
pub fn load_data_line(attributes: &Vec<Attribute>, line: &str, at: usize) -> (r: Result<
    Vec<Entry>,
    LoadError,
>)
    ensures
        record_result(r) == record_line(columns(attributes@), line@, at),
{
    let tokens = split_on(line, ',');
    let width = attributes.len();
    if tokens.len() < width {
        return Err(LoadError::ShortRecord { line: at });
    }
    let ghost cols = columns(attributes@);
    let ghost given = texts(tokens@);
    let mut row: Vec<Entry> = Vec::new();
    proof {
        assert(entries(row@) =~= Seq::empty());
    }
    for a in 0..width
        invariant
            width == attributes.len(),
            width <= tokens.len(),
            cols == columns(attributes@),
            given == texts(tokens@),
            given == split(line@, ','),
            row.len() == a,
            record_entries(cols, given, at, a as nat) == Ok::<Seq<EntryView>, LoadError>(
                entries(row@),
            ),
    {
        let ghost was = entries(row@);
        proof {
            assert(given[a as int] == tokens[a as int]@);
            assert(cols[a as int].kind == attributes[a as int].att_type@);
        }
        match read_entry(&attributes[a].att_type, &tokens[a]) {
            Some(entry) => {
                row.push(entry);
                proof {
                    assert(entries(row@) =~= was.push(entry@));
                }
            },
            None => {
                proof {
                    lemma_record_fault_stays(cols, given, at, (a + 1) as nat, width as nat);
                }
                return Err(LoadError::UnknownCategory { line: at, attribute: a });
            },
        }
    }
    Ok(row)
}

/// A record read without fault fits the columns it was read for.
pub proof fn lemma_record_fits(columns: Seq<Column>, line: Seq<char>, at: usize)
    requires
        record_line(columns, line, at) is Ok,
    ensures
        record_line(columns, line, at)->Ok_0.len() == columns.len(),
        forall|a: int|
            0 <= a < columns.len() ==> entry_fits(
                columns[a].kind,
                #[trigger] record_line(columns, line, at)->Ok_0[a],
            ),
{
    let tokens = split(line, ',');
    lemma_record_places(columns, tokens, at, columns.len());
    assert forall|a: int| 0 <= a < columns.len() implies entry_fits(
        columns[a].kind,
        #[trigger] record_line(columns, line, at)->Ok_0[a],
    ) by {
        assert(entry_of(columns[a].kind, tokens[a]) == Some(
            record_entries(columns, tokens, at, columns.len())->Ok_0[a],
        ));
        lemma_entry_fits(columns[a].kind, tokens[a]);
    }
}

impl Draft {
    /// Every draft is well formed.
    #[verifier::type_invariant]
    pub open(crate) spec fn inv(&self) -> bool {
        self@.wf()
    }

    /// Whether the header has ended.
    pub fn reading_data(&self) -> (r: bool)
        ensures
            r == self@.reading_data,
    {
        self.reading_data
    }

    /// The title read.
    pub fn title(&self) -> (r: &String)
        ensures
            r@ == self@.title,
    {
        &self.title
    }

    /// The attributes read.
    pub fn attributes(&self) -> (r: &Vec<Attribute>)
        ensures
            columns(r@) == self@.columns,
    {
        &self.attributes
    }

    /// The records read.
    pub fn rows(&self) -> (r: &Vec<Vec<Entry>>)
        ensures
            entry_rows(r@) == self@.rows,
    {
        &self.rows
    }

    /// For every record the number of the line that it was read from.
    pub fn places(&self) -> (r: &Vec<usize>)
        ensures
            r@ == self@.places,
    {
        &self.places
    }

    /// Reads a dataset from its lines, up to the numbers.
    pub fn read(lines: &Vec<String>) -> (r: Result<Draft, LoadError>)
        ensures
            match r {
                Ok(draft) => scan(texts(lines@), lines.len() as nat) == Ok::<Scan, LoadError>(
                    draft@,
                ),
                Err(e) => scan(texts(lines@), lines.len() as nat) == Err::<Scan, LoadError>(e),
            },
    {
        let mut title = String::new();
        let mut attributes: Vec<Attribute> = Vec::new();
        let mut reading_data = false;
        let mut rows: Vec<Vec<Entry>> = Vec::new();
        let mut places: Vec<usize> = Vec::new();
        let ghost all = texts(lines@);
        proof {
            assert(columns(attributes@) =~= Seq::empty());
            assert(entry_rows(rows@) =~= Seq::empty());
        }
        for i in 0..lines.len()
            invariant
                all == texts(lines@),
                scan(all, i as nat) == Ok::<Scan, LoadError>(
                    Scan {
                        title: title@,
                        columns: columns(attributes@),
                        reading_data,
                        rows: entry_rows(rows@),
                        places: places@,
                    },
                ),
                scan(all, i as nat)->Ok_0.wf(),
        {
            let line = lines[i].as_str();
            let ghost st = scan(all, i as nat)->Ok_0;
            proof {
                assert(all[i as int] == line@);
            }
            if !line.is_empty() && line.get_char(0) == '%' {
                // a comment
            } else if reading_data {
                match load_data_line(&attributes, line, i) {
                    Ok(row) => {
                        let ghost was = entry_rows(rows@);
                        let ghost added = entries(row@);
                        rows.push(row);
                        places.push(i);
                        proof {
                            assert(entry_rows(rows@) =~= was.push(added));
                            lemma_record_fits(st.columns, line@, i);
                            let now = scan(all, (i + 1) as nat)->Ok_0;
                            assert forall|r: int| 0 <= r < now.rows.len() implies {
                                &&& (#[trigger] now.rows[r]).len() == now.columns.len()
                                &&& forall|a: int|
                                    0 <= a < now.columns.len() ==> entry_fits(
                                        now.columns[a].kind,
                                        #[trigger] now.rows[r][a],
                                    )
                            } by {
                                if r < st.rows.len() {
                                    assert(now.rows[r] == st.rows[r]);
                                }
                            }
                        }
                    },
                    Err(e) => {
                        proof {
                            lemma_scan_fault_stays(all, (i + 1) as nat, lines.len() as nat);
                        }
                        return Err(e);
                    },
                }
            } else {
                match load_line(&mut title, &mut attributes, line, i) {
                    Ok(ended) => {
                        reading_data = ended;
                    },
                    Err(e) => {
                        proof {
                            lemma_scan_fault_stays(all, (i + 1) as nat, lines.len() as nat);
                        }
                        return Err(e);
                    },
                }
            }
        }
        Ok(Draft { title, attributes, reading_data, rows, places })
    }

    /// Lists the tokens whose numbers are still to be read, row by row.
    pub fn numeric_tokens(&self) -> (r: Vec<String>)
        ensures
            texts(r@) == pending_tokens(self@.rows, self@.rows.len()),
    {
        let mut r: Vec<String> = Vec::new();
        let ghost all = self@.rows;
        proof {
            assert(texts(r@) =~= Seq::empty());
        }
        for i in 0..self.rows.len()
            invariant
                all == self@.rows,
                texts(r@) == pending_tokens(all, i as nat),
        {
            let row = &self.rows[i];
            let ghost before = texts(r@);
            proof {
                assert(all[i as int] == entries(row@));
                assert(texts(r@) =~= before + pending_tokens_in(all[i as int], 0));
            }
            for a in 0..row.len()
                invariant
                    all == self@.rows,
                    all[i as int] == entries(row@),
                    texts(r@) == before + pending_tokens_in(all[i as int], a as nat),
            {
                let ghost was = texts(r@);
                match &row[a] {
                    Entry::Pending(token) => {
                        r.push(token.clone());
                        proof {
                            assert(all[i as int][a as int] == row[a as int]@);
                            assert(texts(r@) =~= was.push(token@));
                            assert(texts(r@) =~= before + pending_tokens_in(
                                all[i as int],
                                (a + 1) as nat,
                            ));
                        }
                    },
                    _ => {
                        proof {
                            assert(all[i as int][a as int] == row[a as int]@);
                        }
                    },
                }
            }
        }
        r
    }
}

proof fn lemma_unread_in_stays(
    rows: Seq<Seq<EntryView>>,
    numbers: Seq<Option<NumberView>>,
    r: int,
    m: nat,
    n: nat,
)
    requires
        m <= n,
        unread_in(rows, numbers, r, m) is Some,
    ensures
        unread_in(rows, numbers, r, n) == unread_in(rows, numbers, r, m),
    decreases n - m,
{
    if m < n {
        lemma_unread_in_stays(rows, numbers, r, m, (n - 1) as nat);
    }
}

proof fn lemma_unread_stays(
    rows: Seq<Seq<EntryView>>,
    numbers: Seq<Option<NumberView>>,
    m: nat,
    n: nat,
)
    requires
        m <= n,
        unread(rows, numbers, m) is Some,
    ensures
        unread(rows, numbers, n) == unread(rows, numbers, m),
    decreases n - m,
{
    if m < n {
        lemma_unread_stays(rows, numbers, m, (n - 1) as nat);
    }
}

/// A cell made from an entry fits the column that the entry fits.
pub proof fn lemma_cell_fits(kind: Kind, entry: EntryView, reading: Option<NumberView>)
    requires
        entry_fits(kind, entry),
        cell_of(entry, reading) is Some,
    ensures
        cell_fits(kind, cell_of(entry, reading)->0),
{
}

impl ArffContent {
    /// Builds the dataset of a draft. `numbers` gives, for every token that
    /// `Draft::numeric_tokens` lists, the number that the token denotes, or
    /// `None` where it denotes none; a token beyond the end of `numbers`
    /// counts as one that denotes none.
    pub fn new(filename: &str, draft: Draft, numbers: &Vec<Option<Number>>) -> (r: Result<
        ArffContent,
        LoadError,
    >)
        ensures
            match r {
                Ok(content) => {
                    &&& content@.wf()
                    &&& content@.filename == filename@
                    &&& content@.title == draft@.title
                    &&& content@.columns == draft@.columns
                    &&& filled(draft@, readings(numbers@)) == Ok::<Seq<Seq<Cell>>, LoadError>(
                        content@.rows,
                    )
                },
                Err(e) => filled(draft@, readings(numbers@)) == Err::<Seq<Seq<Cell>>, LoadError>(e),
            },
    {
        let ghost st = draft@;
        let ghost given = readings(numbers@);
        proof {
            use_type_invariant(&draft);
        }
        let mut data: Vec<Instance> = Vec::new();
        let mut used: usize = 0;
        proof {
            assert(rows(data@) =~= Seq::new(
                0,
                |i: int| Seq::new(st.rows[i].len(), |a: int| cell_at(st.rows, given, i, a)->0),
            ));
        }
        for r in 0..draft.rows.len()
            invariant
                st == draft@,
                st.wf(),
                given == readings(numbers@),
                used <= numbers.len(),
                used == pending_before(st.rows, r as nat),
                unread(st.rows, given, r as nat) is None,
                rows(data@) == Seq::new(
                    r as nat,
                    |i: int| Seq::new(st.rows[i].len(), |a: int| cell_at(st.rows, given, i, a)->0),
                ),
                forall|i: int, a: int|
                    0 <= i < r && 0 <= a < st.columns.len() ==> cell_fits(
                        st.columns[a].kind,
                        #[trigger] rows(data@)[i][a],
                    ),
        {
            let row = &draft.rows[r];
            let ghost line = st.rows[r as int];
            let ghost done = rows(data@);
            let mut values: Vec<Value> = Vec::new();
            proof {
                assert(line == entries(row@));
                assert(line.len() == st.columns.len());
                assert(cells(values@) =~= Seq::new(
                    0,
                    |b: int| cell_at(st.rows, given, r as int, b)->0,
                ));
            }
            for a in 0..row.len()
                invariant
                    st == draft@,
                    st.wf(),
                    given == readings(numbers@),
                    0 <= r < st.rows.len(),
                    line == st.rows[r as int],
                    line == entries(row@),
                    used <= numbers.len(),
                    used == ordinal(st.rows, r as int, a as int),
                    unread(st.rows, given, r as nat) is None,
                    unread_in(st.rows, given, r as int, a as nat) is None,
                    cells(values@) == Seq::new(
                        a as nat,
                        |b: int| cell_at(st.rows, given, r as int, b)->0,
                    ),
            {
                let ghost was = cells(values@);
                proof {
                    assert(line[a as int] == row[a as int]@);
                }
                let value = match &row[a] {
                    Entry::Missing => Value::Missing,
                    Entry::Pending(_) => {
                        let reading = if used < numbers.len() {
                            match &numbers[used] {
                                Some(n) => Some(n.clone()),
                                None => None,
                            }
                        } else {
                            None
                        };
                        proof {
                            assert(number_at(given, used as int) == match reading {
                                Some(n) => Some(n@),
                                None => None,
                            });
                        }
                        match reading {
                            Some(n) => {
                                used += 1;
                                Value::Numeric(n)
                            },
                            None => {
                                proof {
                                    assert(cell_at(st.rows, given, r as int, a as int) is None);
                                    lemma_unread_in_stays(
                                        st.rows,
                                        given,
                                        r as int,
                                        (a + 1) as nat,
                                        line.len(),
                                    );
                                    lemma_unread_stays(st.rows, given, (r + 1) as nat, st.rows.len());
                                    assert(st.places[r as int] == draft.places[r as int]);
                                }
                                return Err(
                                    LoadError::BadNumber { line: draft.places[r], attribute: a },
                                );
                            },
                        }
                    },
                    Entry::Known(n) => Value::Numeric(n.clone()),
                    Entry::Text(i) => Value::Text(*i),
                    Entry::String(s) => Value::String(s.clone()),
                };
                proof {
                    assert(cell_at(st.rows, given, r as int, a as int) == Some(value@));
                }
                values.push(value);
                proof {
                    assert(cells(values@) =~= was.push(value@));
                    assert(cells(values@) =~= Seq::new(
                        (a + 1) as nat,
                        |b: int| cell_at(st.rows, given, r as int, b)->0,
                    ));
                }
            }
            let ghost made = cells(values@);
            data.push(Instance { values });
            proof {
                assert(rows(data@) =~= done.push(made));
                assert(rows(data@) =~= Seq::new(
                    (r + 1) as nat,
                    |i: int| Seq::new(st.rows[i].len(), |a: int| cell_at(st.rows, given, i, a)->0),
                ));
                assert forall|i: int, a: int|
                    0 <= i < r + 1 && 0 <= a < st.columns.len() implies cell_fits(
                    st.columns[a].kind,
                    #[trigger] rows(data@)[i][a],
                ) by {
                    if i < r {
                        assert(rows(data@)[i] == done[i]);
                    } else {
                        lemma_unread_in_none(st.rows, given, r as int, line.len(), a);
                        lemma_cell_fits(
                            st.columns[a].kind,
                            st.rows[i][a],
                            number_at(given, ordinal(st.rows, i, a)),
                        );
                    }
                }
            }
        }
        proof {
            assert forall|r: int| 0 <= r < rows(data@).len() implies {
                &&& (#[trigger] rows(data@)[r]).len() == st.columns.len()
                &&& forall|a: int|
                    0 <= a < st.columns.len() ==> cell_fits(
                        st.columns[a].kind,
                        #[trigger] rows(data@)[r][a],
                    )
            } by {
                assert(st.rows[r].len() == st.columns.len());
            }
        }
        let samples = make_samples(&draft.attributes, &data);
        Ok(
            ArffContent {
                filename: String::from_str(filename),
                title: draft.title,
                data,
                attributes: draft.attributes,
                samples,
            },
        )
    }
}

/// Where no entry of the first rows is unread, every entry of them has its
/// cell.
proof fn lemma_unread_none(
    rows: Seq<Seq<EntryView>>,
    numbers: Seq<Option<NumberView>>,
    m: nat,
    r: int,
    a: int,
)
    requires
        unread(rows, numbers, m) is None,
        0 <= r < m,
        0 <= a < rows[r].len(),
    ensures
        cell_at(rows, numbers, r, a) is Some,
    decreases m,
{
    if r < m - 1 {
        lemma_unread_none(rows, numbers, (m - 1) as nat, r, a);
    } else {
        lemma_unread_in_none(rows, numbers, r, rows[r].len(), a);
    }
}

/// Whether row `r` of what has been read is the record of one of the first
/// `m` lines, which is no comment.
pub open spec fn row_from_line(lines: Seq<Seq<char>>, st: Scan, r: int, m: nat) -> bool {
    let at = st.places[r];
    &&& at < m
    &&& !is_comment(lines[at as int])
    &&& record_line(st.columns, lines[at as int], at) == Ok::<Seq<EntryView>, LoadError>(st.rows[r])
}

/// Whether a declaration held in memory can name the kind: it is numbers,
/// free text or a list of tokens, and the tokens can be counted in a machine
/// word.
pub open spec fn declarable(kind: Kind) -> bool {
    &&& !(kind is Unknown)
    &&& kind matches Kind::Text(tokens) ==> tokens.len() <= usize::MAX
}

/// What has been read without fault is well formed, every column of it has
/// a kind that a declaration can name, and every row of it is the record of
/// the line that it came from. It is stated of lines that can be held in
/// memory.
pub proof fn lemma_scan_rows(lines: Seq<Seq<char>>, m: nat)
    requires
        scan(lines, m) is Ok,
        m <= usize::MAX,
        m <= lines.len(),
        forall|i: int| 0 <= i < lines.len() ==> (#[trigger] lines[i]).len() <= usize::MAX,
    ensures
        scan(lines, m)->Ok_0.wf(),
        forall|c: int|
            0 <= c < scan(lines, m)->Ok_0.columns.len() ==> declarable(
                (#[trigger] scan(lines, m)->Ok_0.columns[c]).kind,
            ),
        forall|r: int|
            0 <= r < scan(lines, m)->Ok_0.rows.len() ==> #[trigger] row_from_line(
                lines,
                scan(lines, m)->Ok_0,
                r,
                m,
            ),
    decreases m,
{
    if m > 0 {
        lemma_scan_rows(lines, (m - 1) as nat);
        let before = scan(lines, (m - 1) as nat)->Ok_0;
        let st = scan(lines, m)->Ok_0;
        let line = lines[m - 1];
        if is_comment(line) {
        } else if before.reading_data {
            let row = record_line(before.columns, line, (m - 1) as usize)->Ok_0;
            lemma_record_places(before.columns, split(line, ','), (m - 1) as usize, before.columns.len());
            lemma_record_fits(before.columns, line, (m - 1) as usize);
            assert forall|r: int| 0 <= r < st.rows.len() implies {
                &&& (#[trigger] st.rows[r]).len() == st.columns.len()
                &&& forall|a: int|
                    0 <= a < st.columns.len() ==> entry_fits(
                        st.columns[a].kind,
                        #[trigger] st.rows[r][a],
                    )
            } by {
                if r < before.rows.len() {
                    assert(st.rows[r] == before.rows[r]);
                }
            }
            assert forall|r: int| 0 <= r < st.rows.len() implies #[trigger] row_from_line(
                lines,
                st,
                r,
                m,
            ) by {
                if r < before.rows.len() {
                    assert(row_from_line(lines, before, r, (m - 1) as nat));
                    assert(st.places[r] == before.places[r]);
                    assert(st.rows[r] == before.rows[r]);
                }
            }
        } else {
            assert(before.rows.len() == 0);
            let words = split(line, ' ');
            lemma_split_sizes(line, ' ');
            if words[0] != "@relation"@ && words[0] == "@attribute"@ {
                let inner = words[2].subrange(1, words[2].len() - 1);
                lemma_split_sizes(inner, ',');
                assert forall|c: int| 0 <= c < st.columns.len() implies declarable(
                    (#[trigger] st.columns[c]).kind,
                ) by {
                    if c < before.columns.len() {
                        assert(st.columns[c] == before.columns[c]);
                    }
                }
            }
        }
        if is_comment(line) {
            assert forall|r: int| 0 <= r < st.rows.len() implies #[trigger] row_from_line(
                lines,
                st,
                r,
                m,
            ) by {
                assert(row_from_line(lines, before, r, (m - 1) as nat));
            }
        }
    }
}

/// What `record_entries` holds where it meets no fault: for every column
/// the entry of the token at its place.
pub proof fn lemma_record_places(columns: Seq<Column>, tokens: Seq<Seq<char>>, at: usize, m: nat)
    requires
        record_entries(columns, tokens, at, m) is Ok,
    ensures
        record_entries(columns, tokens, at, m)->Ok_0.len() == m,
        forall|a: int|
            0 <= a < m ==> entry_of(columns[a].kind, tokens[a]) == Some(
                #[trigger] record_entries(columns, tokens, at, m)->Ok_0[a],
            ),
    decreases m,
{
    if m > 0 {
        lemma_record_places(columns, tokens, at, (m - 1) as nat);
        let before = record_entries(columns, tokens, at, (m - 1) as nat)->Ok_0;
        let now = record_entries(columns, tokens, at, m)->Ok_0;
        assert forall|a: int| 0 <= a < m implies entry_of(columns[a].kind, tokens[a]) == Some(
            #[trigger] now[a],
        ) by {
            if a < m - 1 {
                assert(now[a] == before[a]);
            }
        }
    }
}

proof fn lemma_pending_in_row(row: Seq<EntryView>, m: nat, a: int)
    requires
        0 <= a < m,
    ensures
        pending_tokens_in(row, m).len() == pending_in(row, m),
        pending_in(row, a as nat) <= pending_in(row, m),
        row[a] matches EntryView::Pending(token) ==> pending_in(row, a as nat) < pending_in(row, m)
            && pending_tokens_in(row, m)[pending_in(row, a as nat) as int] == token,
    decreases m,
{
    lemma_pending_count(row, (m - 1) as nat);
    if a < m - 1 {
        lemma_pending_in_row(row, (m - 1) as nat, a);
    }
}

proof fn lemma_pending_count(row: Seq<EntryView>, m: nat)
    ensures
        pending_tokens_in(row, m).len() == pending_in(row, m),
    decreases m,
{
    if m > 0 {
        lemma_pending_count(row, (m - 1) as nat);
    }
}

/// The token of a number still to be read stands, in the list of these
/// tokens, at the place of its entry.
pub proof fn lemma_pending_place(rows: Seq<Seq<EntryView>>, m: nat, r: int, a: int)
    requires
        0 <= r < m,
        0 <= a < rows[r].len(),
        rows[r][a] is Pending,
    ensures
        pending_tokens(rows, m).len() == pending_before(rows, m),
        0 <= ordinal(rows, r, a) < pending_tokens(rows, m).len(),
        pending_tokens(rows, m)[ordinal(rows, r, a)] == rows[r][a]->Pending_0,
    decreases m,
{
    lemma_pending_total(rows, (m - 1) as nat);
    lemma_pending_count(rows[m - 1], rows[m - 1].len());
    if r < m - 1 {
        lemma_pending_place(rows, (m - 1) as nat, r, a);
    } else {
        lemma_pending_in_row(rows[r], rows[r].len(), a);
    }
}

proof fn lemma_pending_total(rows: Seq<Seq<EntryView>>, m: nat)
    ensures
        pending_tokens(rows, m).len() == pending_before(rows, m),
    decreases m,
{
    if m > 0 {
        lemma_pending_total(rows, (m - 1) as nat);
        lemma_pending_count(rows[m - 1], rows[m - 1].len());
    }
}

/// The rows that the lines hold, given the numbers read from the tokens of
/// its numeric values.
pub open spec fn loaded_rows(lines: Seq<Seq<char>>, numbers: Seq<Option<NumberView>>) -> Result<
    Seq<Seq<Cell>>,
    LoadError,
> {
    match scan(lines, lines.len()) {
        Ok(st) => filled(st, numbers),
        Err(e) => Err(e),
    }
}

/// Whether a cell says what a token says in a column of the given kind,
/// where `reading` is the number read from the token. A missing value is
/// spelled `?`, or stands in a column without a kind. A number is the
/// infinity that the token names, or else the number read from the token.
/// A categorical value is the position of the token among the tokens of
/// the column. A free text is the token itself.
pub open spec fn spells(kind: Kind, token: Seq<char>, reading: Option<NumberView>, cell: Cell) -> bool {
    match cell {
        Cell::Missing => token == "?"@ || kind is Unknown,
        Cell::Numeric(n) => {
            &&& kind is Numeric
            &&& token != "?"@
            &&& if token == "Infinity"@ {
                n == infinity()
            } else if token == "-Infinity"@ {
                n == neg_infinity()
            } else {
                reading == Some(n)
            }
        },
        Cell::Text(i) => {
            &&& token != "?"@
            &&& kind matches Kind::Text(tokens)
            &&& i < tokens.len()
            &&& tokens[i as int] == token
        },
        Cell::String(s) => token != "?"@ && kind is String && s == token,
    }
}

/// Every cell of a loaded dataset says what its token says: the token
/// that stands at the place of the cell's column in the line that the
/// record was read from. For a number that is read from its token, the
/// reading is the one given for this very token. A value is missing only
/// where the token is `?`.
pub proof fn lemma_cells_spell_tokens(
    lines: Seq<Seq<char>>,
    numbers: Seq<Option<NumberView>>,
    r: int,
    a: int,
)
    requires
        lines.len() <= usize::MAX,
        forall|i: int| 0 <= i < lines.len() ==> (#[trigger] lines[i]).len() <= usize::MAX,
        loaded_rows(lines, numbers) is Ok,
        0 <= r < loaded_rows(lines, numbers)->Ok_0.len(),
        0 <= a < scan(lines, lines.len())->Ok_0.columns.len(),
    ensures
        ({
            let st = scan(lines, lines.len())->Ok_0;
            let line = lines[st.places[r] as int];
            let token = split(line, ',')[a];
            let k = ordinal(st.rows, r, a);
            &&& 0 <= st.places[r] < lines.len()
            &&& a < split(line, ',').len()
            &&& a < loaded_rows(lines, numbers)->Ok_0[r].len()
            &&& spells(
                st.columns[a].kind,
                token,
                number_at(numbers, k),
                loaded_rows(lines, numbers)->Ok_0[r][a],
            )
            &&& st.rows[r][a] is Pending ==> 0 <= k < pending_tokens(st.rows, st.rows.len()).len()
                && pending_tokens(st.rows, st.rows.len())[k] == token
            &&& loaded_rows(lines, numbers)->Ok_0[r][a] is Missing <==> token == "?"@
        }),
{
    let st = scan(lines, lines.len())->Ok_0;
    lemma_scan_rows(lines, lines.len());
    assert(row_from_line(lines, st, r, lines.len()));
    assert(declarable(st.columns[a].kind));
    let at = st.places[r];
    let line = lines[at as int];
    let tokens = split(line, ',');
    assert(st.rows[r].len() == st.columns.len());
    lemma_record_places(st.columns, tokens, at, st.columns.len());
    assert(entry_of(st.columns[a].kind, tokens[a]) == Some(st.rows[r][a]));
    lemma_unread_none(st.rows, numbers, st.rows.len(), r, a);
    if st.rows[r][a] is Pending {
        lemma_pending_place(st.rows, st.rows.len(), r, a);
    }
    match st.columns[a].kind {
        Kind::Text(names) => {
            assert(declarable(st.columns[a].kind));
            if tokens[a] != "?"@ {
                let i = position(names, tokens[a])->0;
                assert(crate::arff::is_position(names, tokens[a], i));
            }
        },
        _ => {},
    }
}

/// Where no entry of a row is unread, every entry has its cell.
proof fn lemma_unread_in_none(
    rows: Seq<Seq<EntryView>>,
    numbers: Seq<Option<NumberView>>,
    r: int,
    m: nat,
    a: int,
)
    requires
        unread_in(rows, numbers, r, m) is None,
        0 <= a < m,
    ensures
        cell_at(rows, numbers, r, a) is Some,
    decreases m,
{
    if a < m - 1 {
        lemma_unread_in_none(rows, numbers, r, (m - 1) as nat, a);
    }
}

} // verus!
