//! The dataset: its schema, its records and the index kept for every
//! attribute.

use crate::index::{cell_fits, index_fits, rows_fit};
use crate::number::{Number, NumberView};
use crate::text::{same_text, texts};
use vstd::prelude::*;

verus! {

/// An ordered list of record ids that share a property.
#[derive(Debug)]
pub struct Population(pub Vec<usize>);

impl View for Population {
    type V = Seq<usize>;

    open spec fn view(&self) -> Seq<usize> {
        self.0@
    }
}

/// The ids held by each population of a list.
pub open spec fn memberships(v: Seq<Population>) -> Seq<Seq<usize>> {
    Seq::new(v.len(), |i: int| v[i]@)
}

/// What the index of one attribute holds.
pub enum Index {
    /// The present values of a numeric attribute, each with the id of its
    /// record.
    Numeric(Seq<(u32, usize)>),
    /// One population for every token of a categorical attribute.
    Text(Seq<Seq<usize>>),
    /// Nothing: the attribute is neither numeric nor categorical.
    BadType,
}

/// The index of one attribute.
#[derive(Debug)]
pub enum AttributeSamples {
    Numeric(Vec<(u32, usize)>),
    Text(Vec<Population>),
    BadType,
}

impl View for AttributeSamples {
    type V = Index;

    open spec fn view(&self) -> Index {
        match self {
            AttributeSamples::Numeric(list) => Index::Numeric(list@),
            AttributeSamples::Text(list) => Index::Text(memberships(list@)),
            AttributeSamples::BadType => Index::BadType,
        }
    }
}

/// The indices held by a list of attribute samples.
pub open spec fn indices(v: Seq<AttributeSamples>) -> Seq<Index> {
    Seq::new(v.len(), |i: int| v[i]@)
}

impl AttributeSamples {
    /// The empty index for an attribute of the given type.
    pub fn from_attr(attr: &Attribute) -> (samples: AttributeSamples)
        ensures
            samples@ == empty_index(attr@.kind),
    {
        match &attr.att_type {
            AttributeType::Numeric => AttributeSamples::Numeric(Vec::new()),
            AttributeType::Text(tokens) => {
                let mut list: Vec<Population> = Vec::with_capacity(tokens.len());
                for i in 0..tokens.len()
                    invariant
                        memberships(list@) == Seq::new(i as nat, |k: int| Seq::<usize>::empty()),
                {
                    let ghost was = memberships(list@);
                    list.push(Population(Vec::new()));
                    proof {
                        assert(memberships(list@) =~= was.push(Seq::<usize>::empty()));
                        assert(was.push(Seq::<usize>::empty()) =~= Seq::new(
                            (i + 1) as nat,
                            |k: int| Seq::<usize>::empty(),
                        ));
                    }
                }
                proof {
                    assert(texts(tokens@).len() == tokens.len());
                }
                AttributeSamples::Text(list)
            },
            _ => AttributeSamples::BadType,
        }
    }
}

/// The index of an attribute of the given kind before any record is entered.
pub open spec fn empty_index(kind: Kind) -> Index {
    match kind {
        Kind::Numeric => Index::Numeric(Seq::empty()),
        Kind::Text(tokens) => Index::Text(Seq::new(tokens.len(), |k: int| Seq::<usize>::empty())),
        _ => Index::BadType,
    }
}

/// What one cell of a record holds.
pub enum Cell {
    /// A number.
    Numeric(NumberView),
    /// The position of a token among those of a categorical attribute.
    Text(usize),
    /// A free text.
    String(Seq<char>),
    /// No value.
    Missing,
}

/// One value of a record.
#[derive(Debug)]
pub enum Value {
    Numeric(Number),
    Text(usize),
    String(String),
    Missing,
}

impl View for Value {
    type V = Cell;

    open spec fn view(&self) -> Cell {
        match self {
            Value::Numeric(n) => Cell::Numeric(n@),
            Value::Text(i) => Cell::Text(*i),
            Value::String(s) => Cell::String(s@),
            Value::Missing => Cell::Missing,
        }
    }
}

/// The cells held by a list of values.
pub open spec fn cells(v: Seq<Value>) -> Seq<Cell> {
    Seq::new(v.len(), |i: int| v[i]@)
}

impl Value {
    /// The bit pattern of a number; `None` for any other value.
    pub fn num(&self) -> (r: Option<u32>)
        ensures
            r == match self@ {
                Cell::Numeric(n) => Some(n.bits),
                _ => None,
            },
    {
        match self {
            Value::Numeric(n) => Some(n.bits),
            _ => None,
        }
    }

    /// The token position of a categorical value; `None` for any other value.
    pub fn text(&self) -> (r: Option<usize>)
        ensures
            r == match self@ {
                Cell::Text(i) => Some(i),
                _ => None,
            },
    {
        match self {
            Value::Text(i) => Some(*i),
            _ => None,
        }
    }

    /// The text of a free-text value; `None` for any other value.
    pub fn string(&self) -> (r: Option<&str>)
        ensures
            match r {
                Some(s) => self@ == Cell::String(s@),
                None => !(self@ is String),
            },
    {
        match self {
            Value::String(s) => Some(s.as_str()),
            _ => None,
        }
    }
}

/// One record: a value for every attribute, in the order of the schema.
#[derive(Debug)]
pub struct Instance {
    pub values: Vec<Value>,
}

impl View for Instance {
    type V = Seq<Cell>;

    open spec fn view(&self) -> Seq<Cell> {
        cells(self.values@)
    }
}

/// The rows held by a list of records.
pub open spec fn rows(v: Seq<Instance>) -> Seq<Seq<Cell>> {
    Seq::new(v.len(), |i: int| v[i]@)
}

/// What an attribute type stands for.
pub enum Kind {
    /// Numbers.
    Numeric,
    /// One of the listed tokens; their order gives each its position.
    Text(Seq<Seq<char>>),
    /// Free text.
    String,
    /// No kind at all. No declaration names it; a column of it holds no
    /// value.
    Unknown,
}

/// The type of an attribute.
#[derive(Debug)]
pub enum AttributeType {
    Numeric,
    Text(Vec<String>),
    String,
    Unknown,
}

impl View for AttributeType {
    type V = Kind;

    open spec fn view(&self) -> Kind {
        match self {
            AttributeType::Numeric => Kind::Numeric,
            AttributeType::Text(tokens) => Kind::Text(texts(tokens@)),
            AttributeType::String => Kind::String,
            AttributeType::Unknown => Kind::Unknown,
        }
    }
}

/// The kind that a type declaration names, or `None` where the declaration
/// is malformed. `numeric` and `string` name themselves; any other
/// declaration has to list its tokens between an opening and a closing
/// brace, separated by commas.
pub open spec fn declared_kind(s: Seq<char>) -> Option<Kind> {
    if s == "numeric"@ {
        Some(Kind::Numeric)
    } else if s == "string"@ {
        Some(Kind::String)
    } else if s.len() < 2 || s.first() != '{' || s.last() != '}' {
        None
    } else {
        Some(Kind::Text(crate::text::split(s.subrange(1, s.len() - 1), ',')))
    }
}

/// A declaration names numbers, free text or a list of tokens, and nothing
/// else.
pub proof fn lemma_declared_kinds(s: Seq<char>)
    ensures
        declared_kind(s) matches Some(kind) ==> kind is Numeric || kind is String || kind is Text,
{
}

impl AttributeType {
    /// Reads the type of an attribute from its declaration.
    pub fn parse(s: &str) -> (r: Option<AttributeType>)
        ensures
            match r {
                Some(t) => declared_kind(s@) == Some(t@),
                None => declared_kind(s@) is None,
            },
    {
        if same_text(s, "numeric") {
            return Some(AttributeType::Numeric);
        }
        if same_text(s, "string") {
            return Some(AttributeType::String);
        }
        let count = s.unicode_len();
        if count < 2 || s.get_char(0) != '{' || s.get_char(count - 1) != '}' {
            return None;
        }
        let inner = s.substring_char(1, count - 1);
        Some(AttributeType::Text(crate::text::split_on(inner, ',')))
    }

    /// The tokens of a categorical type; `None` for any other type.
    pub fn tokens(&self) -> (r: Option<&[String]>)
        ensures
            match r {
                Some(tokens) => self@ == Kind::Text(texts(tokens@)),
                None => !(self@ is Text),
            },
    {
        match self {
            AttributeType::Text(tokens) => Some(tokens.as_slice()),
            _ => None,
        }
    }
}

/// What an attribute declares.
pub struct Column {
    pub name: Seq<char>,
    pub kind: Kind,
}

/// One attribute of the schema.
#[derive(Debug)]
pub struct Attribute {
    pub name: String,
    pub att_type: AttributeType,
}

impl View for Attribute {
    type V = Column;

    open spec fn view(&self) -> Column {
        Column { name: self.name@, kind: self.att_type@ }
    }
}

/// The columns declared by a list of attributes.
pub open spec fn columns(v: Seq<Attribute>) -> Seq<Column> {
    Seq::new(v.len(), |i: int| v[i]@)
}

/// Whether `i` is the first place at which `token` stands in `tokens`.
pub open spec fn is_position(tokens: Seq<Seq<char>>, token: Seq<char>, i: int) -> bool {
    &&& 0 <= i < tokens.len()
    &&& tokens[i] == token
    &&& forall|j: int| 0 <= j < i ==> tokens[j] != token
}

/// The first place at which `token` stands in `tokens`.
pub open spec fn position(tokens: Seq<Seq<char>>, token: Seq<char>) -> Option<int> {
    if exists|i: int| is_position(tokens, token, i) {
        Some(choose|i: int| is_position(tokens, token, i))
    } else {
        None
    }
}

/// A token has at most one first place.
pub proof fn lemma_position_unique(tokens: Seq<Seq<char>>, token: Seq<char>, i: int)
    requires
        is_position(tokens, token, i),
    ensures
        position(tokens, token) == Some(i),
{
    let j = choose|j: int| is_position(tokens, token, j);
    assert(is_position(tokens, token, j));
    if j < i {
        assert(tokens[j] != token);
    }
    if i < j {
        assert(tokens[i] != token);
    }
}

/// Finds the first place at which `token` stands in `tokens`.
pub fn find_token(tokens: &[String], token: &str) -> (r: Option<usize>)
    ensures
        match r {
            Some(i) => position(texts(tokens@), token@) == Some(i as int),
            None => position(texts(tokens@), token@) is None,
        },
{
    let mut i: usize = 0;
    while i < tokens.len()
        invariant
            i <= tokens.len(),
            forall|j: int| 0 <= j < i ==> texts(tokens@)[j] != token@,
        decreases tokens.len() - i,
    {
        if same_text(tokens[i].as_str(), token) {
            proof {
                lemma_position_unique(texts(tokens@), token@, i as int);
            }
            return Some(i);
        }
        i += 1;
    }
    proof {
        assert forall|k: int| !is_position(texts(tokens@), token@, k) by {}
    }
    None
}

/// What a loaded dataset holds.
pub struct Dataset {
    pub filename: Seq<char>,
    pub title: Seq<char>,
    pub columns: Seq<Column>,
    pub rows: Seq<Seq<Cell>>,
    pub indices: Seq<Index>,
}

impl Dataset {
    /// The invariant of a loaded dataset: the rows fit the schema, and every
    /// column has its finished index.
    pub open spec fn wf(self) -> bool {
        &&& rows_fit(self.columns, self.rows)
        &&& self.indices.len() == self.columns.len()
        &&& forall|a: int|
            0 <= a < self.columns.len() ==> index_fits(
                self.columns[a].kind,
                self.rows,
                a,
                #[trigger] self.indices[a],
            )
    }
}

/// A dataset in memory: the schema, the records, and one index for every
/// attribute.
#[derive(Debug)]
pub struct ArffContent {
    pub(crate) filename: String,
    pub(crate) title: String,
    /// The records, in the order in which they were read.
    pub(crate) data: Vec<Instance>,
    /// The attributes that the header declares.
    pub(crate) attributes: Vec<Attribute>,
    /// The index of every attribute.
    pub(crate) samples: Vec<AttributeSamples>,
}

impl View for ArffContent {
    type V = Dataset;

    open(crate) spec fn view(&self) -> Dataset {
        Dataset {
            filename: self.filename@,
            title: self.title@,
            columns: columns(self.attributes@),
            rows: rows(self.data@),
            indices: indices(self.samples@),
        }
    }
}

/// How a cell of a column of the given kind is displayed.
pub open spec fn rendering(kind: Kind, cell: Cell) -> Seq<char> {
    match cell {
        Cell::Numeric(n) => n.text,
        Cell::Text(i) => kind->Text_0[i as int],
        Cell::String(s) => s,
        Cell::Missing => seq!['?'],
    }
}

/// The first `m` cells of a row as displayed, each followed by a comma.
pub open spec fn joined(columns: Seq<Column>, row: Seq<Cell>, m: nat) -> Seq<char>
    decreases m,
{
    if m == 0 {
        Seq::empty()
    } else {
        joined(columns, row, (m - 1) as nat) + rendering(columns[m - 1].kind, row[m - 1]).push(',')
    }
}

/// Whether a cell names its record: the column is the identifier column,
/// and the cell holds a free text.
pub open spec fn names_record(column: Column, cell: Cell) -> bool {
    column.name == "id.ignore"@ && cell is String
}

/// The first of the first `m` cells that names the record.
pub open spec fn naming_place(columns: Seq<Column>, row: Seq<Cell>, m: nat) -> Option<int>
    decreases m,
{
    if m == 0 {
        None
    } else {
        match naming_place(columns, row, (m - 1) as nat) {
            Some(j) => Some(j),
            None => if names_record(columns[m - 1], row[m - 1]) {
                Some(m - 1)
            } else {
                None
            },
        }
    }
}

/// The line that describes a record: the text that names it, where a cell
/// does so, and every cell as displayed otherwise.
pub open spec fn description(columns: Seq<Column>, row: Seq<Cell>) -> Seq<char> {
    match naming_place(columns, row, columns.len()) {
        Some(j) => row[j]->String_0,
        None => joined(columns, row, columns.len()),
    }
}

proof fn lemma_naming_place_stays(columns: Seq<Column>, row: Seq<Cell>, m: nat, n: nat)
    requires
        m <= n,
        naming_place(columns, row, m) is Some,
    ensures
        naming_place(columns, row, n) == naming_place(columns, row, m),
    decreases n - m,
{
    if m < n {
        lemma_naming_place_stays(columns, row, m, (n - 1) as nat);
    }
}

impl ArffContent {
    /// The position of token `class` among the tokens of an attribute;
    /// `None` where the attribute is not categorical or has no such token.
    pub fn get_class_id(&self, attribute: usize, class: &str) -> (r: Option<usize>)
        requires
            attribute < self@.columns.len(),
        ensures
            match self@.columns[attribute as int].kind {
                Kind::Text(tokens) => match r {
                    Some(i) => position(tokens, class@) == Some(i as int),
                    None => position(tokens, class@) is None,
                },
                _ => r is None,
            },
    {
        match self.attributes[attribute].att_type.tokens() {
            Some(tokens) => find_token(tokens, class),
            None => None,
        }
    }

    /// Describes one record by a line: the text of its identifier where it
    /// has one, and otherwise every value, each followed by a comma.
    pub fn describe_sample(&self, sample_id: usize) -> (line: String)
        requires
            sample_id < self@.rows.len(),
        ensures
            line@ == description(self@.columns, self@.rows[sample_id as int]),
    {
        proof {
            use_type_invariant(self);
        }
        let mut line = String::new();
        let ghost cols = self@.columns;
        let ghost row = self@.rows[sample_id as int];
        let values = &self.data[sample_id].values;
        proof {
            assert(row.len() == cols.len());
        }
        for j in 0..self.attributes.len()
            invariant
                cols == self@.columns,
                row == self@.rows[sample_id as int],
                row == cells(values@),
                row.len() == cols.len(),
                self@.wf(),
                sample_id < self.data.len(),
                naming_place(cols, row, j as nat) is None,
                line@ == joined(cols, row, j as nat),
        {
            let attr = &self.attributes[j];
            let value = &values[j];
            proof {
                assert(cols[j as int] == attr@);
                assert(row[j as int] == value@);
                assert(cell_fits(cols[j as int].kind, self@.rows[sample_id as int][j as int]));
            }
            if same_text(attr.name.as_str(), "id.ignore") {
                if let Some(s) = value.string() {
                    proof {
                        lemma_naming_place_stays(cols, row, (j + 1) as nat, cols.len());
                    }
                    return String::from_str(s);
                }
            }
            let ghost was = line@;
            match value {
                Value::Numeric(n) => line.append(n.text.as_str()),
                Value::Text(i) => {
                    let tokens = attr.att_type.tokens();
                    match tokens {
                        Some(tokens) => line.append(tokens[*i].as_str()),
                        None => {},
                    }
                },
                Value::String(s) => line.append(s.as_str()),
                Value::Missing => {
                    proof {
                        reveal_strlit("?");
                    }
                    line.append("?");
                    proof {
                        assert("?"@ =~= seq!['?']);
                    }
                },
            }
            proof {
                reveal_strlit(",");
                assert(line@ == was + rendering(cols[j as int].kind, row[j as int]));
            }
            line.append(",");
            proof {
                assert(","@ =~= seq![',']);
                assert(line@ =~= was + rendering(cols[j as int].kind, row[j as int]).push(','));
            }
        }
        line
    }

    /// Every dataset is well formed.
    #[verifier::type_invariant]
    pub open(crate) spec fn inv(&self) -> bool {
        self@.wf()
    }

    /// The name of the file that the dataset was read from.
    pub fn filename(&self) -> (r: &String)
        ensures
            r@ == self@.filename,
    {
        &self.filename
    }

    /// The title of the dataset.
    pub fn title(&self) -> (r: &String)
        ensures
            r@ == self@.title,
    {
        &self.title
    }

    /// The records, in the order in which they were read.
    pub fn data(&self) -> (r: &Vec<Instance>)
        ensures
            rows(r@) == self@.rows,
    {
        &self.data
    }

    /// The attributes that the header declares.
    pub fn attributes(&self) -> (r: &Vec<Attribute>)
        ensures
            columns(r@) == self@.columns,
    {
        &self.attributes
    }

    /// The index of every attribute.
    pub fn samples(&self) -> (r: &Vec<AttributeSamples>)
        ensures
            indices(r@) == self@.indices,
    {
        &self.samples
    }
}

} // verus!
