//! The index of every attribute: the samples of a numeric attribute in the
//! order of their values, and a population for every token of a categorical
//! attribute.

use crate::arff::{
    columns, empty_index, indices, memberships, rows, Attribute, AttributeSamples, Cell, Column,
    Dataset, Index, Instance, Kind, Value,
};
use crate::number::order_key;
use crate::sort::{ordered, sort_samples};
use vstd::prelude::*;

verus! {

/// The samples of column `a` in the order of the records: the bit pattern
/// of every number found there, with the id of its record.
pub open spec fn numeric_entries(rows: Seq<Seq<Cell>>, a: int) -> Seq<(u32, usize)>
    decreases rows.len(),
{
    if rows.len() == 0 {
        Seq::empty()
    } else {
        let before = numeric_entries(rows.drop_last(), a);
        match rows.last()[a] {
            Cell::Numeric(n) => before.push((n.bits, (rows.len() - 1) as usize)),
            _ => before,
        }
    }
}

/// The ids of the records whose cell in column `a` holds token `k`,
/// ascending.
pub open spec fn category_members(rows: Seq<Seq<Cell>>, a: int, k: int) -> Seq<usize>
    decreases rows.len(),
{
    if rows.len() == 0 {
        Seq::empty()
    } else {
        let before = category_members(rows.drop_last(), a, k);
        match rows.last()[a] {
            Cell::Text(i) if i == k => before.push((rows.len() - 1) as usize),
            _ => before,
        }
    }
}

/// How many records hold a value in column `a`.
pub open spec fn present_count(rows: Seq<Seq<Cell>>, a: int) -> nat
    decreases rows.len(),
{
    if rows.len() == 0 {
        0
    } else {
        present_count(rows.drop_last(), a) + if rows.last()[a] is Missing {
            0nat
        } else {
            1nat
        }
    }
}

/// What the scan of the records enters into the index of column `a`.
pub open spec fn scanned_index(kind: Kind, rows: Seq<Seq<Cell>>, a: int) -> Index {
    match kind {
        Kind::Numeric => Index::Numeric(numeric_entries(rows, a)),
        Kind::Text(tokens) => Index::Text(
            Seq::new(tokens.len(), |k: int| category_members(rows, a, k)),
        ),
        _ => Index::BadType,
    }
}

/// Whether a cell may stand in a column of the given kind.
pub open spec fn cell_fits(kind: Kind, cell: Cell) -> bool {
    match cell {
        Cell::Missing => true,
        Cell::Numeric(_) => kind is Numeric,
        Cell::Text(i) => kind matches Kind::Text(tokens) && i < tokens.len(),
        Cell::String(_) => kind is String,
    }
}

/// Whether every row has a cell for every column, of the column's kind.
pub open spec fn rows_fit(columns: Seq<Column>, rows: Seq<Seq<Cell>>) -> bool {
    forall|r: int|
        0 <= r < rows.len() ==> {
            &&& (#[trigger] rows[r]).len() == columns.len()
            &&& forall|a: int| 0 <= a < columns.len() ==> cell_fits(columns[a].kind, #[trigger] rows[r][a])
        }
}

/// Whether `index` is the finished index of column `a`: what the scan
/// enters, the samples of a numeric column ordered by value, those of the
/// same value by record id.
pub open spec fn index_fits(kind: Kind, rows: Seq<Seq<Cell>>, a: int, index: Index) -> bool {
    match kind {
        Kind::Numeric => {
            &&& index matches Index::Numeric(list)
            &&& ordered(list)
            &&& list.to_multiset() == numeric_entries(rows, a).to_multiset()
        },
        _ => index == scanned_index(kind, rows, a),
    }
}

/// The index after the cell of record `id` is entered into it.
pub open spec fn entered(index: Index, cell: Cell, id: usize) -> Index {
    match index {
        Index::Numeric(list) => match cell {
            Cell::Numeric(n) => Index::Numeric(list.push((n.bits, id))),
            _ => index,
        },
        Index::Text(members) => match cell {
            Cell::Text(i) if i < members.len() => Index::Text(
                members.update(i as int, members[i as int].push(id)),
            ),
            _ => index,
        },
        Index::BadType => index,
    }
}

/// Before any record is scanned the index is empty.
pub proof fn lemma_scan_of_nothing(kind: Kind, rows: Seq<Seq<Cell>>, a: int)
    requires
        rows.len() == 0,
    ensures
        scanned_index(kind, rows, a) == empty_index(kind),
{
    match kind {
        Kind::Text(tokens) => {
            assert(Seq::new(tokens.len(), |k: int| category_members(rows, a, k)) =~= Seq::new(
                tokens.len(),
                |k: int| Seq::<usize>::empty(),
            ));
        },
        _ => {},
    }
}

/// Scanning one record more enters its cell into the index.
pub proof fn lemma_scan_enters(kind: Kind, rows: Seq<Seq<Cell>>, a: int, r: int)
    requires
        0 <= r < rows.len(),
        r <= usize::MAX,
        cell_fits(kind, rows[r][a]),
    ensures
        scanned_index(kind, rows.take(r + 1), a) == entered(
            scanned_index(kind, rows.take(r), a),
            rows[r][a],
            r as usize,
        ),
{
    let longer = rows.take(r + 1);
    assert(longer.drop_last() =~= rows.take(r));
    assert(longer.last() == rows[r]);
    match kind {
        Kind::Text(tokens) => {
            let was = Seq::new(tokens.len(), |k: int| category_members(rows.take(r), a, k));
            let now = Seq::new(tokens.len(), |k: int| category_members(longer, a, k));
            match rows[r][a] {
                Cell::Text(i) => {
                    assert(now =~= was.update(i as int, was[i as int].push(r as usize)));
                },
                _ => {
                    assert(now =~= was);
                },
            }
        },
        _ => {},
    }
}

/// Enters the value that record `id` holds for attribute `a` into the index
/// of that attribute.
fn enter(samples: &mut Vec<AttributeSamples>, a: usize, value: &Value, id: usize)
    requires
        a < old(samples).len(),
        old(samples)[a as int]@ matches Index::Text(members) ==> (value@ matches Cell::Text(i)
            ==> i < members.len()),
    ensures
        final(samples).len() == old(samples).len(),
        forall|b: int|
            0 <= b < old(samples).len() && b != a ==> final(samples)[b] == old(samples)[b],
        final(samples)[a as int]@ == entered(old(samples)[a as int]@, value@, id),
{
    match &mut samples[a] {
        AttributeSamples::Numeric(list) => match value.num() {
            Some(f) => list.push((f, id)),
            None => (),
        },
        AttributeSamples::Text(list) => match value.text() {
            Some(i) => {
                let ghost was = memberships(list@);
                list[i].0.push(id);
                proof {
                    assert(memberships(list@) =~= was.update(i as int, was[i as int].push(id)));
                }
            },
            None => (),
        },
        AttributeSamples::BadType => (),
    }
}

/// What the scan of a column finds: every sample names a record that holds
/// that number in the column, the ids ascend, and there are as many samples
/// as records with a value.
pub proof fn lemma_numeric_entries(rows: Seq<Seq<Cell>>, a: int)
    requires
        forall|r: int| 0 <= r < rows.len() ==> cell_fits(Kind::Numeric, #[trigger] rows[r][a]),
        rows.len() <= usize::MAX,
    ensures
        numeric_entries(rows, a).len() == present_count(rows, a),
        forall|i: int|
            0 <= i < numeric_entries(rows, a).len() ==> {
                let e = #[trigger] numeric_entries(rows, a)[i];
                e.1 < rows.len() && (rows[e.1 as int][a] matches Cell::Numeric(n) && n.bits == e.0)
            },
        forall|i: int, j: int|
            0 <= i < j < numeric_entries(rows, a).len() ==> (#[trigger] numeric_entries(
                rows,
                a,
            )[i]).1 < (#[trigger] numeric_entries(rows, a)[j]).1,
    decreases rows.len(),
{
    if rows.len() > 0 {
        let shorter = rows.drop_last();
        assert forall|r: int| 0 <= r < shorter.len() implies cell_fits(
            Kind::Numeric,
            #[trigger] shorter[r][a],
        ) by {
            assert(shorter[r] == rows[r]);
        }
        lemma_numeric_entries(shorter, a);
        let before = numeric_entries(shorter, a);
        assert forall|i: int| 0 <= i < before.len() implies {
            let e = #[trigger] before[i];
            e.1 < rows.len() && (rows[e.1 as int][a] matches Cell::Numeric(n) && n.bits == e.0)
        } by {
            let e = before[i];
            assert(shorter[e.1 as int] == rows[e.1 as int]);
        }
        assert(cell_fits(Kind::Numeric, rows[rows.len() - 1][a]));
    }
}

/// What the scan of a column finds for one token: the ids, ascending, of
/// exactly the records that hold the token.
pub proof fn lemma_category_members(rows: Seq<Seq<Cell>>, a: int, k: int)
    requires
        rows.len() <= usize::MAX,
    ensures
        forall|i: int|
            0 <= i < category_members(rows, a, k).len() ==> {
                let id = #[trigger] category_members(rows, a, k)[i];
                id < rows.len() && (rows[id as int][a] matches Cell::Text(t) && t == k)
            },
        forall|i: int, j: int|
            0 <= i < j < category_members(rows, a, k).len() ==> #[trigger] category_members(
                rows,
                a,
                k,
            )[i] < #[trigger] category_members(rows, a, k)[j],
        forall|r: int|
            0 <= r < rows.len() && (#[trigger] rows[r][a] matches Cell::Text(t) && t == k)
                ==> category_members(rows, a, k).contains(r as usize),
    decreases rows.len(),
{
    if rows.len() > 0 {
        let shorter = rows.drop_last();
        lemma_category_members(shorter, a, k);
        let before = category_members(shorter, a, k);
        let now = category_members(rows, a, k);
        assert forall|i: int| 0 <= i < before.len() implies {
            let id = #[trigger] before[i];
            id < rows.len() && (rows[id as int][a] matches Cell::Text(t) && t == k)
        } by {
            let id = before[i];
            assert(shorter[id as int] == rows[id as int]);
        }
        assert forall|r: int|
            0 <= r < rows.len() && (#[trigger] rows[r][a] matches Cell::Text(t)
                && t == k) implies now.contains(r as usize) by {
            if r < shorter.len() {
                assert(shorter[r] == rows[r]);
                assert(before.contains(r as usize));
                let i = choose|i: int| 0 <= i < before.len() && before[i] == r as usize;
                assert(now[i] == r as usize);
            } else {
                assert(now[now.len() - 1] == r as usize);
            }
        }
    }
}

impl Dataset {
    /// The index of a numeric attribute holds one sample for every record
    /// that has a value for the attribute, and from each sample to the next
    /// the values do not descend. Samples of the same value stand in the
    /// order of their records.
    pub proof fn lemma_numeric_index_complete_and_ordered(self, a: int)
        requires
            self.wf(),
            0 <= a < self.columns.len(),
            self.columns[a].kind is Numeric,
            self.rows.len() <= usize::MAX,
        ensures
            self.indices[a] is Numeric,
            self.indices[a]->Numeric_0.len() == present_count(self.rows, a),
            forall|i: int|
                0 <= i && i + 1 < self.indices[a]->Numeric_0.len() ==> order_key(
                    (#[trigger] self.indices[a]->Numeric_0[i]).0,
                ) <= order_key(self.indices[a]->Numeric_0[i + 1].0),
            forall|i: int, j: int|
                0 <= i < j < self.indices[a]->Numeric_0.len() && order_key(
                    (#[trigger] self.indices[a]->Numeric_0[i]).0,
                ) == order_key((#[trigger] self.indices[a]->Numeric_0[j]).0)
                    ==> self.indices[a]->Numeric_0[i].1 < self.indices[a]->Numeric_0[j].1,
    {
        broadcast use vstd::seq_lib::group_to_multiset_ensures;

        self.lemma_numeric_index_distinct(a);
        let list = self.indices[a]->Numeric_0;
        assert forall|i: int, j: int|
            0 <= i < j < list.len() && order_key((#[trigger] list[i]).0) == order_key(
                (#[trigger] list[j]).0,
            ) implies list[i].1 < list[j].1 by {
            assert(crate::sort::precedes(list[i], list[j]));
        }
        assert(index_fits(self.columns[a].kind, self.rows, a, self.indices[a]));
        assert forall|r: int| 0 <= r < self.rows.len() implies cell_fits(
            Kind::Numeric,
            #[trigger] self.rows[r][a],
        ) by {
            assert(self.rows[r].len() == self.columns.len());
        }
        lemma_numeric_entries(self.rows, a);
        assert(list.to_multiset().len() == list.len());
        assert(numeric_entries(self.rows, a).to_multiset().len() == numeric_entries(
            self.rows,
            a,
        ).len());
        assert forall|i: int| 0 <= i && i + 1 < list.len() implies order_key(
            (#[trigger] list[i]).0,
        ) <= order_key(list[i + 1].0) by {
            assert(crate::sort::precedes(list[i], list[i + 1]));
        }
    }

    /// No two samples of a numeric index come from the same record.
    pub proof fn lemma_numeric_index_distinct(self, a: int)
        requires
            self.wf(),
            0 <= a < self.columns.len(),
            self.columns[a].kind is Numeric,
            self.rows.len() <= usize::MAX,
        ensures
            forall|i: int, j: int|
                0 <= i < j < self.indices[a]->Numeric_0.len() ==> (
                #[trigger] self.indices[a]->Numeric_0[i]).1 != (
                #[trigger] self.indices[a]->Numeric_0[j]).1,
    {
        broadcast use vstd::seq_lib::group_to_multiset_ensures;

        let list = self.indices[a]->Numeric_0;
        let found = numeric_entries(self.rows, a);
        assert(index_fits(self.columns[a].kind, self.rows, a, self.indices[a]));
        assert forall|r: int| 0 <= r < self.rows.len() implies cell_fits(
            Kind::Numeric,
            #[trigger] self.rows[r][a],
        ) by {
            assert(self.rows[r].len() == self.columns.len());
        }
        lemma_numeric_entries(self.rows, a);
        assert(found.no_duplicates()) by {
            assert forall|p: int, q: int|
                0 <= p < found.len() && 0 <= q < found.len() && p != q implies found[p]
                != found[q] by {
                if p < q {
                    assert(found[p].1 < found[q].1);
                } else {
                    assert(found[q].1 < found[p].1);
                }
            }
        }
        found.lemma_multiset_has_no_duplicates();
        list.lemma_multiset_has_no_duplicates_conv();
        assert forall|i: int, j: int| 0 <= i < j < list.len() implies (#[trigger] list[i]).1 != (
        #[trigger] list[j]).1 by {
            assert(list.contains(list[i]));
            assert(list.contains(list[j]));
            assert(list.to_multiset().count(list[i]) > 0);
            assert(list.to_multiset().count(list[j]) > 0);
            assert(found.contains(list[i]));
            assert(found.contains(list[j]));
            let p = choose|p: int| 0 <= p < found.len() && found[p] == list[i];
            let q = choose|q: int| 0 <= q < found.len() && found[q] == list[j];
            if p < q {
                assert(found[p].1 < found[q].1);
            } else if q < p {
                assert(found[q].1 < found[p].1);
            } else {
                assert(list[i] == list[j]);
            }
        }
    }

    /// Every sample of a numeric index names a record of the dataset that
    /// holds the sample's number for the attribute.
    pub proof fn lemma_numeric_index_sound(self, a: int, i: int)
        requires
            self.wf(),
            0 <= a < self.columns.len(),
            self.columns[a].kind is Numeric,
            self.rows.len() <= usize::MAX,
            0 <= i < self.indices[a]->Numeric_0.len(),
        ensures
            self.indices[a]->Numeric_0[i].1 < self.rows.len(),
            self.rows[self.indices[a]->Numeric_0[i].1 as int][a] matches Cell::Numeric(n) && n.bits
                == self.indices[a]->Numeric_0[i].0,
    {
        broadcast use vstd::seq_lib::group_to_multiset_ensures;

        let list = self.indices[a]->Numeric_0;
        let found = numeric_entries(self.rows, a);
        assert(index_fits(self.columns[a].kind, self.rows, a, self.indices[a]));
        assert forall|r: int| 0 <= r < self.rows.len() implies cell_fits(
            Kind::Numeric,
            #[trigger] self.rows[r][a],
        ) by {
            assert(self.rows[r].len() == self.columns.len());
        }
        lemma_numeric_entries(self.rows, a);
        assert(list.contains(list[i]));
        assert(list.to_multiset().count(list[i]) > 0);
        assert(found.contains(list[i]));
        let j = choose|j: int| 0 <= j < found.len() && found[j] == list[i];
        assert(found[j] == list[i]);
    }

    /// The populations of a categorical attribute, one for every token,
    /// have no record in common, and together they hold exactly the records
    /// that have a value for the attribute. No population holds a record
    /// twice.
    pub proof fn lemma_categorical_partition(self, a: int)
        requires
            self.wf(),
            0 <= a < self.columns.len(),
            self.columns[a].kind is Text,
            self.rows.len() <= usize::MAX,
        ensures
            self.indices[a] is Text,
            self.indices[a]->Text_0.len() == self.columns[a].kind->Text_0.len(),
            forall|k: int, l: int, id: usize|
                0 <= k < l < self.indices[a]->Text_0.len() ==> !(#[trigger] self.indices[a]->Text_0[k].contains(
                    id,
                ) && #[trigger] self.indices[a]->Text_0[l].contains(id)),
            forall|id: usize|
                (exists|k: int|
                    0 <= k < self.indices[a]->Text_0.len() && (#[trigger] self.indices[a]->Text_0[k]).contains(
                        id,
                    )) <==> (id < self.rows.len() && !(self.rows[id as int][a] is Missing)),
            forall|k: int|
                0 <= k < self.indices[a]->Text_0.len() ==> (#[trigger] self.indices[a]->Text_0[k]).no_duplicates(),
    {
        let kind = self.columns[a].kind;
        let members = self.indices[a]->Text_0;
        assert(index_fits(kind, self.rows, a, self.indices[a]));
        assert forall|k: int| 0 <= k < members.len() implies members[k] == category_members(
            self.rows,
            a,
            k,
        ) by {}
        assert forall|k: int, l: int, id: usize| 0 <= k < l < members.len() implies !(
        #[trigger] members[k].contains(id) && #[trigger] members[l].contains(id)) by {
            lemma_category_members(self.rows, a, k);
            lemma_category_members(self.rows, a, l);
            if members[k].contains(id) && members[l].contains(id) {
                let i = choose|i: int| 0 <= i < members[k].len() && members[k][i] == id;
                let j = choose|j: int| 0 <= j < members[l].len() && members[l][j] == id;
                assert(category_members(self.rows, a, k)[i] == id);
                assert(category_members(self.rows, a, l)[j] == id);
            }
        }
        assert forall|id: usize|
            (exists|k: int| 0 <= k < members.len() && (#[trigger] members[k]).contains(id)) <==> (id
                < self.rows.len() && !(self.rows[id as int][a] is Missing)) by {
            if exists|k: int| 0 <= k < members.len() && (#[trigger] members[k]).contains(id) {
                let k = choose|k: int| 0 <= k < members.len() && (#[trigger] members[k]).contains(id);
                lemma_category_members(self.rows, a, k);
                let i = choose|i: int| 0 <= i < members[k].len() && members[k][i] == id;
                assert(category_members(self.rows, a, k)[i] == id);
            }
            if id < self.rows.len() && !(self.rows[id as int][a] is Missing) {
                assert(self.rows[id as int].len() == self.columns.len());
                assert(cell_fits(kind, self.rows[id as int][a]));
                let k = self.rows[id as int][a]->Text_0 as int;
                lemma_category_members(self.rows, a, k);
                assert(members[k].contains(id));
            }
        }
        assert forall|k: int| 0 <= k < members.len() implies (#[trigger] members[k]).no_duplicates() by {
            lemma_category_members(self.rows, a, k);
        }
    }
}

/// The empty index of every attribute.
fn empty_samples(attributes: &Vec<Attribute>) -> (samples: Vec<AttributeSamples>)
    ensures
        samples.len() == attributes.len(),
        forall|a: int|
            0 <= a < attributes.len() ==> #[trigger] indices(samples@)[a] == empty_index(
                columns(attributes@)[a].kind,
            ),
{
    let mut samples: Vec<AttributeSamples> = Vec::new();
    for i in 0..attributes.len()
        invariant
            samples.len() == i,
            forall|a: int|
                0 <= a < i ==> #[trigger] indices(samples@)[a] == empty_index(
                    columns(attributes@)[a].kind,
                ),
    {
        let ghost was = indices(samples@);
        let made = AttributeSamples::from_attr(&attributes[i]);
        samples.push(made);
        proof {
            assert(indices(samples@) =~= was.push(made@));
            assert forall|a: int| 0 <= a < i + 1 implies #[trigger] indices(samples@)[a]
                == empty_index(columns(attributes@)[a].kind) by {
                if a < i {
                    assert(indices(samples@)[a] == was[a]);
                }
            }
        }
    }
    samples
}

/// Builds the index of every attribute from the records: one scan that
/// enters every value, then the samples of each numeric attribute are put
/// in order.
pub(crate) fn make_samples(attributes: &Vec<Attribute>, data: &Vec<Instance>) -> (samples: Vec<
    AttributeSamples,
>)
    requires
        rows_fit(columns(attributes@), rows(data@)),
    ensures
        samples.len() == attributes.len(),
        forall|a: int|
            0 <= a < attributes.len() ==> index_fits(
                columns(attributes@)[a].kind,
                rows(data@),
                a,
                #[trigger] indices(samples@)[a],
            ),
{
    let ghost cols = columns(attributes@);
    let ghost table = rows(data@);
    let mut samples = empty_samples(attributes);
    let count = data.len();
    let width = attributes.len();
    let mut id: usize = 0;
    proof {
        assert forall|a: int| 0 <= a < width implies #[trigger] indices(samples@)[a]
            == scanned_index(cols[a].kind, table.take(0), a) by {
            lemma_scan_of_nothing(cols[a].kind, table.take(0), a);
        }
    }
    while id < count
        invariant
            id <= count,
            count == data.len(),
            width == attributes.len(),
            samples.len() == width,
            cols == columns(attributes@),
            table == rows(data@),
            rows_fit(cols, table),
            forall|a: int|
                0 <= a < width ==> #[trigger] indices(samples@)[a] == scanned_index(
                    cols[a].kind,
                    table.take(id as int),
                    a,
                ),
        decreases count - id,
    {
        let mut a: usize = 0;
        while a < width
            invariant
                a <= width,
                id < count,
                count == data.len(),
                width == attributes.len(),
                samples.len() == width,
                cols == columns(attributes@),
                table == rows(data@),
                rows_fit(cols, table),
                forall|b: int|
                    0 <= b < a ==> #[trigger] indices(samples@)[b] == scanned_index(
                        cols[b].kind,
                        table.take(id + 1),
                        b,
                    ),
                forall|b: int|
                    a <= b < width ==> #[trigger] indices(samples@)[b] == scanned_index(
                        cols[b].kind,
                        table.take(id as int),
                        b,
                    ),
            decreases width - a,
        {
            let ghost was = indices(samples@);
            proof {
                assert(table[id as int].len() == width);
                assert(cell_fits(cols[a as int].kind, table[id as int][a as int]));
                assert(was[a as int] == scanned_index(
                    cols[a as int].kind,
                    table.take(id as int),
                    a as int,
                ));
                lemma_scan_enters(cols[a as int].kind, table, a as int, id as int);
            }
            enter(&mut samples, a, &data[id].values[a], id);
            proof {
                assert forall|b: int| 0 <= b < a + 1 implies #[trigger] indices(samples@)[b]
                    == scanned_index(cols[b].kind, table.take(id + 1), b) by {
                    if b < a {
                        assert(indices(samples@)[b] == was[b]);
                    }
                }
                assert forall|b: int| a + 1 <= b < width implies #[trigger] indices(samples@)[b]
                    == scanned_index(cols[b].kind, table.take(id as int), b) by {
                    assert(indices(samples@)[b] == was[b]);
                }
            }
            a += 1;
        }
        id += 1;
    }
    proof {
        assert(table.take(count as int) =~= table);
    }
    let mut a: usize = 0;
    while a < width
        invariant
            a <= width,
            width == attributes.len(),
            samples.len() == width,
            cols == columns(attributes@),
            table == rows(data@),
            forall|b: int|
                0 <= b < a ==> index_fits(cols[b].kind, table, b, #[trigger] indices(samples@)[b]),
            forall|b: int|
                a <= b < width ==> #[trigger] indices(samples@)[b] == scanned_index(
                    cols[b].kind,
                    table,
                    b,
                ),
        decreases width - a,
    {
        let ghost was = indices(samples@);
        put_in_order(&mut samples, a);
        proof {
            assert forall|b: int| 0 <= b < a + 1 implies index_fits(
                cols[b].kind,
                table,
                b,
                #[trigger] indices(samples@)[b],
            ) by {
                if b < a {
                    assert(indices(samples@)[b] == was[b]);
                } else {
                    assert(was[b] == scanned_index(cols[b].kind, table, b));
                }
            }
            assert forall|b: int| a + 1 <= b < width implies #[trigger] indices(samples@)[b]
                == scanned_index(cols[b].kind, table, b) by {
                assert(indices(samples@)[b] == was[b]);
            }
        }
        a += 1;
    }
    samples
}

/// Puts the samples of attribute `a` in order, where it is numeric.
fn put_in_order(samples: &mut Vec<AttributeSamples>, a: usize)
    requires
        a < old(samples).len(),
    ensures
        final(samples).len() == old(samples).len(),
        forall|b: int|
            0 <= b < old(samples).len() && b != a ==> final(samples)[b] == old(samples)[b],
        match old(samples)[a as int]@ {
            Index::Numeric(list) => {
                &&& final(samples)[a as int]@ matches Index::Numeric(sorted)
                &&& ordered(sorted)
                &&& sorted.to_multiset() == list.to_multiset()
            },
            _ => final(samples)[a as int]@ == old(samples)[a as int]@,
        },
{
    match &mut samples[a] {
        AttributeSamples::Numeric(list) => {
            let sorted = sort_samples(list);
            *list = sorted;
        },
        _ => (),
    }
}

} // verus!
