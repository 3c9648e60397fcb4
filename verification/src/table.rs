//! The table of columns, and the pass over the lines of a file that fills
//! it.

use crate::delimiter::{determine_delimiter, sniffed_delimiter};
use crate::split::{header_names, row_fields, split_csv_line, split_header};
use crate::text::texts;
use crate::value::{classify, find_data_type, scalars, ParsedValue, Scalar};
use vstd::prelude::*;

verus! {

/// A table: a column for each different name of the header, in the order
/// in which the header first gives the names.
///
/// The table remembers the header. A position of the header and the
/// column of its name belong together: what a data line holds at that
/// position goes to that column. Where the header gives a name twice,
/// both positions feed the one column of that name.
#[derive(Debug)]
pub struct Table {
    /// The names of the columns, each once.
    names: Vec<String>,
    /// The values of the columns: `values[i]` belongs to `names[i]`, and
    /// holds one value for each data row that reached the column, in the
    /// order of the rows.
    values: Vec<Vec<ParsedValue>>,
    /// For each position of the header, where in `names` its name stands.
    slots: Vec<usize>,
}

/// `names` with every repeated name left out: each name once, where it
/// first stands.
pub open spec fn distinct(names: Seq<Seq<char>>) -> Seq<Seq<char>>
    decreases names.len(),
{
    if names.len() == 0 {
        names
    } else {
        let before = distinct(names.drop_last());
        if before.contains(names.last()) {
            before
        } else {
            before.push(names.last())
        }
    }
}

/// How many fields of a row are used under a header: those that have a
/// header position. Fields beyond the header are dropped.
pub open spec fn used_fields(header: Seq<Seq<char>>, fields: Seq<Seq<char>>) -> int {
    if fields.len() < header.len() {
        fields.len() as int
    } else {
        header.len() as int
    }
}

/// What the first `n` fields of a row add to the column named `key`: the
/// typed values of the fields whose header position carries that name, in
/// the order of the positions.
pub open spec fn row_values_upto(
    header: Seq<Seq<char>>,
    fields: Seq<Seq<char>>,
    key: Seq<char>,
    n: int,
) -> Seq<Scalar>
    decreases n,
{
    if n <= 0 {
        Seq::empty()
    } else {
        let before = row_values_upto(header, fields, key, n - 1);
        if header[n - 1] == key {
            before.push(classify(fields[n - 1]))
        } else {
            before
        }
    }
}

/// What a row adds to the column named `key`.
pub open spec fn row_values(header: Seq<Seq<char>>, fields: Seq<Seq<char>>, key: Seq<char>) -> Seq<
    Scalar,
> {
    row_values_upto(header, fields, key, used_fields(header, fields))
}

/// The column named `key` after the given rows, each row a sequence of
/// fields: what the rows add to it, one row after the other.
pub open spec fn column_values(
    header: Seq<Seq<char>>,
    rows: Seq<Seq<Seq<char>>>,
    key: Seq<char>,
) -> Seq<Scalar>
    decreases rows.len(),
{
    if rows.len() == 0 {
        Seq::empty()
    } else {
        column_values(header, rows.drop_last(), key) + row_values(header, rows.last(), key)
    }
}

/// The table that a header and rows of fields give: a column for each
/// name of the header.
pub open spec fn table_of(header: Seq<Seq<char>>, rows: Seq<Seq<Seq<char>>>) -> Map<
    Seq<char>,
    Seq<Scalar>,
> {
    Map::new(
        |key: Seq<char>| header.contains(key),
        |key: Seq<char>| column_values(header, rows, key),
    )
}

/// The columns `columns` with one row more.
pub open spec fn with_row(
    columns: Map<Seq<char>, Seq<Scalar>>,
    header: Seq<Seq<char>>,
    fields: Seq<Seq<char>>,
) -> Map<Seq<char>, Seq<Scalar>> {
    Map::new(
        |key: Seq<char>| columns.contains_key(key),
        |key: Seq<char>| columns[key] + row_values(header, fields, key),
    )
}

/// Where the header line stands among `lines` from position `from` on: it
/// is the first line that is not empty. Gives `lines.len()` where there is
/// no such line.
pub open spec fn header_line(lines: Seq<Seq<char>>, from: int) -> int
    decreases lines.len() - from,
{
    if from < 0 || from >= lines.len() {
        lines.len() as int
    } else if lines[from].len() > 0 {
        from
    } else {
        header_line(lines, from + 1)
    }
}

/// Whether `lines` hold a header line.
pub open spec fn has_header(lines: Seq<Seq<char>>) -> bool {
    header_line(lines, 0) < lines.len()
}

/// The separator of a file: the one that its header line calls for.
pub open spec fn parsed_delimiter(lines: Seq<Seq<char>>) -> char {
    sniffed_delimiter(lines[header_line(lines, 0)])
}

/// The column names of a file, by position. Empty where the file has no
/// header line.
pub open spec fn parsed_header(lines: Seq<Seq<char>>) -> Seq<Seq<char>> {
    if has_header(lines) {
        header_names(lines[header_line(lines, 0)], parsed_delimiter(lines))
    } else {
        Seq::empty()
    }
}

/// The data lines of a file: all that follow the header line.
pub open spec fn data_lines(lines: Seq<Seq<char>>) -> Seq<Seq<char>> {
    if has_header(lines) {
        lines.subrange(header_line(lines, 0) + 1, lines.len() as int)
    } else {
        Seq::empty()
    }
}

/// The rows of a file: the fields of each data line.
pub open spec fn parsed_rows(lines: Seq<Seq<char>>) -> Seq<Seq<Seq<char>>> {
    Seq::new(
        data_lines(lines).len(),
        |r: int| row_fields(data_lines(lines)[r], parsed_delimiter(lines)),
    )
}

/// The table that the lines of a file give.
pub open spec fn parsed_table(lines: Seq<Seq<char>>) -> Map<Seq<char>, Seq<Scalar>> {
    table_of(parsed_header(lines), parsed_rows(lines))
}

/// `distinct` keeps every name, keeps none twice, and adds none.
pub proof fn lemma_distinct(names: Seq<Seq<char>>)
    ensures
        distinct(names).no_duplicates(),
        distinct(names).len() <= names.len(),
        forall|key: Seq<char>| distinct(names).contains(key) <==> names.contains(key),
    decreases names.len(),
{
    if names.len() > 0 {
        let init = names.drop_last();
        let before = distinct(init);
        let now = distinct(names);
        lemma_distinct(init);
        assert forall|key: Seq<char>| now.contains(key) <==> names.contains(key) by {
            if now.contains(key) {
                let i = now.index_of(key);
                if i < before.len() {
                    assert(init.contains(key));
                    assert(names[init.index_of(key)] == key);
                }
            }
            if names.contains(key) {
                let j = names.index_of(key);
                if j < init.len() {
                    assert(init[j] == key);
                    assert(init.contains(key));
                    assert(now[before.index_of(key)] == key);
                } else if !before.contains(key) {
                    assert(now[before.len() as int] == key);
                }
            }
        }
    }
}

/// Names that are all different stay as they are.
pub proof fn lemma_distinct_of_different(names: Seq<Seq<char>>)
    requires
        names.no_duplicates(),
    ensures
        distinct(names) == names,
    decreases names.len(),
{
    if names.len() > 0 {
        let init = names.drop_last();
        lemma_distinct_of_different(init);
        if init.contains(names.last()) {
            assert(names[init.index_of(names.last())] == names.last());
        }
    }
}

/// One row more gives the table its columns with that row added.
pub proof fn lemma_table_of_push(
    header: Seq<Seq<char>>,
    rows: Seq<Seq<Seq<char>>>,
    fields: Seq<Seq<char>>,
)
    ensures
        table_of(header, rows.push(fields)) == with_row(table_of(header, rows), header, fields),
{
    assert(rows.push(fields).drop_last() == rows);
}

/// The names that the header positions `slots` point to.
spec fn slot_names(names: Seq<Seq<char>>, slots: Seq<usize>) -> Seq<Seq<char>> {
    Seq::new(slots.len(), |p: int| names[slots[p] as int])
}

/// Where in `names` the name `name` stands; `names.len()` where it does
/// not occur.
fn find_name(names: &Vec<String>, name: &String) -> (at: usize)
    ensures
        at <= names.len(),
        at < names.len() ==> names[at as int]@ == name@,
        at == names.len() ==> !texts(names@).contains(name@),
{
    let mut i: usize = 0;
    while i < names.len()
        invariant
            i <= names.len(),
            forall|k: int| 0 <= k < i ==> #[trigger] texts(names@)[k] != name@,
        decreases names.len() - i,
    {
        if names[i] == *name {
            return i;
        }
        i += 1;
    }
    i
}

impl View for Table {
    type V = Map<Seq<char>, Seq<Scalar>>;

    /// The columns by name.
    closed spec fn view(&self) -> Map<Seq<char>, Seq<Scalar>> {
        Map::new(
            |key: Seq<char>| self.names().contains(key),
            |key: Seq<char>| self.column(self.names().index_of(key)),
        )
    }
}

impl Table {
    #[verifier::type_invariant]
    spec fn well_formed(self) -> bool {
        &&& self.values.len() == self.names.len()
        &&& forall|p: int|
            0 <= p < self.slots.len() ==> (#[trigger] self.slots[p]) < self.names.len()
        &&& texts(self.names@) == distinct(slot_names(texts(self.names@), self.slots@))
    }

    /// The names of the header, by position.
    pub closed spec fn header(&self) -> Seq<Seq<char>> {
        slot_names(texts(self.names@), self.slots@)
    }

    /// The names of the columns, in the order of the columns: the names
    /// of the header, each once, where the header first gives it.
    pub closed spec fn names(&self) -> Seq<Seq<char>> {
        texts(self.names@)
    }

    /// The values of the column at position `i`.
    pub closed spec fn column(&self, i: int) -> Seq<Scalar> {
        scalars(self.values[i]@)
    }

    /// A table without header and without columns.
    pub fn new() -> (table: Table)
        ensures
            table.header() == Seq::<Seq<char>>::empty(),
            table.names() == Seq::<Seq<char>>::empty(),
            table@ == Map::<Seq<char>, Seq<Scalar>>::empty(),
    {
        let names: Vec<String> = Vec::new();
        let slots: Vec<usize> = Vec::new();
        proof {
            assert(texts(names@) =~= Seq::<Seq<char>>::empty());
            assert(slot_names(texts(names@), slots@) =~= Seq::<Seq<char>>::empty());
        }
        Table { names, values: Vec::new(), slots }
    }

    /// A table with the given header and an empty column for each
    /// different name in it.
    pub fn with_header(header: &Vec<String>) -> (table: Table)
        ensures
            table.header() == texts(header@),
            table.names() == distinct(texts(header@)),
            table@ == table_of(texts(header@), Seq::empty()),
    {
        let ghost wanted = texts(header@);
        let mut names: Vec<String> = Vec::new();
        let mut values: Vec<Vec<ParsedValue>> = Vec::new();
        let mut slots: Vec<usize> = Vec::new();
        let mut p: usize = 0;
        while p < header.len()
            invariant
                p <= header.len(),
                wanted == texts(header@),
                slots.len() == p,
                values.len() == names.len(),
                texts(names@) == distinct(wanted.take(p as int)),
                forall|q: int|
                    0 <= q < p ==> (#[trigger] slots[q]) < names.len() && names[slots[q] as int]@
                        == wanted[q],
                forall|i: int| 0 <= i < values.len() ==> (#[trigger] values[i])@.len() == 0,
            decreases header.len() - p,
        {
            let slot = find_name(&names, &header[p]);
            proof {
                assert(wanted.take(p + 1).drop_last() == wanted.take(p as int));
            }
            if slot == names.len() {
                names.push(header[p].clone());
                values.push(Vec::new());
            } else {
                proof {
                    assert(texts(names@)[slot as int] == header[p as int]@);
                }
            }
            slots.push(slot);
            p += 1;
        }
        proof {
            assert(wanted.take(p as int) == wanted);
            assert(slot_names(texts(names@), slots@) =~= wanted);
        }
        let table = Table { names, values, slots };
        proof {
            lemma_distinct(wanted);
            assert forall|key: Seq<char>| table.names().contains(key) implies table.column(
                table.names().index_of(key),
            ) == column_values(wanted, Seq::empty(), key) by {}
        }
        table
    }

    /// The number of columns.
    pub fn len(&self) -> (n: usize)
        ensures
            self@.dom().finite(),
            n == self@.dom().len(),
    {
        proof {
            use_type_invariant(self);
            lemma_distinct(self.header());
            self.names().unique_seq_to_set();
        }
        self.names.len()
    }

    /// Whether the table has no column.
    pub fn is_empty(&self) -> (b: bool)
        ensures
            b == (self@ == Map::<Seq<char>, Seq<Scalar>>::empty()),
    {
        proof {
            if self.names().len() == 0 {
                assert(self@ =~= Map::<Seq<char>, Seq<Scalar>>::empty());
            } else {
                assert(self@.contains_key(self.names()[0]));
            }
        }
        self.names.len() == 0
    }

    /// The names of the columns, in the order of the columns.
    pub fn column_names(&self) -> (names: &Vec<String>)
        ensures
            texts(names@) == self.names(),
            self.names() == distinct(self.header()),
            forall|key: Seq<char>| self@.contains_key(key) <==> self.names().contains(key),
    {
        proof {
            use_type_invariant(self);
        }
        &self.names
    }

    /// Whether the table has a column of the given name.
    pub fn contains_key(&self, name: &str) -> (b: bool)
        ensures
            b == self@.contains_key(name@),
    {
        let wanted = name.to_owned();
        let at = find_name(&self.names, &wanted);
        proof {
            if at < self.names.len() {
                assert(self.names()[at as int] == name@);
            }
        }
        at < self.names.len()
    }

    /// The values of the column of the given name, if there is one.
    pub fn get(&self, name: &str) -> (found: Option<&Vec<ParsedValue>>)
        ensures
            found is Some <==> self@.contains_key(name@),
            found matches Some(values) ==> scalars(values@) == self@[name@],
    {
        proof {
            use_type_invariant(self);
            lemma_distinct(self.header());
        }
        let wanted = name.to_owned();
        let at = find_name(&self.names, &wanted);
        if at < self.names.len() {
            proof {
                assert(self.names()[at as int] == name@);
            }
            Some(&self.values[at])
        } else {
            None
        }
    }

    /// Adds one data row. The field at each position goes, with its type
    /// found, to the column that the header names at that position. A row
    /// shorter than the header leaves the columns of the missing positions
    /// as they are; of a row longer than the header, the fields beyond the
    /// header are dropped.
    pub fn push_row(&mut self, fields: &Vec<String>)
        ensures
            final(self).header() == old(self).header(),
            final(self).names() == old(self).names(),
            final(self)@ == with_row(old(self)@, old(self).header(), texts(fields@)),
    {
        proof {
            use_type_invariant(&*self);
        }
        let ghost before = *self;
        let ghost header = self.header();
        let ghost names = self.names();
        let ghost row = texts(fields@);
        let used = if fields.len() < self.slots.len() {
            fields.len()
        } else {
            self.slots.len()
        };
        proof {
            lemma_distinct(header);
        }
        let mut p: usize = 0;
        while p < used
            invariant
                p <= used == used_fields(header, row),
                row == texts(fields@),
                self.slots == before.slots,
                self.names == before.names,
                self.values.len() == before.values.len() == names.len(),
                names == before.names(),
                header == before.header(),
                names == distinct(header),
                names.no_duplicates(),
                forall|q: int|
                    0 <= q < self.slots.len() ==> (#[trigger] self.slots[q]) < self.names.len(),
                forall|i: int|
                    0 <= i < names.len() ==> #[trigger] self.column(i) == before.column(i)
                        + row_values_upto(header, row, names[i], p as int),
            decreases used - p,
        {
            let value = find_data_type(fields[p].as_str());
            let slot = self.slots[p];
            let ghost earlier = *self;
            self.values[slot].push(value);
            proof {
                assert forall|i: int| 0 <= i < names.len() implies #[trigger] self.column(i)
                    == before.column(i) + row_values_upto(header, row, names[i], p + 1) by {
                    if i == slot {
                        assert(self.column(i) =~= earlier.column(i).push(value@));
                    }
                }
            }
            p += 1;
        }
        proof {
            assert forall|key: Seq<char>| names.contains(key) implies self@[key] == before@[key]
                + row_values(header, row, key) by {}
        }
    }
}

/// Looking for the header line from a later position on finds the same
/// line, as long as only empty lines are passed over.
proof fn lemma_header_line_after_empty(lines: Seq<Seq<char>>, from: int)
    requires
        0 <= from <= lines.len(),
        forall|i: int| 0 <= i < from ==> (#[trigger] lines[i]).len() == 0,
    ensures
        header_line(lines, 0) == header_line(lines, from),
    decreases from,
{
    if from > 0 {
        lemma_header_line_after_empty(lines, from - 1);
    }
}

/// Reads a whole file, given as its lines, into a table.
///
/// Empty lines at the start are passed over. The first line that is not
/// empty is the header: it decides the separator, once for the file, and
/// cut at every separator it gives the column names. Every line after it
/// is a data line, an empty one too: it is split into fields with regard
/// to quotes, and the field at each position goes, with its type found,
/// to the column that the header names at that position. A file without
/// header line gives a table without columns.
pub fn parse_csv_data(lines: &Vec<String>) -> (table: Table)
    ensures
        table.header() == parsed_header(texts(lines@)),
        table.names() == distinct(parsed_header(texts(lines@))),
        table@ == parsed_table(texts(lines@)),
{
    let n = lines.len();
    let ghost all = texts(lines@);
    let mut first: usize = 0;
    while first < n && lines[first].as_str().is_empty()
        invariant
            first <= n == lines.len(),
            all == texts(lines@),
            forall|i: int| 0 <= i < first ==> (#[trigger] all[i]).len() == 0,
        decreases n - first,
    {
        first += 1;
    }
    proof {
        lemma_header_line_after_empty(all, first as int);
    }
    if first == n {
        return Table::new();
    }
    let delimiter = determine_delimiter(&lines[first]);
    let header = split_header(lines[first].as_str(), delimiter);
    let mut table = Table::with_header(&header);
    let ghost rows = parsed_rows(all);
    let mut i: usize = first + 1;
    while i < n
        invariant
            first < i <= n == lines.len(),
            all == texts(lines@),
            first == header_line(all, 0),
            delimiter == parsed_delimiter(all),
            rows == parsed_rows(all),
            table.header() == parsed_header(all),
            table.names() == distinct(parsed_header(all)),
            table@ == table_of(parsed_header(all), rows.take(i - first - 1)),
        decreases n - i,
    {
        let fields = split_csv_line(lines[i].as_str(), delimiter);
        table.push_row(&fields);
        proof {
            let done = rows.take(i - first - 1);
            assert(rows.take(i - first) == done.push(texts(fields@)));
            lemma_table_of_push(parsed_header(all), done, texts(fields@));
        }
        i += 1;
    }
    proof {
        assert(rows.take(n - first - 1) == rows);
    }
    table
}

/// Under a header whose names are all different, the first `n` fields of
/// a row give the column of the header position `p` the field at `p` where
/// `p` is among them, and nothing else.
pub proof fn lemma_row_values_by_position(
    header: Seq<Seq<char>>,
    fields: Seq<Seq<char>>,
    p: int,
    n: int,
)
    requires
        header.no_duplicates(),
        0 <= p < header.len(),
        0 <= n <= header.len(),
    ensures
        row_values_upto(header, fields, header[p], n) == if p < n {
            seq![classify(fields[p])]
        } else {
            Seq::<Scalar>::empty()
        },
    decreases n,
{
    if n > 0 {
        lemma_row_values_by_position(header, fields, p, n - 1);
    }
}

/// Rows by position. Under a header whose names are all different, a row
/// gives the column of each header position exactly the field that it
/// holds at that position, and nothing where it has no field there.
pub proof fn law_row_fills_columns_by_position(
    header: Seq<Seq<char>>,
    fields: Seq<Seq<char>>,
    p: int,
)
    requires
        header.no_duplicates(),
        0 <= p < header.len(),
    ensures
        row_values(header, fields, header[p]) == if p < fields.len() {
            seq![classify(fields[p])]
        } else {
            Seq::<Scalar>::empty()
        },
{
    lemma_row_values_by_position(header, fields, p, used_fields(header, fields));
}

/// The first `n` fields of a row give nothing to a column whose name none
/// of the first `n` header positions carries.
proof fn lemma_row_values_of_absent_name(
    header: Seq<Seq<char>>,
    fields: Seq<Seq<char>>,
    key: Seq<char>,
    n: int,
)
    requires
        forall|p: int| 0 <= p < n ==> #[trigger] header[p] != key,
    ensures
        row_values_upto(header, fields, key, n) == Seq::<Scalar>::empty(),
    decreases n,
{
    if n > 0 {
        lemma_row_values_of_absent_name(header, fields, key, n - 1);
    }
}

/// Short rows. A row gives nothing to a column all of whose header
/// positions lie beyond the fields of the row: the column stays as it is,
/// it gets no filler for that row.
pub proof fn law_short_row_skips_missing_columns(
    header: Seq<Seq<char>>,
    fields: Seq<Seq<char>>,
    key: Seq<char>,
)
    requires
        forall|p: int| 0 <= p < header.len() && #[trigger] header[p] == key ==> p >= fields.len(),
    ensures
        row_values(header, fields, key) == Seq::<Scalar>::empty(),
{
    lemma_row_values_of_absent_name(header, fields, key, used_fields(header, fields));
}

/// What the first `n` fields of a row give depends on those fields alone.
proof fn lemma_row_values_read_the_first_fields(
    header: Seq<Seq<char>>,
    fields: Seq<Seq<char>>,
    others: Seq<Seq<char>>,
    key: Seq<char>,
    n: int,
)
    requires
        forall|p: int| 0 <= p < n ==> #[trigger] fields[p] == others[p],
    ensures
        row_values_upto(header, fields, key, n) == row_values_upto(header, others, key, n),
    decreases n,
{
    if n > 0 {
        lemma_row_values_read_the_first_fields(header, fields, others, key, n - 1);
    }
}

/// Long rows. Of a row with more fields than the header has names, the
/// fields beyond the header count for nothing: the row gives every column
/// what the row cut down to the length of the header gives.
pub proof fn law_long_row_loses_extra_fields(
    header: Seq<Seq<char>>,
    fields: Seq<Seq<char>>,
    key: Seq<char>,
)
    requires
        fields.len() >= header.len(),
    ensures
        row_values(header, fields, key) == row_values(
            header,
            fields.take(header.len() as int),
            key,
        ),
{
    lemma_row_values_read_the_first_fields(
        header,
        fields,
        fields.take(header.len() as int),
        key,
        header.len() as int,
    );
}

/// Under a header whose names are all different, rows that all have as
/// many fields as the header has names give the column of each header
/// position one value for each row, in the order of the rows: the field
/// that the row holds at that position.
pub proof fn lemma_regular_rows_fill_columns(
    header: Seq<Seq<char>>,
    rows: Seq<Seq<Seq<char>>>,
    p: int,
)
    requires
        header.no_duplicates(),
        0 <= p < header.len(),
        forall|r: int| 0 <= r < rows.len() ==> (#[trigger] rows[r]).len() == header.len(),
    ensures
        column_values(header, rows, header[p]) == Seq::new(
            rows.len(),
            |r: int| classify(rows[r][p]),
        ),
    decreases rows.len(),
{
    if rows.len() > 0 {
        let init = rows.drop_last();
        assert forall|r: int| 0 <= r < init.len() implies (#[trigger] init[r]).len()
            == header.len() by {}
        lemma_regular_rows_fill_columns(header, init, p);
        law_row_fills_columns_by_position(header, rows.last(), p);
    }
}

/// The shape of a well-formed file. Where the names of the header are all
/// different and every data line has as many fields as the header has
/// names, the table has exactly one column for each name of the header,
/// the columns stand in the order of the header, and each column holds
/// exactly one value for each data line, in the order of the lines: the
/// typed field that the line holds at the position of the column's name.
pub proof fn law_well_formed_file_keeps_shape(lines: Seq<Seq<char>>)
    requires
        parsed_header(lines).no_duplicates(),
        forall|r: int|
            0 <= r < parsed_rows(lines).len() ==> (#[trigger] parsed_rows(lines)[r]).len()
                == parsed_header(lines).len(),
    ensures
        distinct(parsed_header(lines)) == parsed_header(lines),
        parsed_table(lines).dom().finite(),
        parsed_table(lines).dom().len() == parsed_header(lines).len(),
        forall|p: int|
            0 <= p < parsed_header(lines).len() ==> parsed_table(lines).contains_key(
                #[trigger] parsed_header(lines)[p],
            ),
        forall|p: int|
            0 <= p < parsed_header(lines).len() ==> parsed_table(lines)[#[trigger] parsed_header(
                lines,
            )[p]] == Seq::new(
                data_lines(lines).len(),
                |r: int| classify(row_fields(data_lines(lines)[r], parsed_delimiter(lines))[p]),
            ),
{
    let header = parsed_header(lines);
    let rows = parsed_rows(lines);
    lemma_distinct_of_different(header);
    header.unique_seq_to_set();
    assert forall|p: int| 0 <= p < header.len() implies parsed_table(lines).contains_key(
        #[trigger] header[p],
    ) by {}
    assert forall|p: int| 0 <= p < header.len() implies parsed_table(lines)[#[trigger] header[p]]
        == Seq::new(
        data_lines(lines).len(),
        |r: int| classify(row_fields(data_lines(lines)[r], parsed_delimiter(lines))[p]),
    ) by {
        lemma_regular_rows_fill_columns(header, rows, p);
    }
}

} // verus!
