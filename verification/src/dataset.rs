//! A table of attribute values with one class for each row.

use vstd::prelude::*;

verus! {

/// The attribute values of a dataset: a table of strings with one row for each
/// example and one column for each attribute, held in a two-dimensional array
/// of the crate ndarray.
#[verifier::external_body]
#[derive(Debug)]
pub struct Table {
    cells: ndarray::Array2<String>,
}

/// The classes of a dataset, one string for each example, held in a
/// one-dimensional array of the crate ndarray.
#[verifier::external_body]
#[derive(Debug)]
pub struct Classes {
    cells: ndarray::Array1<String>,
}

/// The cells of a table, row by row.
pub uninterp spec fn table_cells(table: Table) -> Seq<Seq<String>>;

/// The number of columns of a table, which it has even without rows.
pub uninterp spec fn table_width(table: Table) -> nat;

/// The classes, example by example.
pub uninterp spec fn class_cells(classes: Classes) -> Seq<String>;

/// Whether a table of that many rows and columns can be made: the product of
/// the two numbers, leaving out one that is zero, is no more than `isize::MAX`.
pub open spec fn shape_fits(rows: int, cols: int) -> bool {
    (if rows == 0 {
        1
    } else {
        rows
    }) * (if cols == 0 {
        1
    } else {
        cols
    }) <= isize::MAX
}

/// Whether every row of cells has `width` cells.
pub open spec fn rectangular(cells: Seq<Seq<String>>, width: nat) -> bool {
    forall|r: int| 0 <= r < cells.len() ==> (#[trigger] cells[r]).len() == width
}

/// `Array2::default` of ndarray: a table of the given shape in which every
/// cell is the empty string.
#[verifier::external_body]
fn array_default(rows: usize, cols: usize) -> (table: Table)
    requires
        shape_fits(rows as int, cols as int),
    ensures
        table_cells(table).len() == rows,
        table_width(table) == cols,
        forall|r: int| 0 <= r < rows ==> (#[trigger] table_cells(table)[r]).len() == cols,
        forall|r: int, c: int|
            0 <= r < rows && 0 <= c < cols ==> (#[trigger] table_cells(table)[r][c])@.len() == 0,
{
    Table { cells: ndarray::Array2::default((rows, cols)) }
}

/// `nrows` of ndarray: the number of rows.
#[verifier::external_body]
fn array_nrows(table: &Table) -> (n: usize)
    ensures
        n == table_cells(*table).len(),
{
    table.cells.nrows()
}

/// `ncols` of ndarray: the number of columns, which is the number of cells of
/// every row.
#[verifier::external_body]
fn array_ncols(table: &Table) -> (n: usize)
    ensures
        n == table_width(*table),
        rectangular(table_cells(*table), n as nat),
{
    table.cells.ncols()
}

/// `len` of ndarray: the number of cells, rows times columns.
#[verifier::external_body]
fn array_len(table: &Table) -> (n: usize)
    ensures
        n == table_cells(*table).len() * table_width(*table),
{
    table.cells.len()
}

/// `row` of ndarray, copied out with `to_vec`: the cells of one row.
#[verifier::external_body]
fn array_row(table: &Table, r: usize) -> (cells: Vec<String>)
    requires
        r < table_cells(*table).len(),
    ensures
        cells@ == table_cells(*table)[r as int],
        cells.len() == table_width(*table),
{
    table.cells.row(r).to_vec()
}

/// `column` of ndarray, copied out with `to_vec`: the cells of one column,
/// from the first row to the last.
#[verifier::external_body]
fn array_column(table: &Table, c: usize) -> (cells: Vec<String>)
    requires
        c < table_width(*table),
    ensures
        cells.len() == table_cells(*table).len(),
        forall|r: int|
            0 <= r < cells.len() ==> #[trigger] cells[r] == table_cells(*table)[r][c as int],
{
    table.cells.column(c).to_vec()
}

/// `assign` of ndarray on `row_mut`: the cells of one row are replaced by
/// `values`; the other rows and the width stay.
#[verifier::external_body]
fn array_assign_row(table: &mut Table, r: usize, values: &Vec<String>)
    requires
        r < table_cells(*old(table)).len(),
        values.len() == table_width(*old(table)),
    ensures
        table_cells(*final(table)) == table_cells(*old(table)).update(r as int, values@),
        table_width(*final(table)) == table_width(*old(table)),
{
    table.cells.row_mut(r).assign(&ndarray::aview1(values));
}

/// `assign` of ndarray on `column_mut`: in every row the cell of one column
/// is replaced by the value for that row; the other cells stay.
#[verifier::external_body]
fn array_assign_column(table: &mut Table, c: usize, values: &Vec<String>)
    requires
        c < table_width(*old(table)),
        values.len() == table_cells(*old(table)).len(),
    ensures
        table_cells(*final(table)).len() == table_cells(*old(table)).len(),
        table_width(*final(table)) == table_width(*old(table)),
        forall|r: int|
            0 <= r < values.len() ==> #[trigger] table_cells(*final(table))[r] == table_cells(
                *old(table),
            )[r].update(c as int, values[r]),
{
    table.cells.column_mut(c).assign(&ndarray::aview1(values));
}

/// `Array1::from` of ndarray: the classes in the order of the vector.
#[verifier::external_body]
fn array_from(values: Vec<String>) -> (classes: Classes)
    ensures
        class_cells(classes) == values@,
{
    Classes { cells: ndarray::Array1::from(values) }
}

/// `to_vec` of ndarray: the classes, from the first example to the last.
#[verifier::external_body]
fn array_to_vec(classes: &Classes) -> (values: Vec<String>)
    ensures
        values@ == class_cells(*classes),
{
    classes.cells.to_vec()
}

impl Table {
    /// A table of the given shape in which every cell is the empty string.
    pub(crate) fn new(rows: usize, cols: usize) -> (table: Table)
        requires
            shape_fits(rows as int, cols as int),
        ensures
            table_cells(table).len() == rows,
            table_width(table) == cols,
            rectangular(table_cells(table), cols as nat),
            forall|r: int, c: int|
                0 <= r < rows && 0 <= c < cols ==> (#[trigger] table_cells(table)[r][c])@.len()
                    == 0,
    {
        array_default(rows, cols)
    }

    /// The number of rows.
    pub fn nrows(&self) -> (n: usize)
        ensures
            n == table_cells(*self).len(),
    {
        array_nrows(self)
    }

    /// The number of columns. Every row has that many cells.
    pub fn ncols(&self) -> (n: usize)
        ensures
            n == table_width(*self),
            rectangular(table_cells(*self), table_width(*self)),
    {
        array_ncols(self)
    }

    /// The number of cells.
    pub fn len(&self) -> (n: usize)
        ensures
            n == table_cells(*self).len() * table_width(*self),
    {
        array_len(self)
    }

    /// A copy of the cells of row `r`.
    pub fn row(&self, r: usize) -> (cells: Vec<String>)
        requires
            r < table_cells(*self).len(),
        ensures
            cells@ == table_cells(*self)[r as int],
            cells.len() == table_width(*self),
    {
        array_row(self, r)
    }

    /// A copy of the cells of column `c`, from the first row to the last.
    pub fn column(&self, c: usize) -> (cells: Vec<String>)
        requires
            c < table_width(*self),
        ensures
            cells.len() == table_cells(*self).len(),
            forall|r: int|
                0 <= r < cells.len() ==> #[trigger] cells[r] == table_cells(*self)[r][c as int],
    {
        array_column(self, c)
    }

    /// Replaces the cells of row `r` by `values`.
    pub(crate) fn set_row(&mut self, r: usize, values: &Vec<String>)
        requires
            r < table_cells(*old(self)).len(),
            values.len() == table_width(*old(self)),
        ensures
            table_cells(*final(self)) == table_cells(*old(self)).update(r as int, values@),
            table_width(*final(self)) == table_width(*old(self)),
    {
        array_assign_row(self, r, values);
    }

    /// Replaces the cell of column `c` in each row by the value for that row.
    pub(crate) fn set_column(&mut self, c: usize, values: &Vec<String>)
        requires
            c < table_width(*old(self)),
            values.len() == table_cells(*old(self)).len(),
        ensures
            table_cells(*final(self)).len() == table_cells(*old(self)).len(),
            table_width(*final(self)) == table_width(*old(self)),
            forall|r: int|
                0 <= r < values.len() ==> #[trigger] table_cells(*final(self))[r] == table_cells(
                    *old(self),
                )[r].update(c as int, values[r]),
    {
        array_assign_column(self, c, values);
    }
}

impl Classes {
    /// The classes in the order of the vector.
    pub fn from_vec(values: Vec<String>) -> (classes: Classes)
        ensures
            class_cells(classes) == values@,
    {
        array_from(values)
    }

    /// A copy of the classes, from the first example to the last.
    pub fn to_vec(&self) -> (values: Vec<String>)
        ensures
            values@ == class_cells(*self),
    {
        array_to_vec(self)
    }
}

/// The standard random number generator of the crate rand. Nothing is known
/// of the numbers that it gives.
#[verifier::external_type_specification]
#[verifier::external_body]
pub struct ExStdRng(rand::rngs::StdRng);

/// `sample` of the crate rand, from its module `seq::index`, asked for as
/// many indices as there are: it hands back each index below `n` once, in an
/// order that the generator decides. With more indices than a `u32` counts
/// the call takes a way on which it must be asked for fewer indices than
/// there are, so such an `n` is left out.
#[verifier::external_body]
fn shuffled_indices(rng: &mut rand::rngs::StdRng, n: usize) -> (order: Vec<usize>)
    requires
        n <= u32::MAX,
    ensures
        is_shuffle(order@, n as int),
{
    rand::seq::index::sample(rng, n, n).into_vec()
}

/// Whether `order` holds each index below `n` once.
pub open spec fn is_shuffle(order: Seq<usize>, n: int) -> bool {
    &&& order.len() == n
    &&& forall|i: int| 0 <= i < order.len() ==> #[trigger] order[i] < n
    &&& forall|i: int, j: int| 0 <= i < j < order.len() ==> order[i] != order[j]
}

/// Why records could not be made into a dataset.
#[derive(Debug, PartialEq, Eq)]
pub enum LoadError {
    /// The heading has fewer than two fields: there is no attribute beside
    /// the class.
    TooFewColumns,
    /// The record at this place has not as many fields as the heading.
    MalformedRow { row: usize },
    /// A table of so many rows and columns cannot be made.
    TooLarge,
}

/// Tells whether a table of that many rows and columns can be made.
pub fn shape_is_small(rows: usize, cols: usize) -> (small: bool)
    ensures
        small == shape_fits(rows as int, cols as int),
{
    let r: usize = if rows == 0 {
        1
    } else {
        rows
    };
    let c: usize = if cols == 0 {
        1
    } else {
        cols
    };
    match r.checked_mul(c) {
        Some(cells) => cells <= isize::MAX as usize,
        None => false,
    }
}

/// A dataset: the names of the attributes, the value of each attribute for
/// each example, and the class of each example.
#[derive(Debug)]
pub struct Dataset {
    pub attribute_names: Vec<String>,
    pub attributes: Table,
    pub classes: Classes,
}

impl Dataset {
    /// The attribute values, example by example.
    pub open spec fn rows(&self) -> Seq<Seq<String>> {
        table_cells(self.attributes)
    }

    /// The number of attributes.
    pub open spec fn width(&self) -> nat {
        table_width(self.attributes)
    }

    /// The classes, example by example.
    pub open spec fn labels(&self) -> Seq<String> {
        class_cells(self.classes)
    }

    /// The values of attribute `a`, example by example.
    pub open spec fn column(&self, a: int) -> Seq<String> {
        Seq::new(self.rows().len(), |r: int| self.rows()[r][a])
    }

    /// Whether there is a name for each attribute and a class for each example.
    pub open spec fn wf(&self) -> bool {
        &&& self.attribute_names.len() == self.width()
        &&& self.labels().len() == self.rows().len()
    }

    /// Whether the examples with the given places in `self`, in that order,
    /// make up `part`.
    pub open spec fn holds_rows(&self, places: Seq<usize>, part: Dataset) -> bool {
        &&& part.wf()
        &&& part.attribute_names@ == self.attribute_names@
        &&& part.rows() == Seq::new(places.len(), |i: int| self.rows()[places[i] as int])
        &&& part.labels() == Seq::new(places.len(), |i: int| self.labels()[places[i] as int])
    }

    /// Whether `order` holds each place of `self` once, `first` is made up of
    /// the examples at the first `left_count` places of `order`, and `second`
    /// of the examples at the other places.
    pub open spec fn is_divided(
        &self,
        order: Seq<usize>,
        left_count: usize,
        first: Dataset,
        second: Dataset,
    ) -> bool {
        &&& is_shuffle(order, self.rows().len() as int)
        &&& self.holds_rows(order.take(left_count as int), first)
        &&& self.holds_rows(order.skip(left_count as int), second)
    }

    /// Tells whether there is a name for each attribute and a class for each
    /// example.
    pub fn is_well_formed(&self) -> (ok: bool)
        ensures
            ok == self.wf(),
    {
        self.attribute_names.len() == self.attributes.ncols() && self.classes.to_vec().len()
            == self.attributes.nrows()
    }

    /// A dataset of `num_rows` examples in which every attribute value and
    /// every class is the empty string.
    pub fn new(num_rows: usize, attribute_names: &[String]) -> (dataset: Dataset)
        requires
            shape_fits(num_rows as int, attribute_names.len() as int),
        ensures
            dataset.wf(),
            dataset.attribute_names@ == attribute_names@,
            dataset.rows().len() == num_rows,
            rectangular(dataset.rows(), attribute_names.len() as nat),
            forall|r: int, c: int|
                0 <= r < num_rows && 0 <= c < attribute_names.len() ==> (
                #[trigger] dataset.rows()[r][c])@.len() == 0,
            forall|r: int| 0 <= r < num_rows ==> (#[trigger] dataset.labels()[r])@.len() == 0,
    {
        let names = copy_of(attribute_names);
        let mut classes: Vec<String> = Vec::new();
        let mut i: usize = 0;
        while i < num_rows
            invariant
                i <= num_rows,
                classes.len() == i,
                forall|r: int| 0 <= r < i ==> (#[trigger] classes[r])@.len() == 0,
            decreases num_rows - i,
        {
            classes.push(String::new());
            i = i + 1;
        }
        let dataset = Dataset {
            attribute_names: names,
            attributes: Table::new(num_rows, attribute_names.len()),
            classes: Classes::from_vec(classes),
        };
        dataset
    }

    /// Builds a dataset from the records of a table with a heading. The last
    /// field of each record is the class of the example, the fields before it
    /// are its attribute values, and the heading names the attributes. The
    /// heading must have two fields or more, and each record as many fields
    /// as the heading.
    pub fn from_records(header: &[String], records: &Vec<Vec<String>>) -> (loaded: Result<
        Dataset,
        LoadError,
    >)
        ensures
            match loaded {
                Ok(dataset) => {
                    &&& header.len() >= 2
                    &&& forall|r: int|
                        0 <= r < records.len() ==> (#[trigger] records[r]).len() == header.len()
                    &&& shape_fits(records.len() as int, header.len() - 1)
                    &&& dataset.wf()
                    &&& dataset.attribute_names@ == header@.drop_last()
                    &&& dataset.rows().len() == records.len()
                    &&& forall|r: int|
                        0 <= r < records.len() ==> #[trigger] dataset.rows()[r]
                            == records[r]@.drop_last()
                    &&& forall|r: int|
                        0 <= r < records.len() ==> #[trigger] dataset.labels()[r]
                            == records[r]@.last()
                },
                Err(LoadError::TooFewColumns) => header.len() < 2,
                Err(LoadError::MalformedRow { row }) => {
                    &&& header.len() >= 2
                    &&& row < records.len()
                    &&& records[row as int].len() != header.len()
                    &&& forall|r: int| 0 <= r < row ==> (#[trigger] records[r]).len() == header.len()
                },
                Err(LoadError::TooLarge) => {
                    &&& header.len() >= 2
                    &&& forall|r: int|
                        0 <= r < records.len() ==> (#[trigger] records[r]).len() == header.len()
                    &&& !shape_fits(records.len() as int, header.len() - 1)
                },
            },
    {
        if header.len() < 2 {
            return Err(LoadError::TooFewColumns);
        }
        let width = header.len() - 1;
        let mut r: usize = 0;
        while r < records.len()
            invariant
                r <= records.len(),
                header.len() >= 2,
                forall|k: int| 0 <= k < r ==> (#[trigger] records[k]).len() == header.len(),
            decreases records.len() - r,
        {
            if records[r].len() != header.len() {
                return Err(LoadError::MalformedRow { row: r });
            }
            r = r + 1;
        }
        if !shape_is_small(records.len(), width) {
            return Err(LoadError::TooLarge);
        }
        let mut names = copy_of(header);
        names.pop();
        let mut attributes = Table::new(records.len(), width);
        let mut classes: Vec<String> = Vec::new();
        let mut r: usize = 0;
        while r < records.len()
            invariant
                r <= records.len(),
                width == header.len() - 1,
                forall|k: int| 0 <= k < records.len() ==> (#[trigger] records[k]).len() == header.len(),
                table_cells(attributes).len() == records.len(),
                table_width(attributes) == width,
                classes.len() == r,
                forall|k: int|
                    0 <= k < r ==> #[trigger] table_cells(attributes)[k] == records[k]@.drop_last(),
                forall|k: int| 0 <= k < r ==> #[trigger] classes[k] == records[k]@.last(),
            decreases records.len() - r,
        {
            let mut cells = copy_of(records[r].as_slice());
            let class = cells.pop();
            attributes.set_row(r, &cells);
            match class {
                Some(class) => {
                    classes.push(class);
                },
                None => {},
            }
            r = r + 1;
        }
        Ok(Dataset { attribute_names: names, attributes, classes: Classes::from_vec(classes) })
    }

    /// Divides the examples in two. The first dataset gets the examples at the
    /// first `left_count` places of `order`, the second the examples at the
    /// other places, each in the order of `order`.
    pub fn split_by(&self, order: &Vec<usize>, left_count: usize) -> (parts: (Dataset, Dataset))
        requires
            self.wf(),
            shape_fits(order.len() as int, self.width() as int),
            left_count <= order.len(),
            forall|i: int| 0 <= i < order.len() ==> #[trigger] order[i] < self.rows().len(),
        ensures
            self.holds_rows(order@.take(left_count as int), parts.0),
            self.holds_rows(order@.skip(left_count as int), parts.1),
    {
        let rows = self.attributes.nrows();
        let cols = self.attributes.ncols();
        let right_count = order.len() - left_count;
        let classes = self.classes.to_vec();
        proof {
            lemma_shape_fits_smaller(order.len() as int, cols as int, left_count as int);
            lemma_shape_fits_smaller(order.len() as int, cols as int, right_count as int);
        }
        let mut left = Table::new(left_count, cols);
        let mut right = Table::new(right_count, cols);
        let mut left_classes: Vec<String> = Vec::new();
        let mut right_classes: Vec<String> = Vec::new();
        let mut i: usize = 0;
        while i < order.len()
            invariant
                i <= order.len(),
                left_count <= order.len(),
                right_count == order.len() - left_count,
                self.wf(),
                rows == self.rows().len(),
                cols == self.width(),
                classes@ == self.labels(),
                forall|k: int| 0 <= k < order.len() ==> #[trigger] order[k] < self.rows().len(),
                table_cells(left).len() == left_count,
                table_cells(right).len() == right_count,
                table_width(left) == cols,
                table_width(right) == cols,
                left_classes.len() == if i < left_count { i } else { left_count },
                right_classes.len() == if i < left_count { 0 } else { i - left_count },
                forall|k: int|
                    0 <= k < left_classes.len() ==> #[trigger] table_cells(left)[k]
                        == self.rows()[order[k] as int],
                forall|k: int|
                    0 <= k < left_classes.len() ==> #[trigger] left_classes[k]
                        == self.labels()[order[k] as int],
                forall|k: int|
                    0 <= k < right_classes.len() ==> #[trigger] table_cells(right)[k]
                        == self.rows()[order[left_count + k] as int],
                forall|k: int|
                    0 <= k < right_classes.len() ==> #[trigger] right_classes[k]
                        == self.labels()[order[left_count + k] as int],
            decreases order.len() - i,
        {
            let index = order[i];
            let row = self.attributes.row(index);
            if i < left_count {
                left.set_row(i, &row);
                left_classes.push(classes[index].clone());
            } else {
                right.set_row(i - left_count, &row);
                right_classes.push(classes[index].clone());
            }
            i = i + 1;
        }
        let first = Dataset {
            attribute_names: copy_of(self.attribute_names.as_slice()),
            attributes: left,
            classes: Classes::from_vec(left_classes),
        };
        let second = Dataset {
            attribute_names: copy_of(self.attribute_names.as_slice()),
            attributes: right,
            classes: Classes::from_vec(right_classes),
        };
        proof {
            let taken = order@.take(left_count as int);
            let others = order@.skip(left_count as int);
            assert(first.rows() =~= Seq::new(taken.len(), |k: int| self.rows()[taken[k] as int]));
            assert(first.labels() =~= Seq::new(
                taken.len(),
                |k: int| self.labels()[taken[k] as int],
            ));
            assert(second.rows() =~= Seq::new(
                others.len(),
                |k: int| self.rows()[others[k] as int],
            ));
            assert(second.labels() =~= Seq::new(
                others.len(),
                |k: int| self.labels()[others[k] as int],
            ));
        }
        (first, second)
    }

    /// Divides the examples at random: `left_count` of them go to the first
    /// dataset and the others to the second. Each example goes to one of the
    /// two, once. There are no more examples than a `u32` counts.
    pub fn split(&self, rng: &mut rand::rngs::StdRng, left_count: usize) -> (parts: (
        Dataset,
        Dataset,
    ))
        requires
            self.wf(),
            self.rows().len() <= u32::MAX,
            shape_fits(self.rows().len() as int, self.width() as int),
            left_count <= self.rows().len(),
        ensures
            exists|order: Seq<usize>| self.is_divided(order, left_count, parts.0, parts.1),
    {
        let order = shuffled_indices(rng, self.attributes.nrows());
        let parts = self.split_by(&order, left_count);
        assert(self.is_divided(order@, left_count, parts.0, parts.1));
        parts
    }
}

/// A table that fits still fits with fewer rows.
pub proof fn lemma_shape_fits_smaller(rows: int, cols: int, fewer: int)
    requires
        shape_fits(rows, cols),
        0 <= fewer <= rows,
        0 <= cols,
    ensures
        shape_fits(fewer, cols),
{
    let c: int = if cols == 0 {
        1
    } else {
        cols
    };
    let r: int = if rows == 0 {
        1
    } else {
        rows
    };
    let f: int = if fewer == 0 {
        1
    } else {
        fewer
    };
    assert(f * c <= r * c) by (nonlinear_arith)
        requires
            0 < f <= r,
            0 < c,
    ;
}

/// A copy of the strings, in their order.
pub fn copy_of(strings: &[String]) -> (copy: Vec<String>)
    ensures
        copy@ == strings@,
{
    let mut copy: Vec<String> = Vec::new();
    let mut i: usize = 0;
    while i < strings.len()
        invariant
            i <= strings.len(),
            copy.len() == i,
            forall|k: int| 0 <= k < i ==> copy[k] == strings[k],
        decreases strings.len() - i,
    {
        copy.push(strings[i].clone());
        i = i + 1;
    }
    assert(copy@ =~= strings@);
    copy
}

} // verus!
