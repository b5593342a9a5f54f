//! Row/column shaped storage over a flat vector, and the shape itself.

use vstd::prelude::*;

use crate::error::PrimeclueErr;
use crate::numbers::dec_seq;
use crate::random::random_below;
use crate::serialization::deserializable::{
    lemma_tokens_at_concat, tokens_at, Deserializable,
};
use crate::serialization::serializable::Serializable;
use crate::serialization::serializator::Serializator;

verus! {

/// The shape of one sample: how many rows and columns its matrix has.
#[derive(Debug, Clone, Copy, PartialEq, Eq, Structural)]
pub struct InputShape {
    rows: usize,
    columns: usize,
}

impl InputShape {
    /// A shape with the given number of rows and columns.
    pub fn new(rows: usize, columns: usize) -> (r: InputShape)
        ensures
            r.spec_rows() == rows,
            r.spec_columns() == columns,
    {
        InputShape { rows, columns }
    }

    /// The number of rows.
    #[verifier::when_used_as_spec(spec_rows)]
    pub fn rows(&self) -> (r: usize)
        ensures
            r == self.spec_rows(),
    {
        self.rows
    }

    /// The number of columns.
    #[verifier::when_used_as_spec(spec_columns)]
    pub fn columns(&self) -> (r: usize)
        ensures
            r == self.spec_columns(),
    {
        self.columns
    }

    /// The number of rows, for specifications.
    pub closed spec fn spec_rows(&self) -> usize {
        self.rows
    }

    /// The number of columns, for specifications.
    pub closed spec fn spec_columns(&self) -> usize {
        self.columns
    }

    /// Replaces both dimensions.
    pub fn update(&mut self, rows: usize, columns: usize)
        ensures
            final(self).spec_rows() == rows,
            final(self).spec_columns() == columns,
    {
        self.rows = rows;
        self.columns = columns;
    }

    /// A uniformly random coordinate whose column is not forbidden, drawn
    /// from the library's default source.  Some column must be allowed,
    /// else there is nothing to draw.  A caller that owns its own source
    /// (the process-wide accessor with its reproducible mode) supplies the
    /// draws to `row_column_from` instead.
    pub fn random_row_column(&self, forbidden_cols: &[usize]) -> (r: (usize, usize))
        requires
            self.spec_rows() >= 1,
            exists|c: usize| c < self.spec_columns() && !forbidden_cols@.contains(c),
        ensures
            r.0 < self.spec_rows(),
            r.1 < self.spec_columns(),
            !forbidden_cols@.contains(r.1),
    {
        let allowed = self.allowed_columns(forbidden_cols);
        proof {
            lemma_allowed_columns(self.spec_columns() as int, forbidden_cols@);
            let w = choose|w: usize| w < self.spec_columns() && !forbidden_cols@.contains(w);
            assert(allowed@.contains(w));
        }
        let d1 = random_below(self.rows);
        let d2 = random_below(allowed.len());
        self.row_column_from(forbidden_cols, d1, d2)
    }

    /// The coordinate picked by a pair of caller-supplied draws: the row
    /// is the first draw modulo the row count, the column is the allowed
    /// column whose index is the second draw modulo the allowed count.
    /// The draws' distribution is the caller's own, so a reproducible
    /// source gives reproducible coordinates.
    pub fn row_column_from(&self, forbidden_cols: &[usize], d1: usize, d2: usize) -> (r: (
        usize,
        usize,
    ))
        requires
            self.spec_rows() >= 1,
            exists|c: usize| c < self.spec_columns() && !forbidden_cols@.contains(c),
        ensures
            r.0 == d1 % self.spec_rows(),
            ({
                let a = spec_allowed_columns(self.spec_columns() as int, forbidden_cols@);
                r.1 == a[(d2 % (a.len() as usize)) as int]
            }),
            r.0 < self.spec_rows(),
            r.1 < self.spec_columns(),
            !forbidden_cols@.contains(r.1),
    {
        let allowed = self.allowed_columns(forbidden_cols);
        proof {
            lemma_allowed_columns(self.spec_columns() as int, forbidden_cols@);
            let w = choose|w: usize| w < self.spec_columns() && !forbidden_cols@.contains(w);
            assert(allowed@.contains(w));
            assert(vstd::std_specs::vec::spec_vec_len(&allowed) == allowed@.len());
        }
        let row = d1 % self.rows;
        let col = allowed[d2 % allowed.len()];
        (row, col)
    }

    /// Every column below the shape's width that is not forbidden, in
    /// ascending order.
    pub fn allowed_columns(&self, forbidden_cols: &[usize]) -> (r: Vec<usize>)
        ensures
            r@ == spec_allowed_columns(self.spec_columns() as int, forbidden_cols@),
    {
        let mut allowed: Vec<usize> = Vec::new();
        let mut c: usize = 0;
        while c < self.columns
            invariant
                c <= self.spec_columns(),
                allowed@ == spec_allowed_columns(c as int, forbidden_cols@),
            decreases self.spec_columns() - c,
        {
            if !contains_col(forbidden_cols, c) {
                allowed.push(c);
            }
            c = c + 1;
        }
        allowed
    }
}

/// The allowed columns below a width: the column indexes outside the
/// forbidden list, in ascending order.
pub open spec fn spec_allowed_columns(columns: int, forbidden: Seq<usize>) -> Seq<usize>
    decreases columns,
{
    if columns <= 0 {
        Seq::empty()
    } else {
        let prev = spec_allowed_columns(columns - 1, forbidden);
        if forbidden.contains((columns - 1) as usize) {
            prev
        } else {
            prev.push((columns - 1) as usize)
        }
    }
}

/// The allowed columns lie below the width, none is forbidden, and every
/// column that is not forbidden appears.
pub proof fn lemma_allowed_columns(columns: int, forbidden: Seq<usize>)
    requires
        0 <= columns,
    ensures
        forall|k: int|
            0 <= k < spec_allowed_columns(columns, forbidden).len() ==> (
            #[trigger] spec_allowed_columns(columns, forbidden)[k]) < columns
                && !forbidden.contains(spec_allowed_columns(columns, forbidden)[k]),
        forall|x: usize|
            x < columns && !forbidden.contains(x) ==> spec_allowed_columns(
                columns,
                forbidden,
            ).contains(x),
    decreases columns,
{
    if columns > 0 {
        lemma_allowed_columns(columns - 1, forbidden);
        let prev = spec_allowed_columns(columns - 1, forbidden);
        let cur = spec_allowed_columns(columns, forbidden);
        assert forall|x: usize| x < columns && !forbidden.contains(x) implies cur.contains(
            x,
        ) by {
            if x < columns - 1 {
                let j = choose|j: int| 0 <= j < prev.len() && prev[j] == x;
                assert(cur[j] == x);
            } else {
                assert(cur.last() == x);
            }
        }
    }
}

/// Whether a value occurs in a slice of column indexes.
fn contains_col(xs: &[usize], v: usize) -> (r: bool)
    ensures
        r == xs@.contains(v),
{
    let mut i: usize = 0;
    while i < xs.len()
        invariant
            i <= xs@.len(),
            forall|j: int| 0 <= j < i ==> xs@[j] != v,
        decreases xs@.len() - i,
    {
        if xs[i] == v {
            return true;
        }
        i = i + 1;
    }
    proof {
        assert(!xs@.contains(v));
    }
    false
}

/// The tokens of the `InputShape` encoding: rows, then columns.
pub open spec fn input_shape_tokens(v: InputShape) -> Seq<Seq<char>> {
    seq![dec_seq(v.spec_rows() as nat), dec_seq(v.spec_columns() as nat)]
}

impl Serializable for InputShape {
    open spec fn ser_tokens(&self) -> Seq<Seq<char>> {
        input_shape_tokens(*self)
    }

    open spec fn ser_ok(&self) -> bool {
        true
    }

    proof fn lemma_ser_tokens_wf(&self) {
        crate::serialization::serializator::lemma_dec_token_wf(self.spec_rows() as nat);
        crate::serialization::serializator::lemma_dec_token_wf(self.spec_columns() as nat);
    }

    fn serialize(&self, s: &mut Serializator) {
        let r = self.rows;
        let c = self.columns;
        r.serialize(s);
        c.serialize(s);
        proof {
            assert(final(s).tokens() =~= old(s).tokens() + self.ser_tokens());
        }
    }
}

impl View for InputShape {
    type V = (usize, usize);

    closed spec fn view(&self) -> (usize, usize) {
        (self.rows, self.columns)
    }
}

impl DeepView for InputShape {
    type V = (usize, usize);

    open spec fn deep_view(&self) -> (usize, usize) {
        self.view()
    }
}

impl Deserializable for InputShape {
    fn deserialize(s: &mut Serializator) -> (r: Result<InputShape, String>)
        ensures
            r matches Ok(sh) ==> old(s).pos() + 2 <= old(s).tokens().len()
                && crate::numbers::spec_parse_usize(old(s).tokens()[old(s).pos()]) == Some(
                sh.spec_rows(),
            ) && crate::numbers::spec_parse_usize(old(s).tokens()[old(s).pos() + 1]) == Some(
                sh.spec_columns(),
            ) && final(s).pos() == old(s).pos() + 2,
    {
        let ghost t0 = s.tokens();
        let ghost p0 = s.pos();
        proof {
            assert forall|v: InputShape|
                v.ser_ok() && tokens_at(t0, p0, v.ser_tokens()) implies tokens_at(
                t0,
                p0,
                (v.spec_rows() as usize).ser_tokens(),
            ) && tokens_at(t0, p0 + 1, (v.spec_columns() as usize).ser_tokens()) && (
            v.spec_rows() as usize).ser_ok() && (v.spec_columns() as usize).ser_ok() by {
                assert(v.ser_tokens() =~= (v.spec_rows() as usize).ser_tokens() + (
                v.spec_columns() as usize).ser_tokens());
                lemma_tokens_at_concat(
                    t0,
                    p0,
                    (v.spec_rows() as usize).ser_tokens(),
                    (v.spec_columns() as usize).ser_tokens(),
                );
            }
        }
        let rows = match usize::deserialize(s) {
            Ok(n) => n,
            Err(e) => {
                proof {
                    assert forall|v: InputShape|
                        v.ser_ok() && tokens_at(t0, p0, v.ser_tokens()) implies false by {
                        assert((v.spec_rows() as usize).ser_ok());
                        assert(tokens_at(t0, p0, (v.spec_rows() as usize).ser_tokens()));
                    }
                }
                return Err(e);
            },
        };
        let columns = match usize::deserialize(s) {
            Ok(n) => n,
            Err(e) => {
                proof {
                    assert forall|v: InputShape|
                        v.ser_ok() && tokens_at(t0, p0, v.ser_tokens()) implies false by {
                        assert((v.spec_rows() as usize).ser_ok());
                        assert((v.spec_columns() as usize).ser_ok());
                        assert(tokens_at(t0, p0, (v.spec_rows() as usize).ser_tokens()));
                        assert(tokens_at(t0, p0 + 1, (v.spec_columns() as usize).ser_tokens()));
                    }
                }
                return Err(e);
            },
        };
        let out = InputShape::new(rows, columns);
        proof {
            assert forall|v: InputShape|
                v.ser_ok() && tokens_at(t0, p0, v.ser_tokens()) implies (out.deep_view()
                == v.deep_view() && s.pos() == p0 + v.ser_tokens().len()) by {
                assert((v.spec_rows() as usize).ser_ok());
                assert((v.spec_columns() as usize).ser_ok());
                assert(tokens_at(t0, p0, (v.spec_rows() as usize).ser_tokens()));
                assert(tokens_at(t0, p0 + 1, (v.spec_columns() as usize).ser_tokens()));
            }
        }
        Ok(out)
    }
}

/// Row/column shaped storage: the values of all rows, flattened row by row
/// into one vector.
#[derive(Clone, Debug)]
pub struct Data<T> {
    input_shape: InputShape,
    data: Vec<T>,
}

impl<T> Data<T> {
    /// The stored values, row by row.
    pub closed spec fn cells(&self) -> Seq<T> {
        self.data@
    }

    /// The shape the storage believes it has.
    pub closed spec fn shape(&self) -> InputShape {
        self.input_shape
    }

    /// The storage holds exactly one value per coordinate of its shape.
    pub open spec fn wf(&self) -> bool {
        self.cells().len() == self.shape().spec_rows() * self.shape().spec_columns()
    }

    /// Empty storage with a zero shape.
    pub fn new() -> (r: Data<T>)
        ensures
            r.cells() =~= Seq::<T>::empty(),
            r.shape().spec_rows() == 0,
            r.shape().spec_columns() == 0,
            r.wf(),
    {
        Data { input_shape: InputShape::new(0, 0), data: Vec::new() }
    }

    /// Appends one value as a new last column of a single-row storage.
    pub fn add_last(&mut self, value: T)
        requires
            old(self).wf(),
            old(self).shape().spec_rows() == 1 || (old(self).shape().spec_rows() == 0 && old(
                self,
            ).shape().spec_columns() == 0),
            old(self).shape().spec_columns() < usize::MAX,
        ensures
            final(self).cells() == old(self).cells().push(value),
            final(self).shape().spec_rows() == 1,
            final(self).shape().spec_columns() == old(self).shape().spec_columns() + 1,
            final(self).wf(),
    {
        let ghost d0 = self.data@;
        let len = self.data.len();
        self.data.insert(len, value);
        self.input_shape.columns = self.input_shape.columns + 1;
        self.input_shape.rows = 1;
        proof {
            assert(self.data@ =~= d0.push(value));
            assert(1 * self.input_shape.spec_columns() == self.input_shape.spec_columns());
        }
    }

    /// The value at a coordinate.
    pub fn get(&self, row: usize, column: usize) -> (r: &T)
        requires
            self.wf(),
            row < self.shape().spec_rows(),
            column < self.shape().spec_columns(),
        ensures
            *r == self.cells()[row * self.shape().spec_columns() + column],
    {
        proof {
            lemma_coordinate_in_bounds(
                row as int,
                column as int,
                self.shape().spec_rows() as int,
                self.shape().spec_columns() as int,
            );
            assert(vstd::std_specs::vec::spec_vec_len(&self.data) == self.data@.len());
        }
        &self.data[row * self.input_shape.columns + column]
    }

    /// Appends one row; every row must have the same number of columns.
    pub fn add_row(&mut self, row: Vec<T>) -> (r: Result<usize, PrimeclueErr>)
        requires
            old(self).wf(),
            old(self).shape().spec_rows() < usize::MAX,
            old(self).cells().len() + row@.len() <= usize::MAX,
        ensures
            old(self).cells().len() > 0 && old(self).shape().spec_columns() != row@.len()
                ==> (r is Err && *final(self) == *old(self)),
            !(old(self).cells().len() > 0 && old(self).shape().spec_columns() != row@.len())
                ==> {
                &&& r matches Ok(n) && n == old(self).shape().spec_rows() + 1
                &&& final(self).cells() == old(self).cells() + row@
                &&& final(self).shape().spec_rows() == old(self).shape().spec_rows() + 1
                &&& final(self).shape().spec_columns() == row@.len()
                &&& ((old(self).cells().len() > 0 || old(self).shape().spec_rows() == 0)
                    ==> final(self).wf())
            },
    {
        if !self.data.is_empty() && self.input_shape.columns() != row.len() {
            PrimeclueErr::result("Invalid number of columns in row".to_owned())
        } else {
            proof {
                if self.data@.len() == 0 {
                    assert(self.shape().spec_rows() * self.shape().spec_columns() == 0);
                } else {
                    assert(self.shape().spec_rows() * self.shape().spec_columns() > 0);
                    assert(self.shape().spec_rows() >= 1) by (nonlinear_arith)
                        requires
                            self.shape().spec_rows() * self.shape().spec_columns() > 0,
                    ;
                }
            }
            let rows = self.input_shape.rows() + 1;
            let ghost r0 = self.shape().spec_rows() as int;
            let ghost c0 = self.shape().spec_columns() as int;
            let ghost d0 = self.data@;
            self.input_shape.update(rows, row.len());
            let mut row = row;
            let ghost w = row@;
            self.data.append(&mut row);
            proof {
                if d0.len() > 0 || r0 == 0 {
                    if d0.len() == 0 {
                        assert(self.data@.len() == 1 * w.len() as int) by (nonlinear_arith)
                            requires
                                self.data@.len() == w.len(),
                        ;
                    } else {
                        assert(d0.len() + w.len() == (r0 + 1) * w.len()) by (nonlinear_arith)
                            requires
                                d0.len() == r0 * c0,
                                c0 == w.len(),
                                r0 >= 1,
                        ;
                    }
                }
            }
            Ok(rows)
        }
    }

    /// The shape.
    pub fn input_shape(&self) -> (r: &InputShape)
        ensures
            *r == self.shape(),
    {
        &self.input_shape
    }

    /// All values of one row, in column order.
    pub fn row(&self, r: usize) -> (out: Vec<&T>)
        requires
            self.wf(),
            r < self.shape().spec_rows(),
        ensures
            out@.len() == self.shape().spec_columns(),
            forall|i: int|
                0 <= i < out@.len() ==> #[trigger] out@[i] == self.cells()[r
                    * self.shape().spec_columns() + i],
    {
        let cols = self.input_shape.columns();
        let mut out: Vec<&T> = Vec::new();
        let mut i: usize = 0;
        while i < cols
            invariant
                self.wf(),
                r < self.shape().spec_rows(),
                cols == self.shape().spec_columns(),
                i <= cols,
                out@.len() == i as int,
                forall|j: int|
                    0 <= j < i ==> #[trigger] out@[j] == self.cells()[r
                        * self.shape().spec_columns() + j],
            decreases cols - i,
        {
            proof {
                lemma_coordinate_in_bounds(
                    r as int,
                    i as int,
                    self.shape().spec_rows() as int,
                    self.shape().spec_columns() as int,
                );
                assert(vstd::std_specs::vec::spec_vec_len(&self.data) == self.data@.len());
            }
            out.push(&self.data[r * cols + i]);
            i = i + 1;
        }
        out
    }

    /// Whether nothing is stored.
    pub fn is_empty(&self) -> (r: bool)
        ensures
            r == (self.cells().len() == 0),
    {
        self.data.is_empty()
    }
}

/// Shapes are equal exactly when their dimensions are.
pub proof fn lemma_input_shape_eq(a: InputShape, b: InputShape)
    requires
        a.spec_rows() == b.spec_rows(),
        a.spec_columns() == b.spec_columns(),
    ensures
        a == b,
{
}

/// The flattened storage fits in one vector, so its length is machine
/// bounded.
impl<T> Data<T> {
    pub proof fn lemma_cells_len_bound(&self)
        ensures
            self.cells().len() <= usize::MAX,
    {
        assert(vstd::std_specs::vec::spec_vec_len(&self.data) == self.data@.len());
    }
}

/// A coordinate of a shape indexes inside the flattened storage.
pub(crate) proof fn lemma_coordinate_in_bounds(row: int, column: int, rows: int, columns: int)
    requires
        0 <= row < rows,
        0 <= column < columns,
    ensures
        0 <= row * columns + column < rows * columns,
{
    assert(row * columns + column < rows * columns) by (nonlinear_arith)
        requires
            0 <= row < rows,
            0 <= column < columns,
    ;
    assert(row * columns >= 0) by (nonlinear_arith)
        requires
            row >= 0,
            columns >= 0,
    ;
}

} // verus!
