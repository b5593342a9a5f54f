//! Building the columnar view of a data set: the transpose that puts one
//! coordinate's value across all samples into one contiguous vector, the
//! per-class population count, and the checks a data point must pass to
//! join a set.

use vstd::prelude::*;

use crate::data::common::{lemma_coordinate_in_bounds, Data, InputShape};
use crate::error::PrimeclueErr;

verus! {

/// The columnar transpose: one vector per row/column coordinate, holding
/// that coordinate's value across all inputs, every vector exactly as long
/// as the list of inputs.  Every input must have the common shape, and
/// there must be at least one input and one coordinate.
pub fn transpose<T: Copy>(points: &Vec<Data<T>>, shape: InputShape) -> (r: Data<Vec<T>>)
    requires
        points@.len() >= 1,
        shape.spec_rows() >= 1,
        shape.spec_columns() >= 1,
        forall|k: int|
            0 <= k < points@.len() ==> (#[trigger] points@[k]).wf() && points@[k].shape()
                == shape,
    ensures
        r.wf(),
        r.shape() == shape,
        r.cells().len() == shape.spec_rows() * shape.spec_columns(),
        forall|rc: int|
            0 <= rc < r.cells().len() ==> (#[trigger] r.cells()[rc])@.len() == points@.len(),
        forall|rc: int, k: int|
            0 <= rc < r.cells().len() && 0 <= k < points@.len() ==> (
            #[trigger] r.cells()[rc]@[k]) == points@[k].cells()[rc],
{
    let rows = shape.rows();
    let columns = shape.columns();
    let n = points.len();
    proof {
        assert(points@[0].wf());
        points[0].lemma_cells_len_bound();
        assert(rows * columns <= usize::MAX);
    }
    let mut cells: Data<Vec<T>> = Data::new();
    let mut row: usize = 0;
    while row < rows
        invariant
            rows == shape.spec_rows() >= 1,
            columns == shape.spec_columns() >= 1,
            n == points@.len() >= 1,
            rows * columns <= usize::MAX,
            forall|k: int|
                0 <= k < points@.len() ==> (#[trigger] points@[k]).wf() && points@[k].shape()
                    == shape,
            row <= rows,
            cells.wf(),
            cells.shape().spec_rows() == row,
            cells.shape().spec_columns() == (if row == 0 {
                0int
            } else {
                columns as int
            }),
            cells.cells().len() == row * columns,
            forall|rc: int|
                0 <= rc < cells.cells().len() ==> (#[trigger] cells.cells()[rc])@.len()
                    == points@.len(),
            forall|rc: int, k: int|
                0 <= rc < cells.cells().len() && 0 <= k < points@.len() ==> (
                #[trigger] cells.cells()[rc]@[k]) == points@[k].cells()[rc],
        decreases rows - row,
    {
        let mut row_data: Vec<Vec<T>> = Vec::new();
        let mut column: usize = 0;
        proof {
            lemma_coordinate_in_bounds(row as int, 0, rows as int, columns as int);
        }
        while column < columns
            invariant
                rows == shape.spec_rows() >= 1,
                columns == shape.spec_columns() >= 1,
                n == points@.len() >= 1,
                row < rows,
                rows * columns <= usize::MAX,
                forall|k: int|
                    0 <= k < points@.len() ==> (#[trigger] points@[k]).wf() && points@[k].shape()
                        == shape,
                column <= columns,
                row_data@.len() == column,
                forall|c2: int|
                    0 <= c2 < column ==> (#[trigger] row_data@[c2])@.len() == points@.len(),
                forall|c2: int, k: int|
                    0 <= c2 < column && 0 <= k < points@.len() ==> (
                    #[trigger] row_data@[c2]@[k]) == points@[k].cells()[row * columns + c2],
            decreases columns - column,
        {
            let mut data: Vec<T> = Vec::new();
            let mut k: usize = 0;
            while k < n
                invariant
                    rows == shape.spec_rows() >= 1,
                    columns == shape.spec_columns() >= 1,
                    n == points@.len(),
                    row < rows,
                    column < columns,
                    forall|k2: int|
                        0 <= k2 < points@.len() ==> (#[trigger] points@[k2]).wf()
                            && points@[k2].shape() == shape,
                    k <= n,
                    data@.len() == k,
                    forall|k2: int|
                        0 <= k2 < k ==> (#[trigger] data@[k2]) == points@[k2].cells()[row * columns
                            + column],
                decreases n - k,
            {
                data.push(*points[k].get(row, column));
                k = k + 1;
            }
            row_data.push(data);
            column = column + 1;
        }
        let ghost cells0 = cells.cells();
        proof {
            assert((row + 1) * columns == row * columns + columns) by (nonlinear_arith);
            assert((row + 1) * columns <= rows * columns) by (nonlinear_arith)
                requires
                    row + 1 <= rows,
                    columns >= 0,
            ;
        }
        match cells.add_row(row_data) {
            Ok(_) => {},
            Err(_) => {
                proof {
                    assert(false);
                }
            },
        }
        proof {
            assert((row + 1) * columns == row * columns + columns) by (nonlinear_arith);
            assert forall|rc: int|
                0 <= rc < cells.cells().len() implies (#[trigger] cells.cells()[rc])@.len()
                == points@.len() by {
                if rc < cells0.len() {
                    assert(cells.cells()[rc] == cells0[rc]);
                }
            }
            assert forall|rc: int, k: int|
                0 <= rc < cells.cells().len() && 0 <= k < points@.len() implies (
            #[trigger] cells.cells()[rc]@[k]) == points@[k].cells()[rc] by {
                if rc < cells0.len() {
                    assert(cells.cells()[rc] == cells0[rc]);
                }
            }
        }
        row = row + 1;
    }
    proof {
        assert(cells.shape().spec_rows() == shape.spec_rows());
        assert(cells.shape().spec_columns() == shape.spec_columns());
        lemma_shape_fields(cells.shape(), shape);
    }
    cells
}

/// Shapes with the same dimensions are the same shape.
proof fn lemma_shape_fields(a: InputShape, b: InputShape)
    requires
        a.spec_rows() == b.spec_rows(),
        a.spec_columns() == b.spec_columns(),
    ensures
        a == b,
{
    crate::data::common::lemma_input_shape_eq(a, b);
}

/// How many times a class tag occurs in a list.
pub open spec fn count_of(s: Seq<u16>, x: u16) -> int
    decreases s.len(),
{
    if s.len() == 0 {
        0
    } else {
        (if s[0] == x {
            1int
        } else {
            0int
        }) + count_of(s.drop_first(), x)
    }
}

/// Counting one more tag adds its occurrence.
proof fn lemma_count_of_push(s: Seq<u16>, y: u16, x: u16)
    ensures
        count_of(s.push(y), x) == count_of(s, x) + (if y == x {
            1int
        } else {
            0int
        }),
    decreases s.len(),
{
    reveal_with_fuel(count_of, 3);
    if s.len() == 0 {
        assert(s.push(y)[0] == y);
        assert(s.push(y).drop_first() =~= Seq::<u16>::empty());
    } else {
        assert(s.push(y)[0] == s[0]);
        assert(s.push(y).drop_first() =~= s.drop_first().push(y));
        lemma_count_of_push(s.drop_first(), y, x);
    }
}

/// The per-class population of a list of class tags: one pair per distinct
/// tag, in order of first appearance, each with its exact count.
pub fn count_classes(classes: &Vec<u16>) -> (r: Vec<(u16, usize)>)
    ensures
        forall|j1: int, j2: int|
            0 <= j1 < j2 < r@.len() ==> (#[trigger] r@[j1]).0 != (#[trigger] r@[j2]).0,
        forall|j: int|
            0 <= j < r@.len() ==> (#[trigger] r@[j]).1 == count_of(classes@, r@[j].0)
                && r@[j].1 >= 1,
        forall|x: u16| classes@.contains(x) ==> exists|j: int|
            0 <= j < r@.len() && (#[trigger] r@[j]).0 == x,
{
    let ghost cs = classes@;
    let n = classes.len();
    let mut r: Vec<(u16, usize)> = Vec::new();
    let mut i: usize = 0;
    while i < n
        invariant
            cs == classes@,
            n == cs.len(),
            i <= n,
            forall|j1: int, j2: int|
                0 <= j1 < j2 < r@.len() ==> (#[trigger] r@[j1]).0 != (#[trigger] r@[j2]).0,
            forall|j: int|
                0 <= j < r@.len() ==> (#[trigger] r@[j]).1 == count_of(cs, r@[j].0) && r@[j].1
                    >= 1,
            forall|x: u16| cs.take(i as int).contains(x) ==> exists|j: int|
                0 <= j < r@.len() && (#[trigger] r@[j]).0 == x,
        decreases n - i,
    {
        let x = classes[i];
        let mut seen = false;
        let mut j: usize = 0;
        while j < r.len()
            invariant
                j <= r@.len(),
                seen == exists|j2: int| 0 <= j2 < j && (#[trigger] r@[j2]).0 == x,
            decreases r@.len() - j,
        {
            if r[j].0 == x {
                seen = true;
                proof {
                    assert(r@[j as int].0 == x);
                }
            }
            j = j + 1;
        }
        let ghost r_old = r@;
        if !seen {
            let count = count_tag(classes, x);
            proof {
                assert(cs.take(i as int + 1).last() == x);
                assert(count_of(cs, x) >= 1) by {
                    lemma_count_of_take_le(cs, x, i as int + 1);
                    lemma_count_of_last(cs.take(i as int + 1), x);
                }
            }
            r.push((x, count));
        }
        proof {
            assert forall|y: u16| #[trigger]
                cs.take(i as int + 1).contains(y) implies exists|j2: int|
                0 <= j2 < r@.len() && (#[trigger] r@[j2]).0 == y by {
                if cs.take(i as int).contains(y) {
                    let j2 = choose|j2: int|
                        0 <= j2 < r_old.len() && (#[trigger] r_old[j2]).0 == y;
                    assert(r@[j2].0 == y);
                } else {
                    let w = choose|w: int|
                        0 <= w < i + 1 && (#[trigger] cs.take(i as int + 1)[w]) == y;
                    assert(cs.take(i as int + 1)[w] == cs[w]);
                    if w < i {
                        assert(cs.take(i as int)[w] == y);
                        assert(cs.take(i as int).contains(y));
                    }
                    assert(y == x);
                    if seen {
                        let j2 = choose|j2: int|
                            0 <= j2 < r_old.len() && (#[trigger] r_old[j2]).0 == x;
                        assert(r@[j2].0 == x);
                    } else {
                        assert(r@[r@.len() - 1].0 == x);
                    }
                }
            }
        }
        i = i + 1;
    }
    proof {
        assert(cs.take(n as int) =~= cs);
    }
    r
}

/// A tag occurring last in a prefix counts at least once there.
proof fn lemma_count_of_last(s: Seq<u16>, x: u16)
    requires
        s.len() > 0,
        s.last() == x,
    ensures
        count_of(s, x) >= 1,
    decreases s.len(),
{
    reveal_with_fuel(count_of, 2);
    lemma_count_of_nonneg(s, x);
    if s.len() == 1 {
    } else {
        assert(s.drop_first().last() == x);
        lemma_count_of_last(s.drop_first(), x);
        lemma_count_of_nonneg(s.drop_first(), x);
    }
}

/// Counts are never negative.
proof fn lemma_count_of_nonneg(s: Seq<u16>, x: u16)
    ensures
        count_of(s, x) >= 0,
    decreases s.len(),
{
    if s.len() > 0 {
        lemma_count_of_nonneg(s.drop_first(), x);
    }
}

/// Extending the prefix never lowers a count.
proof fn lemma_count_of_take_le(s: Seq<u16>, x: u16, i: int)
    requires
        0 <= i <= s.len(),
    ensures
        count_of(s.take(i), x) <= count_of(s, x),
    decreases s.len() - i,
{
    if i == s.len() {
        assert(s.take(i) =~= s);
    } else {
        assert(s.take(i + 1) =~= s.take(i).push(s[i]));
        lemma_count_of_push(s.take(i), s[i], x);
        lemma_count_of_take_le(s, x, i + 1);
    }
}

/// How many inputs carry the given class tag.
fn count_tag(classes: &Vec<u16>, x: u16) -> (r: usize)
    ensures
        r == count_of(classes@, x),
{
    let ghost cs = classes@;
    let mut count: usize = 0;
    let mut i: usize = 0;
    proof {
        assert(cs.take(0) =~= Seq::<u16>::empty());
    }
    while i < classes.len()
        invariant
            cs == classes@,
            i <= cs.len(),
            count == count_of(cs.take(i as int), x),
            count <= i,
        decreases cs.len() - i,
    {
        proof {
            assert(cs.take(i as int + 1) =~= cs.take(i as int).push(cs[i as int]));
            lemma_count_of_push(cs.take(i as int), cs[i as int], x);
        }
        if classes[i] == x {
            count = count + 1;
        }
        i = i + 1;
    }
    proof {
        assert(cs.take(cs.len() as int) =~= cs);
    }
    count
}

/// The checks a data point passes before joining a set: its shape must be
/// the set's shape and its class must be known to the set's dictionary.
pub fn validate_data_point(
    expected: InputShape,
    actual: InputShape,
    class_known: bool,
) -> (r: Result<(), PrimeclueErr>)
    ensures
        r is Ok <==> (expected == actual && class_known),
        expected != actual ==> (r matches Err(e) && e.message() == "Invalid input size"@),
        expected == actual && !class_known ==> (r matches Err(e) && e.message()
            == "Class not found in DataSet's classes"@),
{
    if !(expected == actual) {
        PrimeclueErr::result("Invalid input size".to_owned())
    } else if !class_known {
        PrimeclueErr::result("Class not found in DataSet's classes".to_owned())
    } else {
        Ok(())
    }
}

} // verus!
