use crate::address_bound::AddressBound;
use crate::address_iterator::AddressIterator;
use crate::addressable::Addressable;
use crate::delimited::{
    chars_of, grid_of, grid_ranges, ranges_within, render_cells, render_grid, strings_view,
    texts_of,
};
use crate::matrix_address::MatrixAddress;
use crate::mixed_radix::{extent, offset, span};
use crate::tensor::{OutOfBounds, Tensor};
use vstd::prelude::*;

verus! {

/// The largest width or height of a matrix: every column and row number fits in an `i32`.
pub const MAX_SIDE: usize = 0x8000_0000;

/// The bound of a `width` by `height` matrix: from `(0, 0)` to `(width - 1, height - 1)`.
pub open spec fn matrix_bounds(width: int, height: int) -> AddressBound<MatrixAddress> {
    AddressBound {
        smallest_possible_position: MatrixAddress { x: 0, y: 0 },
        largest_possible_position: MatrixAddress { x: (width - 1) as i32, y: (height - 1) as i32 },
    }
}

/// The width of a grid of cells: the length of its first row, or zero.
pub open spec fn grid_width(grid: Seq<Seq<Seq<char>>>) -> nat {
    if grid.len() == 0 {
        0
    } else {
        grid[0].len()
    }
}

/// Every row of the grid has as many cells as the first.
pub open spec fn is_rectangular(grid: Seq<Seq<Seq<char>>>) -> bool {
    forall|y: int| 0 <= y < grid.len() ==> #[trigger] grid[y].len() == grid_width(grid)
}

/// `cell` is one of the cells of `grid`.
pub open spec fn is_cell_of(grid: Seq<Seq<Seq<char>>>, cell: Seq<char>) -> bool {
    exists|y: int, x: int| 0 <= y < grid.len() && 0 <= x < grid[y].len() && #[trigger] grid[y][x] == cell
}

/// The grid is rectangular and neither of its sides exceeds `MAX_SIDE`.
pub open spec fn fits_matrix(grid: Seq<Seq<Seq<char>>>) -> bool {
    &&& is_rectangular(grid)
    &&& grid_width(grid) <= MAX_SIDE
    &&& grid.len() <= MAX_SIDE
}

/// The parser `f` may return `None` for some string whose characters are `cell`.
pub open spec fn rejects<T, F: Fn(&str) -> Option<T>>(f: F, cell: Seq<char>) -> bool {
    exists|s: &str| s@ == cell && #[trigger] f.ensures((s,), None::<T>)
}

/// `value` is what the parser `f` returned for some string whose characters are `cell`.
pub open spec fn parses_to<T, F: Fn(&str) -> T>(f: F, cell: Seq<char>, value: T) -> bool {
    exists|s: &str| s@ == cell && #[trigger] f.ensures((s,), value)
}

/// The bound of a matrix contains exactly the addresses with `0 <= x < width` and
/// `0 <= y < height`, holds `width * height` of them, and numbers them row by row.
pub proof fn lemma_matrix_bounds(width: int, height: int)
    requires
        0 <= width <= MAX_SIDE,
        0 <= height <= MAX_SIDE,
    ensures
        matrix_bounds(width, height).spec_volume() == width * height,
        forall|a: MatrixAddress|
            #[trigger] matrix_bounds(width, height).spec_contains(a.coordinates()) <==> (0 <= a.x
                < width && 0 <= a.y < height),
        forall|a: MatrixAddress|
            0 <= a.x < width && 0 <= a.y < height ==> #[trigger] matrix_bounds(
                width,
                height,
            ).linear_index(a.coordinates()) == a.y * width + a.x,
{
    let b = matrix_bounds(width, height);
    let low = b.low();
    let high = b.high();
    assert(low =~= seq![0int, 0int]);
    assert(high =~= seq![width - 1, height - 1]);
    assert(extent(low, high, 0) == width);
    assert(extent(low, high, 1) == height);
    assert(span(low, high, 0) == 1);
    assert(span(low, high, 1) == width);
    assert(span(low, high, 2) == width * height);
    if width == 0 || height == 0 {
        assert(width * height == 0) by (nonlinear_arith)
            requires
                width == 0 || height == 0,
        ;
        if width == 0 {
            assert(!(low[0] <= high[0]));
        } else {
            assert(!(low[1] <= high[1]));
        }
    } else {
        assert(crate::mixed_radix::is_nonempty_box(low, high));
    }
    assert forall|a: MatrixAddress| #[trigger]
        b.spec_contains(a.coordinates()) <==> (0 <= a.x < width && 0 <= a.y < height) by {
        let c = a.coordinates();
        if b.spec_contains(c) {
            assert(low[0] <= c[0] <= high[0]);
            assert(low[1] <= c[1] <= high[1]);
        }
    }
    assert forall|a: MatrixAddress| 0 <= a.x < width && 0 <= a.y < height implies #[trigger] b.linear_index(
        a.coordinates(),
    ) == a.y * width + a.x by {
        let c = a.coordinates();
        assert(offset(low, high, c, 0) == 0);
        assert(offset(low, high, c, 1) == a.x);
        assert(offset(low, high, c, 2) == a.x + a.y * width);
        assert(a.y * width == a.y * width);
    }
}

/// A dense two-dimensional array, stored row by row.
///
/// The cell at column `x` and row `y` is addressed by `MatrixAddress { x, y }`.
#[derive(Clone, Debug, PartialEq, Eq)]
pub struct Matrix<T> {
    width: usize,
    height: usize,
    tensor: Tensor<T, MatrixAddress>,
}

impl<T> Matrix<T> {
    pub closed spec fn wf(&self) -> bool {
        &&& self.width <= MAX_SIDE
        &&& self.height <= MAX_SIDE
        &&& self.tensor.wf()
        &&& self.tensor.spec_bounds() == matrix_bounds(self.width as int, self.height as int)
    }

    /// The number of columns.
    pub closed spec fn spec_width(&self) -> nat {
        self.width as nat
    }

    /// The number of rows.
    pub closed spec fn spec_height(&self) -> nat {
        self.height as nat
    }

    /// The cells, row by row.
    pub closed spec fn cells(&self) -> Seq<T> {
        self.tensor.values()
    }

    /// The cell at column `x` and row `y`.
    pub open spec fn cell(&self, x: int, y: int) -> T {
        self.cells()[y * self.spec_width() + x]
    }

    pub open spec fn spec_contains(&self, address: MatrixAddress) -> bool {
        0 <= address.x < self.spec_width() && 0 <= address.y < self.spec_height()
    }

    /// A well-formed matrix stores one cell per address, row by row.
    pub proof fn lemma_wf(&self)
        requires
            self.wf(),
        ensures
            self.cells().len() == self.spec_width() * self.spec_height(),
            self.spec_width() * self.spec_height() <= usize::MAX,
            self.spec_width() <= MAX_SIDE,
            self.spec_height() <= MAX_SIDE,
    {
        self.lemma_layout();
    }

    proof fn lemma_layout(&self)
        requires
            self.wf(),
        ensures
            self.cells().len() == self.spec_width() * self.spec_height(),
            self.spec_width() * self.spec_height() <= usize::MAX,
            forall|a: MatrixAddress|
                #[trigger] self.tensor.spec_bounds().spec_contains(a.coordinates())
                    <==> self.spec_contains(a),
            forall|a: MatrixAddress|
                self.spec_contains(a) ==> #[trigger] self.tensor.spec_bounds().linear_index(
                    a.coordinates(),
                ) == a.y * self.spec_width() + a.x,
    {
        lemma_matrix_bounds(self.width as int, self.height as int);
        self.tensor.lemma_wf();
    }

    /// A `width` by `height` matrix whose cell at each address is what
    /// `address_value_converter` returns for it.
    pub fn new<F: Fn(MatrixAddress) -> T>(width: usize, height: usize, address_value_converter: F) -> (r:
        Self)
        requires
            width <= MAX_SIDE,
            height <= MAX_SIDE,
            width * height <= usize::MAX,
            forall|a: MatrixAddress|
                0 <= a.x < width && 0 <= a.y < height ==> #[trigger] address_value_converter.requires(
                    (a,),
                ),
        ensures
            r.wf(),
            r.spec_width() == width,
            r.spec_height() == height,
            r.cells().len() == width * height,
            forall|a: MatrixAddress|
                0 <= a.x < width && 0 <= a.y < height ==> #[trigger] address_value_converter.ensures(
                    (a,),
                    r.cell(a.x as int, a.y as int),
                ),
    {
        let bounds = AddressBound::new(
            MatrixAddress { x: 0, y: 0 },
            MatrixAddress { x: (width as i64 - 1) as i32, y: (height as i64 - 1) as i32 },
        );
        proof {
            lemma_matrix_bounds(width as int, height as int);
            assert(bounds == matrix_bounds(width as int, height as int));
        }
        let tensor = Tensor::new(bounds, address_value_converter);
        let r = Matrix { width, height, tensor };
        proof {
            assert forall|a: MatrixAddress|
                0 <= a.x < width && 0 <= a.y < height implies #[trigger] address_value_converter.ensures(
                (a,),
                r.cell(a.x as int, a.y as int),
            ) by {
                assert(bounds.spec_contains(a.coordinates()));
                assert(bounds.linear_index(a.coordinates()) == a.y * width + a.x);
                assert(r.cell(a.x as int, a.y as int) == tensor.value_at(a.coordinates()));
            }
        }
        r
    }

    /// A matrix holding `cells`, given row by row.
    fn from_cells(width: usize, height: usize, cells: Vec<T>) -> (r: Self)
        requires
            width <= MAX_SIDE,
            height <= MAX_SIDE,
            cells@.len() == width * height,
        ensures
            r.wf(),
            r.spec_width() == width,
            r.spec_height() == height,
            r.cells() == cells@,
            r.cells().len() == width * height,
    {
        let bounds = AddressBound::new(
            MatrixAddress { x: 0, y: 0 },
            MatrixAddress { x: (width as i64 - 1) as i32, y: (height as i64 - 1) as i32 },
        );
        proof {
            lemma_matrix_bounds(width as int, height as int);
            assert(bounds == matrix_bounds(width as int, height as int));
        }
        Matrix { width, height, tensor: Tensor::from_values(bounds, cells) }
    }

    pub fn width(&self) -> (r: usize)
        ensures
            r == self.spec_width(),
    {
        self.width
    }

    pub fn height(&self) -> (r: usize)
        ensures
            r == self.spec_height(),
    {
        self.height
    }

    /// Whether `address` names a cell of the matrix.
    pub fn contains_address(&self, address: MatrixAddress) -> (r: bool)
        requires
            self.wf(),
        ensures
            r == self.spec_contains(address),
    {
        proof {
            self.lemma_layout();
        }
        self.tensor.contains_address(address)
    }

    /// The first address of the matrix, `(0, 0)`.
    pub fn smallest_contained_address(&self) -> (r: MatrixAddress)
        requires
            self.wf(),
        ensures
            r == (MatrixAddress { x: 0, y: 0 }),
    {
        self.tensor.smallest_contained_address()
    }

    /// The last address of the matrix, `(width - 1, height - 1)`.
    pub fn largest_contained_address(&self) -> (r: MatrixAddress)
        requires
            self.wf(),
        ensures
            r.x == self.spec_width() - 1,
            r.y == self.spec_height() - 1,
    {
        self.tensor.largest_contained_address()
    }

    /// The position of a contained address in row-by-row order.
    pub fn index_address(&self, address: MatrixAddress) -> (r: usize)
        requires
            self.wf(),
            self.spec_contains(address),
        ensures
            r == address.y * self.spec_width() + address.x,
    {
        proof {
            self.lemma_layout();
            self.tensor.lemma_wf();
        }
        match self.tensor.bounds().index_address(&address) {
            Some(i) => i,
            None => 0,  // not reached: the address is contained

        }
    }

    /// The cell at `address`, or `None` when the address lies outside the matrix.
    pub fn get(&self, address: MatrixAddress) -> (r: Option<&T>)
        requires
            self.wf(),
        ensures
            self.spec_contains(address) ==> (r matches Some(v) && *v == self.cell(
                address.x as int,
                address.y as int,
            )),
            !self.spec_contains(address) ==> r is None,
    {
        proof {
            self.lemma_layout();
        }
        self.tensor.get(address)
    }

    /// Exclusive access to the cell at `address`, or `None` when the address lies outside
    /// the matrix.
    pub fn get_mut(&mut self, address: MatrixAddress) -> (r: Option<&mut T>)
        requires
            old(self).wf(),
        ensures
            old(self).spec_contains(address) ==> {
                &&& r is Some
                &&& *r->0 == old(self).cell(address.x as int, address.y as int)
                &&& final(self).wf()
                &&& final(self).spec_width() == old(self).spec_width()
                &&& final(self).spec_height() == old(self).spec_height()
                &&& final(self).cells() == old(self).cells().update(
                    address.y * old(self).spec_width() + address.x,
                    *final(r->0),
                )
            },
            !old(self).spec_contains(address) ==> {
                &&& r is None
                &&& *final(self) == *old(self)
            },
    {
        proof {
            self.lemma_layout();
        }
        self.tensor.get_mut(address)
    }

    /// Stores `value` at `address`; an address outside the matrix is refused and leaves
    /// the matrix as it was.
    pub fn set(&mut self, address: MatrixAddress, value: T) -> (r: Result<(), OutOfBounds>)
        requires
            old(self).wf(),
        ensures
            final(self).wf(),
            final(self).spec_width() == old(self).spec_width(),
            final(self).spec_height() == old(self).spec_height(),
            r is Ok <==> old(self).spec_contains(address),
            r is Ok ==> final(self).cells() == old(self).cells().update(
                address.y * old(self).spec_width() + address.x,
                value,
            ),
            r is Err ==> final(self).cells() == old(self).cells(),
            final(self).cells().len() == old(self).cells().len(),
            r is Ok ==> final(self).cell(address.x as int, address.y as int) == value,
    {
        proof {
            self.lemma_layout();
            if old(self).spec_contains(address) {
                let w = self.spec_width() as int;
                let h = self.spec_height() as int;
                assert(address.y * w + address.x < w * h) by (nonlinear_arith)
                    requires
                        0 <= address.x < w,
                        0 <= address.y < h,
                ;
            }
        }
        self.tensor.set(address, value)
    }

    /// A fresh iterator over the addresses of the matrix, row by row.
    pub fn address_iter(&self) -> (r: AddressIterator<MatrixAddress>)
        requires
            self.wf(),
        ensures
            r.wf(),
            r.bounds() == matrix_bounds(self.spec_width() as int, self.spec_height() as int),
            r.produced() == 0,
    {
        self.tensor.address_iter()
    }

    /// The matrix as text: each cell rendered by `display_func`, the cells of a row
    /// joined with `column_delimiter`, and the rows joined with `row_delimiter`.
    pub fn to_display_string<F: Fn(&T) -> String>(
        &self,
        display_func: F,
        column_delimiter: &str,
        row_delimiter: &str,
    ) -> (r: String)
        requires
            self.wf(),
            forall|i: int| 0 <= i < self.cells().len() ==> #[trigger] display_func.requires((&self.cells()[i],)),
        ensures
            exists|shown: Seq<String>|
                {
                    &&& shown.len() == self.cells().len()
                    &&& forall|i: int|
                        0 <= i < shown.len() ==> #[trigger] display_func.ensures(
                            (&self.cells()[i],),
                            shown[i],
                        )
                    &&& r@ == render_grid(
                        strings_view(shown),
                        self.spec_width(),
                        self.spec_height(),
                        column_delimiter@,
                        row_delimiter@,
                    )
                },
    {
        proof {
            self.lemma_layout();
        }
        let shown = self.tensor.transform(display_func).into_values();
        let r = render_cells(&shown, self.width, self.height, column_delimiter, row_delimiter);
        proof {
            assert(shown@.len() == self.cells().len());
            assert(forall|i: int|
                0 <= i < shown@.len() ==> #[trigger] display_func.ensures(
                    (&self.cells()[i],),
                    shown@[i],
                ));
        }
        r
    }

    /// Parses a matrix from text: rows are separated by `row_delimiter`, the cells of a
    /// row by `column_delimiter`, and each cell is turned into a value by `str_to_value`,
    /// which returns `None` for a cell it cannot read. Empty cells and rows without any
    /// cell are skipped.
    ///
    /// Fails when the rows do not all have the same number of cells, when the matrix
    /// would be wider or taller than `MAX_SIDE`, or when `str_to_value` rejects a cell.
    pub fn try_parse_matrix<F: Fn(&str) -> Option<T>>(
        data_str: &str,
        column_delimiter: &str,
        row_delimiter: &str,
        str_to_value: F,
    ) -> (r: Result<Matrix<T>, String>)
        requires
            forall|s: &str|
                is_cell_of(grid_of(data_str@, column_delimiter@, row_delimiter@), s@)
                    ==> #[trigger] str_to_value.requires((s,)),
        ensures
            r is Ok ==> fits_matrix(grid_of(data_str@, column_delimiter@, row_delimiter@)),
            r is Err ==> {
                let grid = grid_of(data_str@, column_delimiter@, row_delimiter@);
                ||| !fits_matrix(grid)
                ||| exists|y: int, x: int|
                    0 <= y < grid.len() && 0 <= x < grid[y].len() && rejects(
                        str_to_value,
                        #[trigger] grid[y][x],
                    )
            },
            r matches Ok(m) ==> {
                let grid = grid_of(data_str@, column_delimiter@, row_delimiter@);
                &&& m.wf()
                &&& m.spec_width() == grid_width(grid)
                &&& m.spec_height() == grid.len()
                &&& m.cells().len() == m.spec_width() * m.spec_height()
                &&& forall|x: int, y: int|
                    0 <= x < m.spec_width() && 0 <= y < m.spec_height() ==> parses_to(
                        str_to_value,
                        #[trigger] grid[y][x],
                        Some(m.cell(x, y)),
                    )
            },
    {
        let text = chars_of(data_str);
        let columns = chars_of(column_delimiter);
        let rows_sep = chars_of(row_delimiter);
        let rows = grid_ranges(&text, &columns, &rows_sep);
        let ghost grid = grid_of(data_str@, column_delimiter@, row_delimiter@);
        proof {
            assert(grid == grid_of(text@, columns@, rows_sep@));
        }
        let height = rows.len();
        let width = if height == 0 {
            0
        } else {
            rows[0].len()
        };
        proof {
            if height > 0 {
                assert(texts_of(text@, rows@[0]@).len() == rows@[0]@.len());
            }
        }
        let mut y: usize = 0;
        while y < height
            invariant
                y <= height,
                height == rows@.len(),
                rows@.len() == grid.len(),
                width == grid_width(grid),
                grid == grid_of(data_str@, column_delimiter@, row_delimiter@),
                forall|k: int|
                    0 <= k < rows@.len() ==> ranges_within(#[trigger] rows@[k]@, 0, text@.len() as int)
                        && texts_of(text@, rows@[k]@) == grid[k],
                forall|k: int| 0 <= k < y ==> #[trigger] grid[k].len() == width,
            decreases height - y,
        {
            proof {
                assert(texts_of(text@, rows@[y as int]@).len() == rows@[y as int]@.len());
            }
            if rows[y].len() != width {
                return Err(String::from_str("Row Lengths are not constant"));
            }
            y = y + 1;
        }
        if width > MAX_SIDE || height > MAX_SIDE {
            return Err(String::from_str("Matrix is too large"));
        }
        let ascii = data_str.is_ascii();
        let mut cells: Vec<T> = Vec::new();
        let mut y: usize = 0;
        while y < height
            invariant
                y <= height,
                height == rows@.len(),
                rows@.len() == grid.len(),
                width == grid_width(grid),
                grid == grid_of(data_str@, column_delimiter@, row_delimiter@),
                text@ == data_str@,
                ascii == data_str.is_ascii(),
                forall|s: &str| is_cell_of(grid, s@) ==> #[trigger] str_to_value.requires((s,)),
                forall|k: int|
                    0 <= k < rows@.len() ==> ranges_within(#[trigger] rows@[k]@, 0, text@.len() as int)
                        && texts_of(text@, rows@[k]@) == grid[k],
                forall|k: int| 0 <= k < height ==> #[trigger] grid[k].len() == width,
                cells@.len() == y * width,
                forall|yy: int, xx: int|
                    0 <= yy < y && 0 <= xx < width ==> parses_to(
                        str_to_value,
                        #[trigger] grid[yy][xx],
                        Some(cells@[yy * width + xx]),
                    ),
            decreases height - y,
        {
            let row = &rows[y];
            proof {
                assert(texts_of(text@, row@).len() == row@.len());
            }
            let mut x: usize = 0;
            while x < width
                invariant
                    x <= width,
                    y < height,
                    row@ == rows@[y as int]@,
                    row@.len() == width,
                    height == rows@.len(),
                    rows@.len() == grid.len(),
                    grid == grid_of(data_str@, column_delimiter@, row_delimiter@),
                    text@ == data_str@,
                    ascii == data_str.is_ascii(),
                    forall|s: &str| is_cell_of(grid, s@) ==> #[trigger] str_to_value.requires((s,)),
                    ranges_within(row@, 0, text@.len() as int),
                    texts_of(text@, row@) == grid[y as int],
                    cells@.len() == y * width + x,
                    forall|yy: int, xx: int|
                        0 <= yy < y && 0 <= xx < width ==> parses_to(
                            str_to_value,
                            #[trigger] grid[yy][xx],
                            Some(cells@[yy * width + xx]),
                        ),
                    forall|xx: int|
                        0 <= xx < x ==> parses_to(
                            str_to_value,
                            #[trigger] grid[y as int][xx],
                            Some(cells@[y * width + xx]),
                        ),
                decreases width - x,
            {
                let (a, b) = row[x];
                proof {
                    assert(0 <= row@[x as int].0 <= row@[x as int].1 <= text@.len());
                }
                let cell: &str = if ascii {
                    data_str.substring_ascii(a, b)
                } else {
                    data_str.substring_char(a, b)
                };
                proof {
                    assert(texts_of(text@, row@)[x as int] == cell@);
                    assert(is_cell_of(grid, cell@)) by {
                        assert(grid[y as int][x as int] == cell@);
                    }
                }
                let parsed = str_to_value(cell);
                let value = match parsed {
                    Some(v) => v,
                    None => {
                        proof {
                            assert(grid[y as int].len() == width);
                            assert(0 <= y < grid.len() && 0 <= x < grid[y as int].len() && rejects(
                                str_to_value,
                                grid[y as int][x as int],
                            ));
                        }
                        return Err(String::from_str("Cell could not be parsed"));
                    },
                };
                proof {
                    assert(parses_to(str_to_value, grid[y as int][x as int], Some(value)));
                }
                let ghost before = cells@;
                cells.push(value);
                proof {
                    assert(cells@[y * width + x] == value);
                    assert forall|yy: int, xx: int|
                        0 <= yy < y && 0 <= xx < width implies parses_to(
                        str_to_value,
                        #[trigger] grid[yy][xx],
                        Some(cells@[yy * width + xx]),
                    ) by {
                        assert(yy * width + xx < y * width) by (nonlinear_arith)
                            requires
                                0 <= yy < y,
                                0 <= xx < width,
                        ;
                        assert(cells@[yy * width + xx] == before[yy * width + xx]);
                    }
                    assert forall|xx: int| 0 <= xx < x + 1 implies parses_to(
                        str_to_value,
                        #[trigger] grid[y as int][xx],
                        Some(cells@[y * width + xx]),
                    ) by {
                        if xx < x {
                            assert(cells@[y * width + xx] == before[y * width + xx]);
                        }
                    }
                }
                x = x + 1;
            }
            proof {
                assert((y + 1) * width == y * width + width) by (nonlinear_arith);
            }
            y = y + 1;
        }
        proof {
            assert(cells@.len() == width * height) by (nonlinear_arith)
                requires
                    cells@.len() == y * width,
                    y == height,
            ;
        }
        let m = Matrix::from_cells(width, height, cells);
        proof {
            assert forall|x: int, yy: int|
                0 <= x < m.spec_width() && 0 <= yy < m.spec_height() implies parses_to(
                str_to_value,
                #[trigger] grid[yy][x],
                Some(m.cell(x, yy)),
            ) by {
                assert(m.cell(x, yy) == cells@[yy * width + x]);
            }
        }
        Ok(m)
    }

    /// Parses a matrix from text: rows are separated by `row_delimiter`, the cells of a
    /// row by `column_delimiter`, and each cell is turned into a value by
    /// `str_to_t_converter`. Empty cells and rows without any cell are skipped.
    ///
    /// Fails when the rows do not all have the same number of cells, or when the matrix
    /// would be wider or taller than `MAX_SIDE`.
    pub fn parse_matrix<F: Fn(&str) -> T>(
        data_str: &str,
        column_delimiter: &str,
        row_delimiter: &str,
        str_to_t_converter: F,
    ) -> (r: Result<Matrix<T>, String>)
        requires
            forall|s: &str|
                is_cell_of(grid_of(data_str@, column_delimiter@, row_delimiter@), s@)
                    ==> #[trigger] str_to_t_converter.requires((s,)),
        ensures
            r is Ok <==> fits_matrix(grid_of(data_str@, column_delimiter@, row_delimiter@)),
            r matches Ok(m) ==> {
                let grid = grid_of(data_str@, column_delimiter@, row_delimiter@);
                &&& m.wf()
                &&& m.spec_width() == grid_width(grid)
                &&& m.spec_height() == grid.len()
                &&& m.cells().len() == m.spec_width() * m.spec_height()
                &&& forall|x: int, y: int|
                    0 <= x < m.spec_width() && 0 <= y < m.spec_height() ==> parses_to(
                        str_to_t_converter,
                        #[trigger] grid[y][x],
                        m.cell(x, y),
                    )
            },
    {
        let ghost grid = grid_of(data_str@, column_delimiter@, row_delimiter@);
        let convert = &str_to_t_converter;
        let always = move |s: &str| -> (v: Option<T>)
            requires
                convert.requires((s,)),
            ensures
                v matches Some(t) && convert.ensures((s,), t),
            { Some(convert(s)) };
        let r = Matrix::try_parse_matrix(data_str, column_delimiter, row_delimiter, always);
        proof {
            if r is Err && fits_matrix(grid) {
                let (y, x) = choose|y: int, x: int|
                    0 <= y < grid.len() && 0 <= x < grid[y].len() && rejects(
                        always,
                        #[trigger] grid[y][x],
                    );
                let s = choose|s: &str| s@ == grid[y][x] && always.ensures((s,), None::<T>);
                assert(false);
            }
            if r is Ok {
                let m = r->Ok_0;
                assert forall|x: int, y: int|
                    0 <= x < m.spec_width() && 0 <= y < m.spec_height() implies parses_to(
                    str_to_t_converter,
                    #[trigger] grid[y][x],
                    m.cell(x, y),
                ) by {
                    assert(parses_to(always, grid[y][x], Some(m.cell(x, y))));
                    let s = choose|s: &str| s@ == grid[y][x] && always.ensures((s,), Some(m.cell(x, y)));
                    assert(str_to_t_converter.ensures((s,), m.cell(x, y)));
                }
            }
        }
        r
    }
}

} // verus!
