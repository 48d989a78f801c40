//! Delimited text: splitting a character sequence at the occurrences of a delimiter,
//! and joining pieces with one.
use vstd::prelude::*;

verus! {

/// The pieces of `s` between the occurrences of a non-empty delimiter `d`, found by
/// scanning left to right from `pos`, the current piece having begun at `from`.
pub open spec fn split_from(s: Seq<char>, d: Seq<char>, from: int, pos: int) -> Seq<Seq<char>>
    decreases s.len() - pos,
{
    if pos < 0 || d.len() == 0 || pos + d.len() > s.len() {
        seq![s.subrange(from, s.len() as int)]
    } else if s.subrange(pos, pos + d.len()) == d {
        seq![s.subrange(from, pos)] + split_from(s, d, pos + d.len(), pos + d.len())
    } else {
        split_from(s, d, from, pos + 1)
    }
}

/// The pieces of `s` between the occurrences of `d`; an empty delimiter separates every
/// character.
pub open spec fn split(s: Seq<char>, d: Seq<char>) -> Seq<Seq<char>> {
    if d.len() == 0 {
        Seq::new(s.len(), |i: int| seq![s[i]])
    } else {
        split_from(s, d, 0, 0)
    }
}

/// The text that each `(start, end)` range covers.
pub open spec fn texts_of(text: Seq<char>, ranges: Seq<(usize, usize)>) -> Seq<Seq<char>> {
    ranges.map_values(|r: (usize, usize)| text.subrange(r.0 as int, r.1 as int))
}

/// Every range lies within `lo .. hi` and is ordered.
pub open spec fn ranges_within(ranges: Seq<(usize, usize)>, lo: int, hi: int) -> bool {
    forall|k: int| 0 <= k < ranges.len() ==> lo <= (#[trigger] ranges[k]).0 <= ranges[k].1 <= hi
}

/// The non-empty elements of `parts`, in order.
pub open spec fn non_empty<T>(parts: Seq<Seq<T>>) -> Seq<Seq<T>>
    decreases parts.len(),
{
    if parts.len() == 0 {
        seq![]
    } else if parts.last().len() > 0 {
        non_empty(parts.drop_last()).push(parts.last())
    } else {
        non_empty(parts.drop_last())
    }
}

/// The non-empty cells of a row.
pub open spec fn cells_of_row(row: Seq<char>, column_delimiter: Seq<char>) -> Seq<Seq<char>> {
    non_empty(split(row, column_delimiter))
}

/// The rows of a text, each as its non-empty cells; rows without any cell are left out.
pub open spec fn grid_of(text: Seq<char>, column_delimiter: Seq<char>, row_delimiter: Seq<char>) -> Seq<
    Seq<Seq<char>>,
> {
    non_empty(split(text, row_delimiter).map_values(|row: Seq<char>| cells_of_row(row, column_delimiter)))
}

/// The pieces joined, with `sep` between each two neighbours.
pub open spec fn join(parts: Seq<Seq<char>>, sep: Seq<char>) -> Seq<char>
    decreases parts.len(),
{
    if parts.len() == 0 {
        seq![]
    } else if parts.len() == 1 {
        parts[0]
    } else {
        join(parts.drop_last(), sep) + sep + parts.last()
    }
}

/// The characters of `s`, one per element.
pub fn chars_of(s: &str) -> (r: Vec<char>)
    ensures
        r@ == s@,
{
    let mut out: Vec<char> = Vec::new();
    for c in it: s.chars()
        invariant
            out@ == it.seq().take(it.index() as int),
    {
        out.push(c);
    }
    proof {
        broadcast use vstd::string::axiom_spec_iter;
    }
    out
}

/// Whether `d` occurs in `text` at `pos`.
fn occurs_at(text: &Vec<char>, pos: usize, d: &Vec<char>) -> (r: bool)
    requires
        pos + d@.len() <= text@.len(),
    ensures
        r == (text@.subrange(pos as int, pos + d@.len()) == d@),
{
    let n = text.len();
    let mut j: usize = 0;
    while j < d.len()
        invariant
            n == text@.len(),
            pos + d@.len() <= text@.len(),
            j <= d@.len(),
            forall|e: int| 0 <= e < j ==> text@[pos + e] == #[trigger] d@[e],
        decreases d@.len() - j,
    {
        if text[pos + j] != d[j] {
            proof {
                assert(text@.subrange(pos as int, pos + d@.len())[j as int] != d@[j as int]);
            }
            return false;
        }
        j = j + 1;
    }
    proof {
        assert(text@.subrange(pos as int, pos + d@.len()) =~= d@);
    }
    true
}

/// The ranges of the pieces of `text[lo .. hi]` between the occurrences of `d`.
pub fn split_ranges(text: &Vec<char>, lo: usize, hi: usize, d: &Vec<char>) -> (r: Vec<(usize, usize)>)
    requires
        lo <= hi <= text@.len(),
    ensures
        ranges_within(r@, lo as int, hi as int),
        texts_of(text@, r@) == split(text@.subrange(lo as int, hi as int), d@),
{
    let ghost sub = text@.subrange(lo as int, hi as int);
    let mut out: Vec<(usize, usize)> = Vec::new();
    if d.len() == 0 {
        let mut i: usize = lo;
        while i < hi
            invariant
                lo <= i <= hi <= text@.len(),
                sub == text@.subrange(lo as int, hi as int),
                d@.len() == 0,
                ranges_within(out@, lo as int, hi as int),
                texts_of(text@, out@) == split(sub, d@).take(i - lo),
            decreases hi - i,
        {
            let ghost before = out@;
            out.push((i, i + 1));
            proof {
                assert(text@.subrange(i as int, i + 1) =~= seq![sub[i - lo]]);
                assert(texts_of(text@, out@) =~= texts_of(text@, before).push(seq![sub[i - lo]]));
                assert(texts_of(text@, out@) =~= split(sub, d@).take(i + 1 - lo));
            }
            i = i + 1;
        }
        proof {
            assert(split(sub, d@).take(hi - lo) =~= split(sub, d@));
        }
        return out;
    }
    let dl = d.len();
    let mut from: usize = lo;
    let mut pos: usize = lo;
    while pos <= hi && dl <= hi - pos
        invariant
            lo <= from <= pos <= hi <= text@.len(),
            dl == d@.len(),
            dl > 0,
            sub == text@.subrange(lo as int, hi as int),
            ranges_within(out@, lo as int, hi as int),
            texts_of(text@, out@) + split_from(sub, d@, from - lo, pos - lo) == split(sub, d@),
        decreases hi - pos,
    {
        let found = occurs_at(text, pos, d);
        proof {
            assert(sub.subrange(pos - lo, pos - lo + dl) =~= text@.subrange(
                pos as int,
                pos + dl,
            ));
        }
        if found {
            let ghost before = out@;
            out.push((from, pos));
            proof {
                assert(sub.subrange(from - lo, pos - lo) =~= text@.subrange(from as int, pos as int));
                assert(texts_of(text@, out@) =~= texts_of(text@, before).push(
                    text@.subrange(from as int, pos as int),
                ));
                assert(texts_of(text@, out@) + split_from(sub, d@, pos + dl - lo, pos + dl - lo)
                    =~= texts_of(text@, before) + split_from(sub, d@, from - lo, pos - lo));
            }
            pos = pos + dl;
            from = pos;
        } else {
            pos = pos + 1;
        }
    }
    let ghost before = out@;
    out.push((from, hi));
    proof {
        assert(sub.subrange(from - lo, sub.len() as int) =~= text@.subrange(from as int, hi as int));
        assert(texts_of(text@, out@) =~= texts_of(text@, before).push(
            text@.subrange(from as int, hi as int),
        ));
        assert(texts_of(text@, out@) =~= texts_of(text@, before) + split_from(
            sub,
            d@,
            from - lo,
            pos - lo,
        ));
    }
    out
}

/// The ranges of the cells of each row of `text` that has any, in order.
pub fn grid_ranges(text: &Vec<char>, column_delimiter: &Vec<char>, row_delimiter: &Vec<char>) -> (r:
    Vec<Vec<(usize, usize)>>)
    ensures
        r@.len() == grid_of(text@, column_delimiter@, row_delimiter@).len(),
        forall|y: int|
            0 <= y < r@.len() ==> ranges_within(#[trigger] r@[y]@, 0, text@.len() as int)
                && texts_of(text@, r@[y]@) == grid_of(text@, column_delimiter@, row_delimiter@)[y],
{
    let ghost cd = column_delimiter@;
    let ghost rd = row_delimiter@;
    let row_pieces = split_ranges(text, 0, text.len(), row_delimiter);
    let ghost pieces = split(text@, rd);
    proof {
        assert(text@.subrange(0, text@.len() as int) =~= text@);
    }
    let ghost row_cells = pieces.map_values(|row: Seq<char>| cells_of_row(row, cd));
    let mut rows: Vec<Vec<(usize, usize)>> = Vec::new();
    let mut j: usize = 0;
    while j < row_pieces.len()
        invariant
            j <= row_pieces@.len(),
            cd == column_delimiter@,
            texts_of(text@, row_pieces@) == pieces,
            ranges_within(row_pieces@, 0, text@.len() as int),
            row_cells == pieces.map_values(|row: Seq<char>| cells_of_row(row, cd)),
            forall|y: int|
                0 <= y < rows@.len() ==> ranges_within(#[trigger] rows@[y]@, 0, text@.len() as int),
            rows@.map_values(|cells: Vec<(usize, usize)>| texts_of(text@, cells@)) == non_empty(
                row_cells.take(j as int),
            ),
        decreases row_pieces@.len() - j,
    {
        let (a, b) = row_pieces[j];
        let ghost row = text@.subrange(a as int, b as int);
        proof {
            assert(texts_of(text@, row_pieces@)[j as int] == row);
        }
        let cell_pieces = split_ranges(text, a, b, column_delimiter);
        let mut cells: Vec<(usize, usize)> = Vec::new();
        let mut k: usize = 0;
        while k < cell_pieces.len()
            invariant
                k <= cell_pieces@.len(),
                a <= b <= text@.len(),
                ranges_within(cell_pieces@, a as int, b as int),
                texts_of(text@, cell_pieces@) == split(row, column_delimiter@),
                ranges_within(cells@, 0, text@.len() as int),
                texts_of(text@, cells@) == non_empty(split(row, column_delimiter@).take(k as int)),
            decreases cell_pieces@.len() - k,
        {
            let (c0, c1) = cell_pieces[k];
            let ghost piece = text@.subrange(c0 as int, c1 as int);
            proof {
                assert(texts_of(text@, cell_pieces@)[k as int] == piece);
                assert(split(row, column_delimiter@).take(k + 1).drop_last() =~= split(
                    row,
                    column_delimiter@,
                ).take(k as int));
            }
            if c0 < c1 {
                let ghost before = cells@;
                cells.push((c0, c1));
                proof {
                    assert(texts_of(text@, cells@) =~= texts_of(text@, before).push(piece));
                }
            }
            k = k + 1;
        }
        proof {
            assert(split(row, column_delimiter@).take(k as int) =~= split(row, column_delimiter@));
            assert(row_cells[j as int] == cells_of_row(row, cd));
            assert(row_cells.take(j + 1).drop_last() =~= row_cells.take(j as int));
        }
        if cells.len() > 0 {
            let ghost before = rows@;
            rows.push(cells);
            proof {
                assert(rows@.map_values(|cells: Vec<(usize, usize)>| texts_of(text@, cells@))
                    =~= before.map_values(|cells: Vec<(usize, usize)>| texts_of(text@, cells@)).push(
                    row_cells[j as int],
                ));
            }
        }
        j = j + 1;
    }
    proof {
        assert(row_cells.take(j as int) =~= row_cells);
        let g = grid_of(text@, cd, rd);
        assert(g == non_empty(row_cells));
        assert forall|y: int| 0 <= y < rows@.len() implies texts_of(text@, (#[trigger] rows@[y])@)
            == g[y] by {
            assert(rows@.map_values(|cells: Vec<(usize, usize)>| texts_of(text@, cells@))[y]
                == texts_of(text@, rows@[y]@));
        }
    }
    rows
}

/// The views of a sequence of strings.
pub open spec fn strings_view(strings: Seq<String>) -> Seq<Seq<char>> {
    strings.map_values(|s: String| s@)
}

/// A grid of cells laid out row by row: the cells of each row joined with
/// `column_delimiter`, and the rows joined with `row_delimiter`.
pub open spec fn render_grid(
    cells: Seq<Seq<char>>,
    width: nat,
    height: nat,
    column_delimiter: Seq<char>,
    row_delimiter: Seq<char>,
) -> Seq<char> {
    join(
        Seq::new(
            height,
            |y: int| join(cells.subrange(y * width, y * width + width), column_delimiter),
        ),
        row_delimiter,
    )
}

/// `parts[lo .. hi]` joined with `sep`.
pub fn join_strings(parts: &Vec<String>, lo: usize, hi: usize, sep: &str) -> (r: String)
    requires
        lo <= hi <= parts@.len(),
    ensures
        r@ == join(strings_view(parts@).subrange(lo as int, hi as int), sep@),
{
    let ghost all = strings_view(parts@).subrange(lo as int, hi as int);
    let mut out = String::new();
    let mut j: usize = lo;
    while j < hi
        invariant
            lo <= j <= hi <= parts@.len(),
            all == strings_view(parts@).subrange(lo as int, hi as int),
            out@ == join(all.take(j - lo), sep@),
        decreases hi - j,
    {
        let ghost before = out@;
        if j > lo {
            out.append(sep);
        }
        out.append(parts[j].as_str());
        proof {
            let next = all.take(j + 1 - lo);
            assert(next.drop_last() =~= all.take(j - lo));
            assert(next.last() == parts@[j as int]@);
            if j == lo {
                assert(out@ =~= next[0]);
            }
        }
        j = j + 1;
    }
    proof {
        assert(all.take(hi - lo) =~= all);
    }
    out
}

/// The cells, `width` to a row and `height` rows, laid out as `render_grid` says.
pub fn render_cells(
    cells: &Vec<String>,
    width: usize,
    height: usize,
    column_delimiter: &str,
    row_delimiter: &str,
) -> (r: String)
    requires
        cells@.len() == width * height,
    ensures
        r@ == render_grid(strings_view(cells@), width as nat, height as nat, column_delimiter@, row_delimiter@),
{
    let ghost lines_spec = Seq::new(
        height as nat,
        |y: int|
            join(
                strings_view(cells@).subrange(y * width, y * width + width),
                column_delimiter@,
            ),
    );
    let total = cells.len();
    let mut lines: Vec<String> = Vec::new();
    let mut y: usize = 0;
    while y < height
        invariant
            y <= height,
            total == cells@.len(),
            cells@.len() == width * height,
            lines_spec.len() == height,
            forall|k: int| 0 <= k < height ==> #[trigger] lines_spec[k] == join(
                strings_view(cells@).subrange(k * width, k * width + width),
                column_delimiter@,
            ),
            strings_view(lines@) == lines_spec.take(y as int),
        decreases height - y,
    {
        assert((y + 1) * width <= width * height) by (nonlinear_arith)
            requires
                y < height,
                width >= 0,
        ;
        assert((y + 1) * width == y * width + width) by (nonlinear_arith);
        let start = y * width;
        let line = join_strings(cells, start, start + width, column_delimiter);
        let ghost before = lines@;
        lines.push(line);
        proof {
            assert(strings_view(lines@) =~= strings_view(before).push(line@));
            assert(lines_spec.take(y + 1) =~= lines_spec.take(y as int).push(lines_spec[y as int]));
        }
        y = y + 1;
    }
    let out = join_strings(&lines, 0, height, row_delimiter);
    proof {
        assert(strings_view(lines@).subrange(0, height as int) =~= lines_spec);
    }
    out
}

} // verus!
