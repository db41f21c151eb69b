//! Tables of comma-separated cells, one row on each line.

use crate::text::{find, lemma_lines_unfold, lines, split, split_range, strip_cr};
use vstd::prelude::*;

verus! {

/// The cells of one line of a table: the pieces between its commas. Nothing
/// is quoted or escaped, so a comma always ends a cell.
pub open spec fn row_cells(line: Seq<char>) -> Seq<Seq<char>> {
    split(line, ',')
}

/// The rows of the table that `text` holds, one for each line, each with its
/// cells from left to right.
pub open spec fn table_rows(text: Seq<char>) -> Seq<Seq<Seq<char>>> {
    lines(text).map_values(|line: Seq<char>| row_cells(line))
}

/// A row has at least one cell, whatever its line holds.
pub proof fn lemma_row_has_cell(line: Seq<char>)
    ensures
        row_cells(line).len() >= 1,
{
    line.index_of_first_ensures(',');
}

/// Reads the table that `chars` holds into its rows of cells.
pub fn parse_rows(chars: &Vec<char>) -> (rows: Vec<Vec<String>>)
    ensures
        rows.deep_view() == table_rows(chars@),
{
    let len = chars.len();
    let mut rows: Vec<Vec<String>> = Vec::new();
    let mut start: usize = 0;
    let ghost mut done: Seq<Seq<char>> = Seq::empty();
    proof {
        assert(chars@.subrange(0, len as int) =~= chars@);
        assert(rows.deep_view() =~= done.map_values(|line: Seq<char>| row_cells(line)));
    }
    while start < len
        invariant
            start <= len == chars.len(),
            lines(chars@) == done + lines(chars@.subrange(start as int, len as int)),
            rows.deep_view() == done.map_values(|line: Seq<char>| row_cells(line)),
        decreases len - start,
    {
        let ghost rest = chars@.subrange(start as int, len as int);
        let ghost before = rows.deep_view();
        let at = find(chars, start, len, '\n');
        let end = if at < len && start < at && chars[at - 1] == '\r' {
            at - 1
        } else {
            at
        };
        let cells = split_range(chars, start, end, ',');
        let ghost line = chars@.subrange(start as int, end as int);
        rows.push(cells);
        proof {
            lemma_lines_unfold(rest);
            assert(rows.deep_view() =~= before.push(row_cells(line)));
            assert(done.push(line).map_values(|line: Seq<char>| row_cells(line))
                =~= done.map_values(|line: Seq<char>| row_cells(line)).push(row_cells(line)));
            if at < len {
                assert(rest.take(at - start) =~= chars@.subrange(start as int, at as int));
                assert(strip_cr(rest.take(at - start)) =~= line);
                assert(rest.skip(at - start + 1) =~= chars@.subrange(at + 1, len as int));
                assert(lines(chars@) =~= done.push(line) + lines(
                    chars@.subrange(at + 1, len as int),
                ));
            } else {
                assert(line =~= rest);
                lemma_lines_unfold(chars@.subrange(len as int, len as int));
                assert(lines(chars@) =~= done.push(line) + lines(
                    chars@.subrange(len as int, len as int),
                ));
            }
            done = done.push(line);
        }
        start = if at < len {
            at + 1
        } else {
            len
        };
    }
    proof {
        lemma_lines_unfold(chars@.subrange(len as int, len as int));
        assert(lines(chars@) =~= done);
    }
    rows
}

} // verus!
