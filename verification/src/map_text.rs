//! The text format of a map: a header line with the width and the height,
//! then one line of weights for each row.

use crate::grid::Grid;
use crate::text::{
    decimal_text, has_no, has_no_space, lemma_decimal_round_trip, lemma_lines_append,
    lemma_lines_of_line, lemma_words_append, lemma_words_single, lines, parse_number,
    push_decimal, signed_number, split_lines, split_words, views, words,
};
use vstd::prelude::*;

verus! {

/// Why a text is not a map.
#[derive(Clone, Copy, Debug, PartialEq, Eq, Structural)]
pub enum MapError {
    /// The header line is missing or has fewer than two words.
    ShortHeader,
    /// The width or the height is not a number that fits the machine.
    BadHeader,
    /// A weight is not a positive number that fits 32 bits.
    BadWeight,
    /// A row does not have `width` weights.
    RowLength,
    /// The number of rows is not `height`.
    RowCount,
}

/// The size that a header word denotes.
pub open spec fn dimension_of(word: Seq<u8>) -> Option<usize> {
    match signed_number(word, usize::MAX as u64) {
        Some(n) => Some(n as usize),
        None => None,
    }
}

/// The weight that a word denotes: a number from 1 to `u32::MAX`.
pub open spec fn weight_of(word: Seq<u8>) -> Option<u32> {
    match signed_number(word, u32::MAX as u64) {
        Some(n) => if n >= 1 {
            Some(n as u32)
        } else {
            None
        },
        None => None,
    }
}

/// The weights that a list of words denotes, if each of them is a weight.
pub open spec fn weights_of(parts: Seq<Seq<u8>>) -> Option<Seq<u32>>
    decreases parts.len(),
{
    if parts.len() == 0 {
        Some(Seq::empty())
    } else {
        match (weights_of(parts.drop_last()), weight_of(parts.last())) {
            (Some(before), Some(weight)) => Some(before.push(weight)),
            _ => None,
        }
    }
}

/// The row that a line denotes on a map of the given width.
pub open spec fn row_of(line: Seq<u8>, width: usize) -> Result<Seq<u32>, MapError> {
    match weights_of(words(line)) {
        None => Err(MapError::BadWeight),
        Some(row) => if row.len() == width {
            Ok(row)
        } else {
            Err(MapError::RowLength)
        },
    }
}

/// The rows that a list of lines denotes, or the error of the first line that
/// is no row.
pub open spec fn rows_of(list: Seq<Seq<u8>>, width: usize) -> Result<Seq<Seq<u32>>, MapError>
    decreases list.len(),
{
    if list.len() == 0 {
        Ok(Seq::empty())
    } else {
        match rows_of(list.drop_last(), width) {
            Err(e) => Err(e),
            Ok(before) => match row_of(list.last(), width) {
                Err(e) => Err(e),
                Ok(row) => Ok(before.push(row)),
            },
        }
    }
}

/// The width and the height that the first line of a text gives. Words after
/// the second are ignored.
pub open spec fn header_of(text: Seq<u8>) -> Result<(usize, usize), MapError> {
    let head = if lines(text).len() == 0 {
        Seq::empty()
    } else {
        words(lines(text)[0])
    };
    if head.len() < 2 {
        Err(MapError::ShortHeader)
    } else {
        match (dimension_of(head[0]), dimension_of(head[1])) {
            (Some(width), Some(height)) => Ok((width, height)),
            _ => Err(MapError::BadHeader),
        }
    }
}

/// The lines of a text after its header line.
pub open spec fn body_of(text: Seq<u8>) -> Seq<Seq<u8>> {
    lines(text).skip(1)
}

/// The first thing that is wrong with a text as a map: with its header, else
/// with the first line that is no row, else with the number of rows. `None`
/// for a text that is a map.
pub open spec fn map_error(text: Seq<u8>) -> Option<MapError> {
    match header_of(text) {
        Err(e) => Some(e),
        Ok((width, height)) => match rows_of(body_of(text), width) {
            Err(e) => Some(e),
            Ok(rows) => if rows.len() == height {
                None
            } else {
                Some(MapError::RowCount)
            },
        },
    }
}

/// A row as text: its weights in decimal, one space between two of them.
pub open spec fn row_text(row: Seq<u32>) -> Seq<u8>
    decreases row.len(),
{
    if row.len() == 0 {
        Seq::empty()
    } else if row.len() == 1 {
        decimal_text(row.last() as nat)
    } else {
        row_text(row.drop_last()).push(0x20) + decimal_text(row.last() as nat)
    }
}

/// Rows as text: each row on a line of its own, ended by a line feed.
pub open spec fn rows_text(rows: Seq<Seq<u32>>) -> Seq<u8>
    decreases rows.len(),
{
    if rows.len() == 0 {
        Seq::empty()
    } else {
        rows_text(rows.drop_last()) + row_text(rows.last()).push(0x0a)
    }
}

/// A map as text: the width and the height on the first line, then the rows.
pub open spec fn map_text(width: usize, height: usize, rows: Seq<Seq<u32>>) -> Seq<u8> {
    (decimal_text(width as nat).push(0x20) + decimal_text(height as nat)).push(0x0a) + rows_text(
        rows,
    )
}

/// Once some of the first words are no weights, the whole list is none.
pub proof fn lemma_weights_of_prefix(parts: Seq<Seq<u8>>, k: int)
    requires
        0 <= k <= parts.len(),
        weights_of(parts.take(k)).is_none(),
    ensures
        weights_of(parts).is_none(),
    decreases parts.len() - k,
{
    if k < parts.len() {
        assert(parts.take(k + 1).drop_last() =~= parts.take(k));
        lemma_weights_of_prefix(parts, k + 1);
    } else {
        assert(parts.take(k) =~= parts);
    }
}

/// The error of the first lines is the error of the whole list.
pub proof fn lemma_rows_of_prefix(list: Seq<Seq<u8>>, width: usize, k: int)
    requires
        0 <= k <= list.len(),
        rows_of(list.take(k), width).is_err(),
    ensures
        rows_of(list, width) == rows_of(list.take(k), width),
    decreases list.len() - k,
{
    if k < list.len() {
        assert(list.take(k + 1).drop_last() =~= list.take(k));
        lemma_rows_of_prefix(list, width, k + 1);
    } else {
        assert(list.take(k) =~= list);
    }
}

/// The rows that a list of lines denotes are as many as the lines, each
/// `width` long, and hold positive weights only.
pub proof fn lemma_rows_of_shape(list: Seq<Seq<u8>>, width: usize)
    requires
        rows_of(list, width).is_ok(),
    ensures
        rows_of(list, width).unwrap().len() == list.len(),
        forall|r: int|
            0 <= r < list.len() ==> (#[trigger] rows_of(list, width).unwrap()[r]).len() == width,
        forall|r: int, c: int|
            0 <= r < list.len() && 0 <= c < width ==> #[trigger] rows_of(
                list,
                width,
            ).unwrap()[r][c] >= 1,
    decreases list.len(),
{
    if list.len() > 0 {
        lemma_rows_of_shape(list.drop_last(), width);
        lemma_weights_positive(words(list.last()));
    }
}

/// The weights that a list of words denotes are all positive.
pub proof fn lemma_weights_positive(parts: Seq<Seq<u8>>)
    requires
        weights_of(parts).is_some(),
    ensures
        weights_of(parts).unwrap().len() == parts.len(),
        forall|c: int| 0 <= c < parts.len() ==> #[trigger] weights_of(parts).unwrap()[c] >= 1,
    decreases parts.len(),
{
    if parts.len() > 0 {
        lemma_weights_positive(parts.drop_last());
    }
}

/// The words that a row is written in.
pub open spec fn row_words(row: Seq<u32>) -> Seq<Seq<u8>> {
    Seq::new(row.len(), |c: int| decimal_text(row[c] as nat))
}

/// The lines that rows are written on.
pub open spec fn row_lines(rows: Seq<Seq<u32>>) -> Seq<Seq<u8>> {
    Seq::new(rows.len(), |r: int| row_text(rows[r]))
}

/// A number in decimal digits is one word on one line, carries no sign and
/// reads back as that number.
pub proof fn lemma_number_text(n: nat, max: u64)
    requires
        n <= max,
    ensures
        decimal_text(n).len() > 0,
        has_no_space(decimal_text(n)),
        has_no(decimal_text(n), 0x0a),
        signed_number(decimal_text(n), max) == Some(n as u64),
{
    lemma_decimal_round_trip(n);
    let text = decimal_text(n);
    assert(crate::text::is_digit(text[0]));
    assert forall|i: int| 0 <= i < text.len() implies !crate::text::is_space(
        #[trigger] text[i],
    ) && text[i] != 0x0a by {
        assert(crate::text::is_digit(text[i]));
    }
}

/// The text of a row has the numbers of the row as its words and holds no
/// line feed.
pub proof fn lemma_row_text_words(row: Seq<u32>)
    ensures
        words(row_text(row)) == row_words(row),
        has_no(row_text(row), 0x0a),
    decreases row.len(),
{
    if row.len() == 0 {
        assert(words(row_text(row)) =~= row_words(row));
    } else {
        let last = decimal_text(row.last() as nat);
        lemma_number_text(row.last() as nat, u32::MAX as u64);
        lemma_words_single(last);
        if row.len() == 1 {
            assert(row_words(row) =~= seq![last]);
        } else {
            let head = row_text(row.drop_last());
            lemma_row_text_words(row.drop_last());
            let tail = seq![0x20u8] + last;
            assert(row_text(row) =~= head + tail);
            assert(crate::text::is_space(tail[0]));
            lemma_words_append(head, tail, 0);
            assert(row_words(row) =~= row_words(row.drop_last()) + seq![last]);
            assert forall|i: int| 0 <= i < row_text(row).len() implies #[trigger] row_text(
                row,
            )[i] != 0x0a by {
                if i < head.len() {
                    assert(row_text(row)[i] == head[i]);
                } else if i > head.len() {
                    assert(row_text(row)[i] == last[i - head.len() - 1]);
                }
            }
        }
    }
}

/// The words that a row of positive weights is written in denote that row.
pub proof fn lemma_row_words_weights(row: Seq<u32>)
    requires
        forall|c: int| 0 <= c < row.len() ==> #[trigger] row[c] >= 1,
    ensures
        weights_of(row_words(row)) == Some(row),
    decreases row.len(),
{
    if row.len() == 0 {
        assert(row =~= Seq::<u32>::empty());
    } else {
        lemma_row_words_weights(row.drop_last());
        assert(row_words(row).drop_last() =~= row_words(row.drop_last()));
        assert(row_words(row).last() == decimal_text(row.last() as nat));
        lemma_number_text(row.last() as nat, u32::MAX as u64);
        assert(row[row.len() - 1] >= 1);
        assert(row.drop_last().push(row.last()) =~= row);
    }
}

/// The text of rows has the texts of the rows as its lines, and is empty or
/// ends in a line feed.
pub proof fn lemma_rows_text_lines(rows: Seq<Seq<u32>>)
    ensures
        lines(rows_text(rows)) == row_lines(rows),
        rows_text(rows).len() == 0 || rows_text(rows).last() == 0x0a,
    decreases rows.len(),
{
    if rows.len() == 0 {
        assert(lines(rows_text(rows)) =~= row_lines(rows));
    } else {
        let head = rows_text(rows.drop_last());
        let line = row_text(rows.last());
        lemma_rows_text_lines(rows.drop_last());
        lemma_row_text_words(rows.last());
        lemma_lines_of_line(line, Seq::<u8>::empty());
        assert(line.push(0x0a) + Seq::<u8>::empty() =~= line.push(0x0a));
        assert(seq![line] + lines(Seq::<u8>::empty()) =~= seq![line]);
        lemma_lines_append(head, line.push(0x0a), 0);
        assert(row_lines(rows) =~= row_lines(rows.drop_last()) + seq![line]);
    }
}

/// The lines that rows of positive weights are written on denote those rows.
pub proof fn lemma_row_lines_rows(rows: Seq<Seq<u32>>, width: usize)
    requires
        forall|r: int| 0 <= r < rows.len() ==> (#[trigger] rows[r]).len() == width,
        forall|r: int, c: int| 0 <= r < rows.len() && 0 <= c < width ==> #[trigger] rows[r][c] >= 1,
    ensures
        rows_of(row_lines(rows), width) == Ok::<Seq<Seq<u32>>, MapError>(rows),
    decreases rows.len(),
{
    if rows.len() == 0 {
        assert(rows =~= Seq::<Seq<u32>>::empty());
    } else {
        let last = rows.last();
        lemma_row_lines_rows(rows.drop_last(), width);
        assert(row_lines(rows).drop_last() =~= row_lines(rows.drop_last()));
        assert(row_lines(rows).last() == row_text(last));
        lemma_row_text_words(last);
        assert forall|c: int| 0 <= c < last.len() implies #[trigger] last[c] >= 1 by {
            assert(rows[rows.len() - 1][c] >= 1);
        }
        lemma_row_words_weights(last);
        assert(rows.drop_last().push(last) =~= rows);
    }
}

/// What is written of a map reads back as that map: the text of a table of
/// `height` rows of `width` positive weights has no fault, its header gives
/// the width and the height, and its lines give the rows.
pub proof fn lemma_map_round_trip(width: usize, height: usize, rows: Seq<Seq<u32>>)
    requires
        rows.len() == height,
        forall|r: int| 0 <= r < rows.len() ==> (#[trigger] rows[r]).len() == width,
        forall|r: int, c: int| 0 <= r < rows.len() && 0 <= c < width ==> #[trigger] rows[r][c] >= 1,
    ensures
        header_of(map_text(width, height, rows)) == Ok::<(usize, usize), MapError>(
            (width, height),
        ),
        rows_of(body_of(map_text(width, height, rows)), width) == Ok::<Seq<Seq<u32>>, MapError>(
            rows,
        ),
        map_error(map_text(width, height, rows)).is_none(),
{
    let first = decimal_text(width as nat);
    let second = decimal_text(height as nat);
    let head = first.push(0x20) + second;
    let text = map_text(width, height, rows);
    lemma_number_text(width as nat, usize::MAX as u64);
    lemma_number_text(height as nat, usize::MAX as u64);
    lemma_words_single(first);
    lemma_words_single(second);
    let tail = seq![0x20u8] + second;
    assert(head =~= first + tail);
    assert(crate::text::is_space(tail[0]));
    lemma_words_append(first, tail, 0);
    assert(words(head) =~= seq![first, second]);
    assert forall|i: int| 0 <= i < head.len() implies #[trigger] head[i] != 0x0a by {
        if i < first.len() {
            assert(head[i] == first[i]);
        } else if i > first.len() {
            assert(head[i] == second[i - first.len() - 1]);
        }
    }
    lemma_lines_of_line(head, rows_text(rows));
    lemma_rows_text_lines(rows);
    assert(lines(text) =~= seq![head] + row_lines(rows));
    assert(lines(text)[0] == head);
    assert(body_of(text) =~= row_lines(rows));
    lemma_row_lines_rows(rows, width);
}

/// Reads one row of weights from a line: a weight that is no positive number
/// is reported before a wrong number of weights.
pub fn parse_row(line: &[u8], width: usize) -> (parsed: Result<Vec<u32>, MapError>)
    ensures
        match parsed {
            Ok(row) => row_of(line@, width) == Ok::<Seq<u32>, MapError>(row@),
            Err(e) => row_of(line@, width) == Err::<Seq<u32>, MapError>(e),
        },
{
    let parts = split_words(line);
    let ghost all = words(line@);
    let mut row: Vec<u32> = Vec::new();
    let mut j: usize = 0;
    while j < parts.len()
        invariant
            all == words(line@),
            views(parts@) == all,
            j <= parts@.len(),
            weights_of(all.take(j as int)) == Some(row@),
        decreases parts@.len() - j,
    {
        let word = parts[j];
        assert(word@ == views(parts@)[j as int]);
        assert(all.take(j + 1).drop_last() =~= all.take(j as int));
        assert(all.take(j + 1).last() == word@);
        match parse_number(word, u32::MAX as u64) {
            Some(n) => {
                if n < 1 {
                    proof {
                        assert(weight_of(word@).is_none());
                        assert(weights_of(all.take(j + 1)).is_none());
                        lemma_weights_of_prefix(all, j + 1);
                    }
                    return Err(MapError::BadWeight);
                }
                row.push(n as u32);
            },
            None => {
                proof {
                    assert(weight_of(word@).is_none());
                    assert(weights_of(all.take(j + 1)).is_none());
                    lemma_weights_of_prefix(all, j + 1);
                }
                return Err(MapError::BadWeight);
            },
        }
        j = j + 1;
    }
    assert(all.take(j as int) =~= all);
    if row.len() == width {
        Ok(row)
    } else {
        Err(MapError::RowLength)
    }
}

/// Writes a map as text: the width and the height on the first line, then
/// each row on a line of its own, with one space between two numbers.
pub fn render_map(grid: &Grid) -> (out: Vec<u8>)
    ensures
        out@ == map_text(grid.width, grid.height, grid@),
{
    let mut out: Vec<u8> = Vec::new();
    push_decimal(&mut out, grid.width as u64);
    out.push(0x20);
    push_decimal(&mut out, grid.height as u64);
    out.push(0x0a);
    let ghost head = out@;
    assert(head =~= (decimal_text(grid.width as nat).push(0x20) + decimal_text(
        grid.height as nat,
    )).push(0x0a));
    assert(head + rows_text(grid@.take(0)) =~= head);
    let mut r: usize = 0;
    while r < grid.tiles.len()
        invariant
            r <= grid.tiles@.len(),
            out@ == head + rows_text(grid@.take(r as int)),
        decreases grid.tiles@.len() - r,
    {
        let row = &grid.tiles[r];
        let ghost before = out@;
        assert(before + row_text(row@.take(0)) =~= before);
        let mut c: usize = 0;
        while c < row.len()
            invariant
                c <= row@.len(),
                out@ == before + row_text(row@.take(c as int)),
            decreases row@.len() - c,
        {
            if c > 0 {
                out.push(0x20);
            }
            push_decimal(&mut out, row[c] as u64);
            proof {
                assert(row@.take(c + 1).drop_last() =~= row@.take(c as int));
                assert(row@.take(c + 1).last() == row@[c as int]);
                assert(out@ =~= before + row_text(row@.take(c + 1)));
            }
            c = c + 1;
        }
        out.push(0x0a);
        proof {
            assert(row@.take(c as int) =~= row@);
            assert(grid@.take(r + 1).drop_last() =~= grid@.take(r as int));
            assert(grid@.take(r + 1).last() == row@);
            assert(out@ =~= head + rows_text(grid@.take(r + 1)));
        }
        r = r + 1;
    }
    assert(grid@.take(r as int) =~= grid@);
    out
}

/// Reads a map from its text. The first line gives the width and the height,
/// each a number in decimal digits that may carry a `+`; further words on
/// that line are passed over. Every line after it is a row of `width`
/// weights, numbers from 1 to `u32::MAX`, and there are `height` of them.
/// White space separates words; a line feed ends a line, and the last line
/// needs none. The first fault in reading order is the error.
pub fn parse_map(text: &[u8]) -> (loaded: Result<Grid, MapError>)
    ensures
        match loaded {
            Ok(grid) => {
                &&& map_error(text@).is_none()
                &&& header_of(text@) == Ok::<(usize, usize), MapError>((grid.width, grid.height))
                &&& rows_of(body_of(text@), grid.width) == Ok::<Seq<Seq<u32>>, MapError>(grid@)
                &&& grid.rectangular()
                &&& grid.width >= 1 && grid.height >= 1 ==> grid.wf()
            },
            Err(e) => map_error(text@) == Some(e),
        },
{
    let list = split_lines(text);
    if list.len() == 0 {
        return Err(MapError::ShortHeader);
    }
    let head = split_words(list[0]);
    assert(list@[0]@ == views(list@)[0]);
    if head.len() < 2 {
        return Err(MapError::ShortHeader);
    }
    assert(head@[0]@ == views(head@)[0]);
    assert(head@[1]@ == views(head@)[1]);
    let width: usize = match parse_number(head[0], usize::MAX as u64) {
        Some(n) => n as usize,
        None => {
            return Err(MapError::BadHeader);
        },
    };
    let height: usize = match parse_number(head[1], usize::MAX as u64) {
        Some(n) => n as usize,
        None => {
            return Err(MapError::BadHeader);
        },
    };
    let ghost body = body_of(text@);
    let mut tiles: Vec<Vec<u32>> = Vec::new();
    let mut i: usize = 1;
    while i < list.len()
        invariant
            views(list@) == lines(text@),
            body == body_of(text@),
            header_of(text@) == Ok::<(usize, usize), MapError>((width, height)),
            1 <= i <= list@.len(),
            tiles@.len() == i - 1,
            rows_of(body.take(i - 1), width).is_ok(),
            rows_of(body.take(i - 1), width).unwrap().len() == i - 1,
            forall|r: int|
                0 <= r < i - 1 ==> (#[trigger] tiles@[r])@ == rows_of(
                    body.take(i - 1),
                    width,
                ).unwrap()[r],
        decreases list@.len() - i,
    {
        let line = list[i];
        assert(line@ == views(list@)[i as int]);
        assert(body[i - 1] == line@);
        assert(body.take(i as int).drop_last() =~= body.take(i - 1));
        assert(body.take(i as int).last() == line@);
        match parse_row(line, width) {
            Ok(row) => {
                tiles.push(row);
            },
            Err(e) => {
                proof {
                    assert(rows_of(body.take(i as int), width) == Err::<Seq<Seq<u32>>, MapError>(e));
                    lemma_rows_of_prefix(body, width, i as int);
                }
                return Err(e);
            },
        }
        i = i + 1;
    }
    assert(body.take(i - 1) =~= body);
    if tiles.len() != height {
        return Err(MapError::RowCount);
    }
    let grid = Grid { width, height, tiles };
    proof {
        lemma_rows_of_shape(body, width);
        assert(grid@ =~= rows_of(body, width).unwrap());
    }
    Ok(grid)
}

} // verus!
