//! The column formatter: words laid out in rows of aligned columns.

use crate::text::{is_white_space, is_word, slice_to_string, split_words, to_chars, views, words};
use vstd::prelude::*;

verus! {

/// The width of a word: the number of bytes of its UTF-8 encoding.
pub open spec fn width_of(word: Seq<char>) -> nat {
    vstd::utf8::encode_utf8(word).len()
}

/// The width of column `column`: the greatest width among the words that
/// stand in it, a word standing in the column that its position leaves as
/// remainder when divided by the number of columns.
pub open spec fn column_width(words: Seq<Seq<char>>, columns: int, column: int) -> nat
    decreases words.len(),
{
    if words.len() == 0 {
        0
    } else {
        let before = column_width(words.drop_last(), columns, column);
        if (words.len() - 1) % columns == column && width_of(words.last()) > before {
            width_of(words.last())
        } else {
            before
        }
    }
}

/// `n` spaces.
pub open spec fn spaces(n: int) -> Seq<char> {
    Seq::new(
        if n > 0 {
            n as nat
        } else {
            0
        },
        |i: int| ' ',
    )
}

/// A word, left-justified: followed by spaces up to `width` characters.
pub open spec fn cell(word: Seq<char>, width: nat) -> Seq<char> {
    word + spaces(width - word.len())
}

/// What follows the cell at position `at` of `count`: a line break after the
/// last column of a row and after the last word of all, else the padding
/// between two columns.
pub open spec fn separator(columns: int, padding: nat, at: int, count: int) -> Seq<char> {
    if at % columns < columns - 1 && at < count - 1 {
        spaces(padding as int)
    } else {
        seq!['\n']
    }
}

/// The first `n` cells, each with what follows it.
pub open spec fn cells(words: Seq<Seq<char>>, columns: int, padding: nat, n: int) -> Seq<char>
    decreases n,
{
    if n <= 0 {
        Seq::empty()
    } else {
        cells(words, columns, padding, n - 1) + cell(
            words[n - 1],
            column_width(words, columns, (n - 1) % columns),
        ) + separator(columns, padding, n - 1, words.len() as int)
    }
}

/// The words laid out in rows of `columns` columns: each word left-justified
/// in its column, padding between the columns of a row, and a line break at
/// the end of each row, the last one included though it be short. No word
/// gives nothing.
pub open spec fn layout(words: Seq<Seq<char>>, columns: int, padding: nat) -> Seq<char> {
    cells(words, columns, padding, words.len() as int)
}

/// No word of a column is wider than the column.
pub proof fn lemma_column_width_bounds(words: Seq<Seq<char>>, columns: int, at: int)
    requires
        columns >= 1,
        0 <= at < words.len(),
    ensures
        width_of(words[at]) <= column_width(words, columns, at % columns),
    decreases words.len(),
{
    if at < words.len() - 1 {
        lemma_column_width_bounds(words.drop_last(), columns, at);
    }
}

/// A column is as wide as one of its words, or has width zero and no word
/// wider than that.
pub proof fn lemma_column_width_attained(words: Seq<Seq<char>>, columns: int, column: int)
    requires
        columns >= 1,
    ensures
        column_width(words, columns, column) == 0 || exists|at: int|
            0 <= at < words.len() && at % columns == column && width_of(#[trigger] words[at])
                == column_width(words, columns, column),
    decreases words.len(),
{
    if words.len() > 0 {
        let before = words.drop_last();
        lemma_column_width_attained(before, columns, column);
        let w = column_width(words, columns, column);
        if w != 0 {
            if w == column_width(before, columns, column) {
                let at = choose|at: int|
                    0 <= at < before.len() && at % columns == column && width_of(
                        #[trigger] before[at],
                    ) == w;
                assert(words[at] == before[at]);
            } else {
                assert(width_of(words[words.len() - 1]) == w);
            }
        }
    }
}

/// Where there is a word, the layout ends with a line break.
pub proof fn lemma_layout_ends_with_line_break(
    words: Seq<Seq<char>>,
    columns: int,
    padding: nat,
)
    requires
        words.len() > 0,
    ensures
        layout(words, columns, padding).len() > 0,
        layout(words, columns, padding).last() == '\n',
{
}

/// Where there is no word, the layout is empty.
pub proof fn lemma_layout_of_nothing(columns: int, padding: nat)
    ensures
        layout(Seq::empty(), columns, padding) == Seq::<char>::empty(),
{
}

/// The layout of words that are not empty and hold no white space ends with
/// one line break and no more: what stands before it is no line break.
pub proof fn lemma_layout_ends_with_one_line_break(
    words: Seq<Seq<char>>,
    columns: int,
    padding: nat,
)
    requires
        words.len() > 0,
        forall|k: int| 0 <= k < words.len() ==> is_word(#[trigger] words[k]),
    ensures
        layout(words, columns, padding).len() >= 2,
        layout(words, columns, padding).last() == '\n',
        layout(words, columns, padding)[layout(words, columns, padding).len() - 2] != '\n',
{
    let n = words.len() as int;
    let word = words[n - 1];
    assert(is_word(word));
    let width = column_width(words, columns, (n - 1) % columns);
    let filled = cell(word, width);
    let body = cells(words, columns, padding, n);
    assert(body == cells(words, columns, padding, n - 1) + filled + seq!['\n']);
    assert(filled.len() > 0);
    assert(filled.last() != '\n') by {
        if width > word.len() {
            assert(filled.last() == ' ');
        } else {
            assert(spaces(width - word.len()).len() == 0);
            assert(filled =~= word);
            assert(!is_white_space(word[word.len() - 1]));
        }
    }
    assert(body[body.len() - 2] == filled.last());
}

/// Lays words out in rows of aligned columns.
#[derive(Clone, Copy, Debug)]
pub struct ColumnFormatter {
    columns_per_row: usize,
    column_padding: usize,
}

impl ColumnFormatter {
    /// The number of columns in a row.
    pub closed spec fn columns(&self) -> nat {
        self.columns_per_row as nat
    }

    /// The number of spaces between two columns.
    pub closed spec fn padding(&self) -> nat {
        self.column_padding as nat
    }

    /// A formatter for rows of `columns_per_row` columns, two spaces apart.
    pub fn new(columns_per_row: usize) -> (r: ColumnFormatter)
        requires
            columns_per_row >= 1,
        ensures
            r.columns() == columns_per_row,
            r.padding() == 2,
    {
        ColumnFormatter { columns_per_row, column_padding: 2 }
    }

    /// The same formatter with `padding` spaces between two columns.
    pub fn with_padding(self, padding: usize) -> (r: ColumnFormatter)
        ensures
            r.columns() == self.columns(),
            r.padding() == padding,
    {
        ColumnFormatter { columns_per_row: self.columns_per_row, column_padding: padding }
    }

    /// The widths of the columns for `words`.
    fn widths(&self, words: &Vec<String>) -> (r: Vec<usize>)
        requires
            self.columns() >= 1,
        ensures
            r@.len() == self.columns(),
            forall|c: int|
                0 <= c < r@.len() ==> r@[c] == column_width(
                    views(words@),
                    self.columns() as int,
                    c,
                ),
    {
        let columns = self.columns_per_row;
        let mut r: Vec<usize> = Vec::new();
        let mut c: usize = 0;
        while c < columns
            invariant
                c <= columns,
                r@.len() == c,
                forall|j: int| 0 <= j < c ==> r@[j] == 0,
            decreases columns - c,
        {
            r.push(0);
            c += 1;
        }
        let ghost all = views(words@);
        let mut i: usize = 0;
        while i < words.len()
            invariant
                i <= words@.len(),
                columns >= 1,
                columns == self.columns(),
                r@.len() == columns,
                all == views(words@),
                forall|j: int|
                    0 <= j < columns ==> r@[j] == column_width(all.take(i as int), columns as int, j),
            decreases words@.len() - i,
        {
            let column = i % columns;
            let width = words[i].as_str().as_bytes().len();
            let ghost before = r@;
            if width > r[column] {
                r.set(column, width);
            }
            proof {
                let next = all.take(i + 1);
                assert(next.drop_last() =~= all.take(i as int));
                assert(next.last() == words@[i as int]@);
                assert(width == width_of(next.last()));
                assert(next.len() - 1 == i);
                assert forall|j: int| 0 <= j < columns implies r@[j] == column_width(
                    next,
                    columns as int,
                    j,
                ) by {
                    assert(before[j] == column_width(next.drop_last(), columns as int, j));
                }
            }
            i += 1;
        }
        proof {
            assert(all.take(i as int) =~= all);
        }
        r
    }

    /// Lays `words` out in rows: each word left-justified in its column,
    /// `padding` spaces between the columns of a row, a line break after the
    /// last column of a row and after the last word. No word gives the empty
    /// string.
    pub fn format_words(&self, words: &Vec<String>) -> (r: String)
        requires
            self.columns() >= 1,
        ensures
            r@ == layout(views(words@), self.columns() as int, self.padding()),
    {
        let n = words.len();
        if n == 0 {
            return String::new();
        }
        let columns = self.columns_per_row;
        let padding = self.column_padding;
        let widths = self.widths(words);
        let ghost all = views(words@);
        let mut out: Vec<char> = Vec::new();
        let mut i: usize = 0;
        while i < n
            invariant
                i <= n == words@.len(),
                columns >= 1,
                columns == self.columns(),
                padding == self.padding(),
                all == views(words@),
                widths@.len() == columns,
                forall|c: int|
                    0 <= c < columns ==> widths@[c] == column_width(all, columns as int, c),
                out@ == cells(all, columns as int, padding as nat, i as int),
            decreases n - i,
        {
            let column = i % columns;
            let chars = to_chars(words[i].as_str());
            let ghost start = out@;
            push_all(&mut out, &chars);
            let fill: usize = if widths[column] > chars.len() {
                widths[column] - chars.len()
            } else {
                0
            };
            push_spaces(&mut out, fill);
            if column < columns - 1 && i < n - 1 {
                push_spaces(&mut out, padding);
            } else {
                out.push('\n');
            }
            proof {
                assert(all[i as int] == chars@);
                assert(out@ =~= start + cell(all[i as int], widths@[column as int] as nat)
                    + separator(columns as int, padding as nat, i as int, n as int));
            }
            i += 1;
        }
        slice_to_string(&out, 0, out.len())
    }

    /// Lays the words of `input` out in rows, as `format_words` does.
    pub fn format(&self, input: &str) -> (r: String)
        requires
            self.columns() >= 1,
        ensures
            r@ == layout(words(input@), self.columns() as int, self.padding()),
    {
        let words = split_words(input);
        self.format_words(&words)
    }
}

/// Appends `chars` to `out`.
fn push_all(out: &mut Vec<char>, chars: &Vec<char>)
    ensures
        final(out)@ == old(out)@ + chars@,
{
    let mut i: usize = 0;
    while i < chars.len()
        invariant
            i <= chars@.len(),
            out@ == old(out)@ + chars@.take(i as int),
        decreases chars@.len() - i,
    {
        out.push(chars[i]);
        proof {
            assert(chars@.take(i + 1) =~= chars@.take(i as int).push(chars@[i as int]));
        }
        i += 1;
    }
    proof {
        assert(chars@.take(i as int) =~= chars@);
    }
}

/// Appends `count` spaces to `out`.
fn push_spaces(out: &mut Vec<char>, count: usize)
    ensures
        final(out)@ == old(out)@ + spaces(count as int),
{
    let mut i: usize = 0;
    while i < count
        invariant
            i <= count,
            out@ == old(out)@ + spaces(i as int),
        decreases count - i,
    {
        out.push(' ');
        proof {
            assert(spaces(i + 1) =~= spaces(i as int).push(' '));
        }
        i += 1;
    }
}

} // verus!
