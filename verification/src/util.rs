//! Text-table helpers: left padding, decimal rendering of indices, and the
//! aligned table layout used to pretty-print a matrix of cells.
//!
//! Every column is padded to one more than its widest entry (counting its
//! header and its column number when shown), the whole table is framed by
//! dash lines, and an optional final line shows the column numbers.

use vstd::prelude::*;

verus! {

/// The larger of two integers.
pub open spec fn int_max(a: int, b: int) -> int {
    if a >= b {
        a
    } else {
        b
    }
}

/// A run of `n` spaces.
pub open spec fn spaces(n: nat) -> Seq<char> {
    Seq::new(n, |i: int| ' ')
}

/// `s` left-padded with spaces to `length` characters; `s` itself when it is
/// already at least that long.
pub open spec fn spec_pad_left(s: Seq<char>, length: int) -> Seq<char> {
    if s.len() < length {
        spaces((length - s.len()) as nat) + s
    } else {
        s
    }
}

/// Pads a string on the left with spaces up to `length` characters.
pub fn pad_left(s: &String, length: usize) -> (r: String)
    ensures
        r@ == spec_pad_left(s@, length as int),
{
    let n = s.as_str().unicode_len();
    if n < length {
        let mut r = String::new();
        let mut i: usize = 0;
        while i < length - n
            invariant
                i <= length - n,
                n == s@.len(),
                n < length,
                r@ =~= spaces(i as nat),
            decreases length - n - i,
        {
            proof {
                reveal_strlit(" ");
            }
            r.append(" ");
            proof {
                assert(r@ =~= spaces((i + 1) as nat));
            }
            i = i + 1;
        }
        r.append(s.as_str());
        proof {
            assert(r@ =~= spec_pad_left(s@, length as int));
        }
        r
    } else {
        s.clone()
    }
}

/// The character of one decimal digit.
pub open spec fn dec_digit_char(d: int) -> char {
    if d == 0 {
        '0'
    } else if d == 1 {
        '1'
    } else if d == 2 {
        '2'
    } else if d == 3 {
        '3'
    } else if d == 4 {
        '4'
    } else if d == 5 {
        '5'
    } else if d == 6 {
        '6'
    } else if d == 7 {
        '7'
    } else if d == 8 {
        '8'
    } else {
        '9'
    }
}

/// The usual decimal notation of `n`: no sign, no leading zeroes, a single
/// zero for zero.
pub open spec fn dec_digits(n: nat) -> Seq<char>
    decreases n,
{
    if n < 10 {
        seq![dec_digit_char(n as int)]
    } else {
        dec_digits(n / 10) + seq![dec_digit_char((n % 10) as int)]
    }
}

/// The single-character text of one decimal digit.
fn digit_str(d: usize) -> (r: &'static str)
    requires
        d < 10,
    ensures
        r@ =~= seq![dec_digit_char(d as int)],
{
    proof {
        reveal_strlit("0");
        reveal_strlit("1");
        reveal_strlit("2");
        reveal_strlit("3");
        reveal_strlit("4");
        reveal_strlit("5");
        reveal_strlit("6");
        reveal_strlit("7");
        reveal_strlit("8");
        reveal_strlit("9");
    }
    match d {
        0 => "0",
        1 => "1",
        2 => "2",
        3 => "3",
        4 => "4",
        5 => "5",
        6 => "6",
        7 => "7",
        8 => "8",
        _ => "9",
    }
}

/// Renders `n` in decimal.
pub fn usize_to_string(n: usize) -> (r: String)
    ensures
        r@ == dec_digits(n as nat),
    decreases n,
{
    if n < 10 {
        let mut r = String::new();
        r.append(digit_str(n));
        proof {
            assert(r@ =~= dec_digits(n as nat));
        }
        r
    } else {
        let mut r = usize_to_string(n / 10);
        r.append(digit_str(n % 10));
        proof {
            assert(r@ =~= dec_digits(n as nat));
        }
        r
    }
}

/// The widest entry of column `col` among the first `upto` rows, in
/// characters.
pub open spec fn widest_cell(array: &Vec<Vec<String>>, col: int, upto: int) -> int
    decreases upto,
{
    if upto <= 0 {
        0
    } else {
        int_max(widest_cell(array, col, upto - 1), array@[upto - 1]@[col]@.len() as int)
    }
}

/// The display width of column `col`: one more than its widest entry, at
/// least one more than its column number, and at least one more than its
/// header when headers are shown.
pub open spec fn col_width(array: &Vec<Vec<String>>, headers: Option<&Vec<String>>, col: int) -> int {
    let base = int_max(
        widest_cell(array, col, array@.len() as int) + 1,
        dec_digits(col as nat).len() as int + 1,
    );
    match headers {
        Option::Some(h) => int_max(base, h@[col]@.len() as int + 1),
        Option::None => base,
    }
}

/// The width of the whole table: the column widths of the first `upto`
/// columns added up.
pub open spec fn total_width(array: &Vec<Vec<String>>, headers: Option<&Vec<String>>, upto: int) -> int
    decreases upto,
{
    if upto <= 0 {
        0
    } else {
        total_width(array, headers, upto - 1) + col_width(array, headers, upto - 1)
    }
}

/// A run of `n` dashes.
pub open spec fn dashes(n: nat) -> Seq<char> {
    Seq::new(n, |i: int| '-')
}

/// The first `upto` entries of one row, each padded to its column's width,
/// concatenated.
pub open spec fn spec_row_line(
    array: &Vec<Vec<String>>,
    headers: Option<&Vec<String>>,
    cells: Seq<String>,
    upto: int,
) -> Seq<char>
    decreases upto,
{
    if upto <= 0 {
        Seq::empty()
    } else {
        spec_row_line(array, headers, cells, upto - 1) + spec_pad_left(
            cells[upto - 1]@,
            col_width(array, headers, upto - 1),
        )
    }
}

/// The first `upto` column numbers, each padded to its column's width,
/// concatenated.
pub open spec fn spec_numbers_line(
    array: &Vec<Vec<String>>,
    headers: Option<&Vec<String>>,
    upto: int,
) -> Seq<char>
    decreases upto,
{
    if upto <= 0 {
        Seq::empty()
    } else {
        spec_numbers_line(array, headers, upto - 1) + spec_pad_left(
            dec_digits((upto - 1) as nat),
            col_width(array, headers, upto - 1),
        )
    }
}

/// The first `upto` body rows of the table, each a padded line closed by a
/// newline.
pub open spec fn spec_rows_block(
    array: &Vec<Vec<String>>,
    headers: Option<&Vec<String>>,
    ncols: int,
    upto: int,
) -> Seq<char>
    decreases upto,
{
    if upto <= 0 {
        Seq::empty()
    } else {
        spec_rows_block(array, headers, ncols, upto - 1) + spec_row_line(
            array,
            headers,
            array@[upto - 1]@,
            ncols,
        ) + seq!['\n']
    }
}

/// The whole table: the optional header line, a dash line, the padded body
/// rows, a dash line again, and the optional line of column numbers.
pub open spec fn spec_matrix(
    array: &Vec<Vec<String>>,
    headers: Option<&Vec<String>>,
    display_column_numbers: bool,
) -> Seq<char> {
    let ncols = array@[0]@.len() as int;
    let sep = dashes((total_width(array, headers, ncols) + 1) as nat) + seq!['\n'];
    (match headers {
        Option::Some(h) => spec_row_line(array, headers, h@, ncols) + seq!['\n'],
        Option::None => Seq::empty(),
    }) + sep + spec_rows_block(array, headers, ncols, array@.len() as int) + sep + (
    if display_column_numbers {
        spec_numbers_line(array, headers, ncols) + seq!['\n']
    } else {
        Seq::empty()
    })
}

proof fn lemma_widest_cell_nonneg(array: &Vec<Vec<String>>, col: int, upto: int)
    ensures
        widest_cell(array, col, upto) >= 0,
    decreases upto,
{
    if upto > 0 {
        lemma_widest_cell_nonneg(array, col, upto - 1);
    }
}

proof fn lemma_col_width_pos(array: &Vec<Vec<String>>, headers: Option<&Vec<String>>, col: int)
    ensures
        col_width(array, headers, col) >= 1,
{
    lemma_widest_cell_nonneg(array, col, array@.len() as int);
}

/// Every single column is at most as wide as the whole table.
proof fn lemma_col_le_total(
    array: &Vec<Vec<String>>,
    headers: Option<&Vec<String>>,
    col: int,
    upto: int,
)
    requires
        0 <= col < upto,
    ensures
        col_width(array, headers, col) <= total_width(array, headers, upto),
        total_width(array, headers, upto) >= 0,
    decreases upto,
{
    lemma_col_width_pos(array, headers, upto - 1);
    if col == upto - 1 {
        lemma_total_nonneg(array, headers, upto - 1);
    } else {
        lemma_col_le_total(array, headers, col, upto - 1);
    }
}

proof fn lemma_total_nonneg(array: &Vec<Vec<String>>, headers: Option<&Vec<String>>, upto: int)
    ensures
        total_width(array, headers, upto) >= 0,
    decreases upto,
{
    if upto > 0 {
        lemma_total_nonneg(array, headers, upto - 1);
        lemma_col_width_pos(array, headers, upto - 1);
    }
}

/// Lays a matrix of already-rendered cells out as an aligned text table:
/// every entry left-padded to its column's width, dash lines around the
/// body, an optional header line above and an optional line of column
/// numbers below.
pub fn matrix_to_string(
    array: &Vec<Vec<String>>,
    headers: Option<&Vec<String>>,
    display_column_numbers: bool,
) -> (r: String)
    requires
        array@.len() > 0,
        forall|i: int| 0 <= i < array@.len() ==> (#[trigger] array@[i])@.len() == array@[0]@.len(),
        match headers {
            Option::Some(h) => h@.len() == array@[0]@.len(),
            Option::None => true,
        },
        total_width(array, headers, array@[0]@.len() as int) + 1 < usize::MAX,
    ensures
        r@ == spec_matrix(array, headers, display_column_numbers),
{
    let ncols = array[0].len();
    // column widths
    let mut ws: Vec<usize> = Vec::new();
    let mut col: usize = 0;
    while col < ncols
        invariant
            array@.len() > 0,
            ncols == array@[0]@.len(),
            forall|i: int| 0 <= i < array@.len() ==> (#[trigger] array@[i])@.len() == ncols,
            match headers {
                Option::Some(h) => h@.len() == ncols,
                Option::None => true,
            },
            total_width(array, headers, ncols as int) + 1 < usize::MAX,
            col <= ncols,
            ws@.len() == col,
            forall|k: int| 0 <= k < col ==> #[trigger] ws@[k] as int == col_width(
                array,
                headers,
                k,
            ),
        decreases ncols - col,
    {
        proof {
            lemma_col_le_total(array, headers, col as int, ncols as int);
            lemma_widest_cell_nonneg(array, (col as int), array@.len() as int);
        }
        let mut w: usize = 0;
        let mut i: usize = 0;
        while i < array.len()
            invariant
                ncols == array@[0]@.len(),
                forall|k: int| 0 <= k < array@.len() ==> (#[trigger] array@[k])@.len() == ncols,
                col < ncols,
                i <= array@.len(),
                w as int == widest_cell(array, col as int, i as int),
                widest_cell(array, col as int, array@.len() as int) + 1 < usize::MAX,
            decreases array@.len() - i,
        {
            proof {
                lemma_widest_upto_le(array, col as int, i + 1, array@.len() as int);
            }
            let len = array[i][col].as_str().unicode_len();
            if len > w {
                w = len;
            }
            i = i + 1;
        }
        let digits = usize_to_string(col);
        let dlen = digits.as_str().unicode_len();
        proof {
            assert(col_width(array, headers, col as int) <= total_width(
                array,
                headers,
                ncols as int,
            ));
        }
        let mut cw = w + 1;
        if dlen + 1 > cw {
            cw = dlen + 1;
        }
        if let Option::Some(h) = headers {
            let hlen = h[col].as_str().unicode_len();
            if hlen + 1 > cw {
                cw = hlen + 1;
            }
        }
        proof {
            assert(cw as int == col_width(array, headers, col as int));
        }
        ws.push(cw);
        col = col + 1;
    }
    let mut total: usize = 0;
    let mut col: usize = 0;
    while col < ncols
        invariant
            ncols == array@[0]@.len(),
            total_width(array, headers, ncols as int) + 1 < usize::MAX,
            col <= ncols,
            ws@.len() == ncols,
            forall|k: int| 0 <= k < ncols ==> #[trigger] ws@[k] as int == col_width(
                array,
                headers,
                k,
            ),
            total as int == total_width(array, headers, col as int),
        decreases ncols - col,
    {
        proof {
            lemma_total_mono(array, headers, col as int + 1, ncols as int);
        }
        total = total + ws[col];
        col = col + 1;
    }
    let ghost out = spec_matrix(array, headers, display_column_numbers);
    let mut r = String::new();
    // header line
    if let Option::Some(h) = headers {
        let mut c: usize = 0;
        while c < ncols
            invariant
                ncols == array@[0]@.len(),
                headers == Option::Some(h),
                h@.len() == ncols,
                ws@.len() == ncols,
                forall|k: int| 0 <= k < ncols ==> #[trigger] ws@[k] as int == col_width(
                    array,
                    headers,
                    k,
                ),
                c <= ncols,
                r@ =~= spec_row_line(array, headers, h@, c as int),
            decreases ncols - c,
        {
            let p = pad_left(&h[c], ws[c]);
            r.append(p.as_str());
            c = c + 1;
        }
        proof {
            reveal_strlit("\n");
        }
        r.append("\n");
    }
    // dash separator
    let ghost before_sep = r@;
    let mut d: usize = 0;
    while d < total + 1
        invariant
            total < usize::MAX,
            d <= total + 1,
            r@ =~= before_sep + dashes(d as nat),
        decreases total + 1 - d,
    {
        proof {
            reveal_strlit("-");
        }
        r.append("-");
        proof {
            assert(r@ =~= before_sep + dashes((d + 1) as nat));
        }
        d = d + 1;
    }
    proof {
        reveal_strlit("\n");
    }
    r.append("\n");
    // body rows
    let ghost before_rows = r@;
    let mut i: usize = 0;
    while i < array.len()
        invariant
            ncols == array@[0]@.len(),
            forall|k: int| 0 <= k < array@.len() ==> (#[trigger] array@[k])@.len() == ncols,
            ws@.len() == ncols,
            forall|k: int| 0 <= k < ncols ==> #[trigger] ws@[k] as int == col_width(
                array,
                headers,
                k,
            ),
            i <= array@.len(),
            r@ =~= before_rows + spec_rows_block(array, headers, ncols as int, i as int),
        decreases array@.len() - i,
    {
        let ghost before_line = r@;
        let mut c: usize = 0;
        while c < ncols
            invariant
                ncols == array@[0]@.len(),
                forall|k: int| 0 <= k < array@.len() ==> (#[trigger] array@[k])@.len() == ncols,
                i < array@.len(),
                ws@.len() == ncols,
                forall|k: int| 0 <= k < ncols ==> #[trigger] ws@[k] as int == col_width(
                    array,
                    headers,
                    k,
                ),
                c <= ncols,
                r@ =~= before_line + spec_row_line(array, headers, array@[i as int]@, c as int),
            decreases ncols - c,
        {
            let p = pad_left(&array[i][c], ws[c]);
            r.append(p.as_str());
            c = c + 1;
        }
        proof {
            reveal_strlit("\n");
        }
        r.append("\n");
        proof {
            assert(r@ =~= before_rows + spec_rows_block(
                array,
                headers,
                ncols as int,
                i as int + 1,
            ));
        }
        i = i + 1;
    }
    // dash separator again
    let ghost before_sep2 = r@;
    let mut d: usize = 0;
    while d < total + 1
        invariant
            total < usize::MAX,
            d <= total + 1,
            r@ =~= before_sep2 + dashes(d as nat),
        decreases total + 1 - d,
    {
        proof {
            reveal_strlit("-");
        }
        r.append("-");
        proof {
            assert(r@ =~= before_sep2 + dashes((d + 1) as nat));
        }
        d = d + 1;
    }
    proof {
        reveal_strlit("\n");
    }
    r.append("\n");
    // column numbers
    if display_column_numbers {
        let ghost before_nums = r@;
        let mut c: usize = 0;
        while c < ncols
            invariant
                ncols == array@[0]@.len(),
                ws@.len() == ncols,
                forall|k: int| 0 <= k < ncols ==> #[trigger] ws@[k] as int == col_width(
                    array,
                    headers,
                    k,
                ),
                c <= ncols,
                r@ =~= before_nums + spec_numbers_line(array, headers, c as int),
            decreases ncols - c,
        {
            let digits = usize_to_string(c);
            let p = pad_left(&digits, ws[c]);
            r.append(p.as_str());
            c = c + 1;
        }
        proof {
            reveal_strlit("\n");
        }
        r.append("\n");
    }
    proof {
        assert(total as int == total_width(array, headers, ncols as int));
        assert(r@ =~= out);
    }
    r
}

proof fn lemma_widest_upto_le(array: &Vec<Vec<String>>, col: int, a: int, b: int)
    requires
        0 <= a <= b,
    ensures
        widest_cell(array, col, a) <= widest_cell(array, col, b),
    decreases b - a,
{
    if a < b {
        lemma_widest_upto_le(array, col, a, b - 1);
    }
}

proof fn lemma_total_mono(array: &Vec<Vec<String>>, headers: Option<&Vec<String>>, a: int, b: int)
    requires
        0 <= a <= b,
    ensures
        total_width(array, headers, a) <= total_width(array, headers, b),
    decreases b - a,
{
    if a < b {
        lemma_total_mono(array, headers, a, b - 1);
        lemma_col_width_pos(array, headers, b - 1);
    }
}

} // verus!
