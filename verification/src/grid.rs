//! The topography grid: a rectangular array of altitude codes parsed from
//! a newline-delimited text block of lowercase letters and the two
//! sentinels `S` (start) and `E` (end).

use vstd::prelude::*;
use vstd::slice::{slice_subrange, slice_to_vec};

verus! {

/// The failures the grid pipeline can report.
#[derive(Clone, Copy, Debug, PartialEq, Eq, Structural)]
pub enum GridError {
    /// A line holds a byte outside `a..=z`, `S`, `E`.
    InvalidCharacter,
    /// The grid is empty, or its rows do not all have the same length.
    MalformedGrid,
    /// The canvas extent is too small to give every tile a positive size.
    DegenerateCanvas,
}

/// Whitespace that trimming removes: space, tab, carriage return, and,
/// when `nl` is set, the line feed as well.
pub open spec fn is_ws(b: u8, nl: bool) -> bool {
    b == 32 || b == 9 || b == 13 || (nl && b == 10)
}

/// `s` without its leading whitespace.
pub open spec fn trim_front(s: Seq<u8>, nl: bool) -> Seq<u8>
    decreases s.len(),
{
    if s.len() > 0 && is_ws(s.first(), nl) {
        trim_front(s.drop_first(), nl)
    } else {
        s
    }
}

/// `s` without its trailing whitespace.
pub open spec fn trim_back(s: Seq<u8>, nl: bool) -> Seq<u8>
    decreases s.len(),
{
    if s.len() > 0 && is_ws(s.last(), nl) {
        trim_back(s.drop_last(), nl)
    } else {
        s
    }
}

/// `s` without leading and trailing whitespace.
pub open spec fn spec_trim(s: Seq<u8>, nl: bool) -> Seq<u8> {
    trim_back(trim_front(s, nl), nl)
}

/// The index of the first line feed in `s`, or `s.len()` if there is none.
pub open spec fn find_nl(s: Seq<u8>) -> nat
    decreases s.len(),
{
    if s.len() == 0 {
        0
    } else if s.first() == 10 {
        0
    } else {
        1 + find_nl(s.drop_first())
    }
}

/// `find_nl` finds exactly the first line feed.
proof fn lemma_find_nl_at(s: Seq<u8>, i: int)
    requires
        0 <= i <= s.len(),
        forall|j: int| 0 <= j < i ==> s[j] != 10,
        i < s.len() ==> s[i] == 10,
    ensures
        find_nl(s) == i,
    decreases s.len(),
{
    if i > 0 {
        assert(s[0] != 10);
        lemma_find_nl_at(s.drop_first(), i - 1);
    }
}

/// The lines of `s`, split at each line feed; empty input has no lines.
pub open spec fn split_lines(s: Seq<u8>) -> Seq<Seq<u8>>
    decreases s.len(),
{
    if s.len() == 0 {
        Seq::empty()
    } else {
        let i = find_nl(s) as int;
        if i >= s.len() {
            seq![s]
        } else {
            seq![s.subrange(0, i)] + split_lines(s.subrange(i + 1, s.len() as int))
        }
    }
}

/// The rows of the input text: the whole input trimmed, split into lines,
/// each line trimmed in turn.
pub open spec fn trimmed_lines(input: Seq<u8>) -> Seq<Seq<u8>> {
    split_lines(spec_trim(input, true)).map_values(|l: Seq<u8>| spec_trim(l, false))
}

/// The byte values accepted inside a row: `S`, `E`, or a lowercase letter.
pub open spec fn valid_cell_byte(b: u8) -> bool {
    b == 83 || b == 69 || (97 <= b && b <= 122)
}

/// The altitude code a row byte stands for: `S` is 254, `E` is 255, a
/// lowercase letter is its zero-based position in the alphabet.
pub open spec fn altitude_of(b: u8) -> u8 {
    if b == 83 {
        254u8
    } else if b == 69 {
        255u8
    } else {
        (b - 97) as u8
    }
}

/// An altitude code a well-formed grid may hold.
pub open spec fn valid_code(c: u8) -> bool {
    c <= 25 || c == 254 || c == 255
}

/// Whether every byte of a row is one the mapping accepts.
pub open spec fn row_valid(line: Seq<u8>) -> bool {
    forall|i: int| 0 <= i < line.len() ==> valid_cell_byte(#[trigger] line[i])
}

/// The altitude codes of one row of input bytes.
pub open spec fn row_codes(line: Seq<u8>) -> Seq<u8> {
    line.map_values(|b: u8| altitude_of(b))
}

/// What parsing returns: the trimmed lines mapped to altitude codes, or
/// the first applicable error. An empty input is malformed; a byte outside
/// the accepted set is an invalid character; rows of unequal (or zero)
/// length are malformed.
pub open spec fn spec_parse(input: Seq<u8>) -> Result<Seq<Seq<u8>>, GridError> {
    let rows = trimmed_lines(input);
    if rows.len() == 0 {
        Err(GridError::MalformedGrid)
    } else if exists|i: int| 0 <= i < rows.len() && !row_valid(#[trigger] rows[i]) {
        Err(GridError::InvalidCharacter)
    } else if rows[0].len() == 0 || exists|i: int|
        0 <= i < rows.len() && (#[trigger] rows[i]).len() != rows[0].len() {
        Err(GridError::MalformedGrid)
    } else {
        Ok(rows.map_values(|l: Seq<u8>| row_codes(l)))
    }
}

/// Whether one byte is trimmable whitespace.
fn is_ws_exec(b: u8, nl: bool) -> (r: bool)
    ensures
        r == is_ws(b, nl),
{
    b == 32 || b == 9 || b == 13 || (nl && b == 10)
}

/// The bounds of `s` once trimmed: `spec_trim(s@, nl)` is `s@` between them.
fn trim_bounds(s: &[u8], nl: bool) -> (r: (usize, usize))
    ensures
        r.0 <= r.1 <= s@.len(),
        spec_trim(s@, nl) == s@.subrange(r.0 as int, r.1 as int),
{
    let len: usize = s.len();
    proof {
        assert(s@.subrange(0, len as int) =~= s@);
    }
    let mut lo: usize = 0;
    while lo < len && is_ws_exec(s[lo], nl)
        invariant
            lo <= len,
            len == s@.len(),
            trim_front(s@, nl) == trim_front(s@.subrange(lo as int, len as int), nl),
        decreases len - lo,
    {
        proof {
            let sub = s@.subrange(lo as int, len as int);
            assert(sub.first() == s@[lo as int]);
            assert(sub.drop_first() =~= s@.subrange(lo as int + 1, len as int));
        }
        lo += 1;
    }
    proof {
        let sub = s@.subrange(lo as int, len as int);
        if lo < len {
            assert(sub.first() == s@[lo as int]);
        }
        assert(trim_front(s@, nl) == sub);
    }
    let mut hi: usize = len;
    while hi > lo && is_ws_exec(s[hi - 1], nl)
        invariant
            lo <= hi <= len,
            len == s@.len(),
            trim_front(s@, nl) == s@.subrange(lo as int, len as int),
            trim_back(s@.subrange(lo as int, len as int), nl) == trim_back(
                s@.subrange(lo as int, hi as int),
                nl,
            ),
        decreases hi,
    {
        proof {
            let sub = s@.subrange(lo as int, hi as int);
            assert(sub.last() == s@[hi as int - 1]);
            assert(sub.drop_last() =~= s@.subrange(lo as int, hi as int - 1));
        }
        hi -= 1;
    }
    proof {
        let sub = s@.subrange(lo as int, hi as int);
        if hi > lo {
            assert(sub.last() == s@[hi as int - 1]);
        }
        assert(trim_back(s@.subrange(lo as int, len as int), nl) == sub);
    }
    (lo, hi)
}

/// The lines of `s`, split at each line feed.
fn split_lines_exec(s: &[u8]) -> (r: Vec<Vec<u8>>)
    ensures
        r@.map_values(|v: Vec<u8>| v@) == split_lines(s@),
{
    let len: usize = s.len();
    let mut out: Vec<Vec<u8>> = Vec::new();
    let mut pos: usize = 0;
    proof {
        assert(s@.subrange(0, len as int) =~= s@);
        assert(out@.map_values(|v: Vec<u8>| v@) + split_lines(s@) =~= split_lines(s@));
    }
    while pos < len
        invariant
            pos <= len,
            len == s@.len(),
            split_lines(s@) == out@.map_values(|v: Vec<u8>| v@) + split_lines(
                s@.subrange(pos as int, len as int),
            ),
        decreases len - pos,
    {
        let ghost rem = s@.subrange(pos as int, len as int);
        let ghost prev = out@;
        let mut k: usize = pos;
        while k < len && s[k] != 10
            invariant
                pos <= k <= len,
                len == s@.len(),
                forall|j: int| pos <= j < k ==> s@[j] != 10,
            decreases len - k,
        {
            k += 1;
        }
        proof {
            assert forall|j: int| 0 <= j < k - pos implies rem[j] != 10 by {
                assert(rem[j] == s@[pos + j]);
            }
            if k < len {
                assert(rem[k as int - pos as int] == s@[k as int]);
            }
            lemma_find_nl_at(rem, k as int - pos as int);
        }
        let line: Vec<u8> = slice_to_vec(slice_subrange(s, pos, k));
        proof {
            assert(line@ =~= rem.subrange(0, k as int - pos as int));
        }
        out.push(line);
        proof {
            let f = |v: Vec<u8>| v@;
            assert(out@.map_values(f) =~= prev.map_values(f).push(line@));
            if k < len {
                assert(rem.subrange(k as int - pos as int + 1, rem.len() as int) =~= s@.subrange(
                    k as int + 1,
                    len as int,
                ));
                assert(split_lines(rem) == seq![line@] + split_lines(
                    s@.subrange(k as int + 1, len as int),
                ));
                assert(prev.map_values(f) + split_lines(rem) =~= out@.map_values(f) + split_lines(
                    s@.subrange(k as int + 1, len as int),
                ));
            } else {
                assert(line@ =~= rem);
                assert(split_lines(rem) == seq![rem]);
                assert(split_lines(s@.subrange(len as int, len as int)) == Seq::<Seq<u8>>::empty());
                assert(prev.map_values(f) + split_lines(rem) =~= out@.map_values(f) + split_lines(
                    s@.subrange(len as int, len as int),
                ));
            }
        }
        pos = if k < len {
            k + 1
        } else {
            len
        };
    }
    proof {
        assert(split_lines(s@.subrange(len as int, len as int)) == Seq::<Seq<u8>>::empty());
        assert(out@.map_values(|v: Vec<u8>| v@) + Seq::<Seq<u8>>::empty() =~= out@.map_values(
            |v: Vec<u8>| v@,
        ));
    }
    out
}

/// The altitude code of one accepted byte.
fn code_of_byte(b: u8) -> (c: u8)
    requires
        valid_cell_byte(b),
    ensures
        c == altitude_of(b),
{
    if b == 83 {
        254
    } else if b == 69 {
        255
    } else {
        b - 97
    }
}

/// Parses an input text into a rectangular grid of altitude codes, or
/// reports the first applicable failure, exactly as `spec_parse` says.
pub fn parse_grid(input: &[u8]) -> (r: Result<Grid, GridError>)
    ensures
        match r {
            Ok(g) => g.wf() && spec_parse(input@) == Ok::<Seq<Seq<u8>>, GridError>(g@),
            Err(e) => spec_parse(input@) == Err::<Seq<Seq<u8>>, GridError>(e),
        },
{
    let ghost f = |v: Vec<u8>| v@;
    let ghost tl = trimmed_lines(input@);
    let bounds: (usize, usize) = trim_bounds(input, true);
    let t: &[u8] = slice_subrange(input, bounds.0, bounds.1);
    let lines: Vec<Vec<u8>> = split_lines_exec(t);
    let mut rows: Vec<Vec<u8>> = Vec::new();
    let mut i: usize = 0;
    while i < lines.len()
        invariant
            i <= lines@.len(),
            tl == trimmed_lines(input@),
            lines@.map_values(|v: Vec<u8>| v@) == split_lines(spec_trim(input@, true)),
            tl.len() == lines@.len(),
            rows@.len() == i,
            forall|j: int| 0 <= j < i ==> (#[trigger] rows@[j])@ == tl[j],
        decreases lines@.len() - i,
    {
        let line_ref: &Vec<u8> = &lines[i];
        proof {
            assert(lines@.map_values(|v: Vec<u8>| v@)[i as int] == line_ref@);
        }
        let lb: (usize, usize) = trim_bounds(line_ref.as_slice(), false);
        let tr: Vec<u8> = slice_to_vec(slice_subrange(line_ref.as_slice(), lb.0, lb.1));
        rows.push(tr);
        i += 1;
    }
    if rows.len() == 0 {
        return Err(GridError::MalformedGrid);
    }
    let mut r1: usize = 0;
    while r1 < rows.len()
        invariant
            tl == trimmed_lines(input@),
            tl.len() == rows@.len(),
            rows@.len() >= 1,
            r1 <= rows@.len(),
            forall|j: int| 0 <= j < rows@.len() ==> (#[trigger] rows@[j])@ == tl[j],
            forall|j: int| 0 <= j < r1 ==> row_valid(#[trigger] tl[j]),
        decreases rows@.len() - r1,
    {
        let row_ref: &Vec<u8> = &rows[r1];
        let mut j: usize = 0;
        while j < row_ref.len()
            invariant
                j <= row_ref@.len(),
                row_ref@ == tl[r1 as int],
                0 <= r1 < tl.len(),
                tl == trimmed_lines(input@),
                tl.len() == rows@.len() >= 1,
                forall|q: int| 0 <= q < j ==> valid_cell_byte(#[trigger] row_ref@[q]),
            decreases row_ref@.len() - j,
        {
            let b: u8 = row_ref[j];
            if !(b == 83 || b == 69 || (97 <= b && b <= 122)) {
                proof {
                    assert(!row_valid(tl[r1 as int]));
                }
                return Err(GridError::InvalidCharacter);
            }
            j += 1;
        }
        proof {
            assert(row_valid(tl[r1 as int]));
        }
        r1 += 1;
    }
    let c0: usize = rows[0].len();
    proof {
        assert(tl[0].len() == c0);
    }
    if c0 == 0 {
        return Err(GridError::MalformedGrid);
    }
    let mut r2: usize = 0;
    while r2 < rows.len()
        invariant
            tl == trimmed_lines(input@),
            tl.len() == rows@.len() >= 1,
            r2 <= rows@.len(),
            c0 == tl[0].len(),
            c0 >= 1,
            forall|j: int| 0 <= j < rows@.len() ==> (#[trigger] rows@[j])@ == tl[j],
            forall|j: int| 0 <= j < rows@.len() ==> row_valid(#[trigger] tl[j]),
            forall|j: int| 0 <= j < r2 ==> (#[trigger] tl[j]).len() == c0,
        decreases rows@.len() - r2,
    {
        if rows[r2].len() != c0 {
            proof {
                assert(tl[r2 as int].len() != tl[0].len());
            }
            return Err(GridError::MalformedGrid);
        }
        r2 += 1;
    }
    let mut cells: Vec<Vec<u8>> = Vec::new();
    let mut r3: usize = 0;
    while r3 < rows.len()
        invariant
            tl == trimmed_lines(input@),
            tl.len() == rows@.len() >= 1,
            r3 <= rows@.len(),
            c0 == tl[0].len(),
            c0 >= 1,
            forall|j: int| 0 <= j < rows@.len() ==> (#[trigger] rows@[j])@ == tl[j],
            forall|j: int| 0 <= j < rows@.len() ==> row_valid(#[trigger] tl[j]),
            forall|j: int| 0 <= j < rows@.len() ==> (#[trigger] tl[j]).len() == c0,
            cells@.len() == r3,
            forall|j: int| 0 <= j < r3 ==> (#[trigger] cells@[j])@ == row_codes(tl[j]),
        decreases rows@.len() - r3,
    {
        let row_ref: &Vec<u8> = &rows[r3];
        let mut line: Vec<u8> = Vec::new();
        let mut j: usize = 0;
        while j < row_ref.len()
            invariant
                j <= row_ref@.len(),
                row_ref@ == tl[r3 as int],
                0 <= r3 < tl.len(),
                row_valid(tl[r3 as int]),
                line@.len() == j,
                forall|q: int| 0 <= q < j ==> #[trigger] line@[q] == altitude_of(row_ref@[q]),
            decreases row_ref@.len() - j,
        {
            let b: u8 = row_ref[j];
            line.push(code_of_byte(b));
            j += 1;
        }
        proof {
            assert(line@ =~= row_codes(tl[r3 as int]));
        }
        cells.push(line);
        r3 += 1;
    }
    let g = Grid { cells };
    proof {
        assert(g@ =~= tl.map_values(|l: Seq<u8>| row_codes(l)));
        assert forall|a: int, b: int|
            0 <= a < g@.len() && 0 <= b < g@[a].len() implies valid_code(#[trigger] g@[a][b]) by {
            assert(g@[a][b] == altitude_of(tl[a][b]));
            assert(valid_cell_byte(tl[a][b]));
        }
        assert(g.wf());
    }
    Ok(g)
}

/// A well-shaped input parses to a grid of exactly its shape: when the
/// trimmed lines number at least one, hold only accepted bytes, and all
/// share one positive length, parsing succeeds and returns one grid row
/// per line, each of that same length.
pub proof fn lemma_parse_shape(input: Seq<u8>)
    requires
        trimmed_lines(input).len() >= 1,
        forall|i: int|
            0 <= i < trimmed_lines(input).len() ==> row_valid(#[trigger] trimmed_lines(input)[i]),
        trimmed_lines(input)[0].len() >= 1,
        forall|i: int|
            0 <= i < trimmed_lines(input).len() ==> (#[trigger] trimmed_lines(input)[i]).len()
                == trimmed_lines(input)[0].len(),
    ensures
        spec_parse(input) == Ok::<Seq<Seq<u8>>, GridError>(
            trimmed_lines(input).map_values(|l: Seq<u8>| row_codes(l)),
        ),
        spec_parse(input)->Ok_0.len() == trimmed_lines(input).len(),
        forall|i: int|
            0 <= i < trimmed_lines(input).len() ==> (#[trigger] spec_parse(input)->Ok_0[i]).len()
                == trimmed_lines(input)[0].len(),
{
}

/// A lowercase letter's altitude is its zero-based place in the alphabet.
pub proof fn lemma_letter_altitude(b: u8)
    requires
        97 <= b <= 122,
    ensures
        altitude_of(b) == b - 97,
{
}

/// Each parsed cell's altitude comes from its input byte alone, wherever
/// the cell stands in the grid: a lowercase letter gives its zero-based
/// alphabet position, `S` always gives 254, and `E` always gives 255.
pub proof fn lemma_cell_altitude(input: Seq<u8>, g: Seq<Seq<u8>>, i: int, j: int)
    requires
        spec_parse(input) == Ok::<Seq<Seq<u8>>, GridError>(g),
        0 <= i < trimmed_lines(input).len(),
        0 <= j < trimmed_lines(input)[i].len(),
    ensures
        g.len() == trimmed_lines(input).len(),
        g[i].len() == trimmed_lines(input)[i].len(),
        g[i][j] == altitude_of(trimmed_lines(input)[i][j]),
        97 <= trimmed_lines(input)[i][j] <= 122 ==> g[i][j] == trimmed_lines(input)[i][j] - 97,
        trimmed_lines(input)[i][j] == 83 ==> g[i][j] == 254,
        trimmed_lines(input)[i][j] == 69 ==> g[i][j] == 255,
{
}

/// Parsing is a pure function of the input text: equal texts parse to
/// equal results, so parsing the same text twice yields identical grids.
pub proof fn lemma_parse_deterministic(a: Seq<u8>, b: Seq<u8>)
    requires
        a == b,
    ensures
        spec_parse(a) == spec_parse(b),
{
}

/// A rectangular grid of altitude codes.
pub struct Grid {
    pub cells: Vec<Vec<u8>>,
}

impl View for Grid {
    type V = Seq<Seq<u8>>;

    open spec fn view(&self) -> Seq<Seq<u8>> {
        self.cells@.map_values(|r: Vec<u8>| r@)
    }
}

impl Grid {
    /// Non-empty, rectangular, and every cell a valid altitude code.
    pub open spec fn wf(&self) -> bool {
        &&& self@.len() >= 1
        &&& self@[0].len() >= 1
        &&& forall|i: int| 0 <= i < self@.len() ==> (#[trigger] self@[i]).len() == self@[0].len()
        &&& forall|i: int, j: int|
            0 <= i < self@.len() && 0 <= j < self@[i].len() ==> valid_code(#[trigger] self@[i][j])
    }

    /// The number of rows.
    pub fn num_rows(&self) -> (n: usize)
        ensures
            n == self@.len(),
    {
        self.cells.len()
    }

    /// The common row length.
    pub fn num_cols(&self) -> (n: usize)
        requires
            self.wf(),
        ensures
            n == self@[0].len(),
    {
        self.cells[0].len()
    }

    /// The altitude code at the given row and column.
    pub fn at(&self, row: usize, col: usize) -> (c: u8)
        requires
            row < self@.len(),
            col < self@[row as int].len(),
        ensures
            c == self@[row as int][col as int],
    {
        self.cells[row][col]
    }
}

} // verus!
