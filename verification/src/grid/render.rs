use vstd::prelude::*;
use crate::grid::candidate_cell::CandidateCell;
use crate::grid::grid::Grid;
use crate::grid::position::Position;

verus! {

/// The pieces `f(0)`, ..., `f(k - 1)` one after the other.
pub open spec fn concat_upto(f: spec_fn(int) -> Seq<char>, k: int) -> Seq<char>
    decreases k,
{
    if k <= 0 {
        Seq::empty()
    } else {
        concat_upto(f, k - 1) + f(k - 1)
    }
}

/// `n` copies of `c`.
pub open spec fn repeat_char(c: char, n: int) -> Seq<char> {
    Seq::new(if n <= 0 { 0 } else { n as nat }, |i: int| c)
}

/// The decimal digit of `d`, `0 <= d < 10`.
pub open spec fn digit_char(d: int) -> char {
    (('0' as int) + d) as char
}

/// The decimal digits of `n`, without leading zeros.
pub open spec fn decimal(n: nat) -> Seq<char>
    decreases n,
{
    if n < 10 {
        seq![digit_char(n as int)]
    } else {
        decimal(n / 10) + seq![digit_char((n % 10) as int)]
    }
}

/// The text of `p`: its row and column counted from one, as `(row, col)`.
pub open spec fn position_text(p: Position) -> Seq<char> {
    seq!['('] + decimal((p.row + 1) as nat) + seq![',', ' '] + decimal((p.col + 1) as nat) + seq![')']
}

fn push_digit(s: &mut String, d: usize)
    requires
        d < 10,
    ensures
        final(s)@ == old(s)@ + seq![digit_char(d as int)],
{
    let t = match d {
        0 => "0",
        1 => "1",
        2 => "2",
        3 => "3",
        4 => "4",
        5 => "5",
        6 => "6",
        7 => "7",
        8 => "8",
        _ => "9",
    };
    proof {
        reveal_strlit("0");
        reveal_strlit("1");
        reveal_strlit("2");
        reveal_strlit("3");
        reveal_strlit("4");
        reveal_strlit("5");
        reveal_strlit("6");
        reveal_strlit("7");
        reveal_strlit("8");
        reveal_strlit("9");
    }
    s.append(t);
}

/// Appends the decimal digits of `n`.
pub fn push_decimal(s: &mut String, n: usize)
    ensures
        final(s)@ == old(s)@ + decimal(n as nat),
    decreases n,
{
    if n >= 10 {
        push_decimal(s, n / 10);
        push_digit(s, n % 10);
        assert(final(s)@ =~= old(s)@ + decimal(n as nat));
    } else {
        push_digit(s, n);
    }
}

fn push_repeat(s: &mut String, t: &str, c: char, count: usize)
    requires
        t@ == seq![c],
    ensures
        final(s)@ == old(s)@ + repeat_char(c, count as int),
{
    let mut i: usize = 0;
    while i < count
        invariant
            t@ == seq![c],
            i <= count,
            s@ == old(s)@ + repeat_char(c, i as int),
        decreases count - i,
    {
        s.append(t);
        i = i + 1;
        assert(s@ =~= old(s)@ + repeat_char(c, i as int));
    }
}

impl Position {
    /// The text of the position: its row and column counted from one.
    pub fn to_string(&self) -> (r: String)
        requires
            self.row < usize::MAX,
            self.col < usize::MAX,
        ensures
            r@ == position_text(*self),
    {
        let mut s = String::new();
        proof {
            reveal_strlit("(");
            reveal_strlit(", ");
            reveal_strlit(")");
        }
        s.append("(");
        push_decimal(&mut s, self.row + 1);
        s.append(", ");
        push_decimal(&mut s, self.col + 1);
        s.append(")");
        assert(s@ =~= position_text(*self));
        s
    }
}

/// The line between the row blocks of a solved grid: one `+` and `2 * region_cols + 1`
/// dashes for each of the `region_rows` blocks across, then a closing `+`.
pub open spec fn solution_separator(region_rows: int, region_cols: int) -> Seq<char> {
    concat_upto(|b: int| seq!['+'] + repeat_char('-', region_cols * 2 + 1), region_rows) + seq!['+']
}

/// The text of a value of a solved grid: its digits and a space, or two spaces for zero.
pub open spec fn value_text(v: int) -> Seq<char> {
    if v != 0 {
        decimal(v as nat) + seq![' ']
    } else {
        seq![' ', ' ']
    }
}

/// The text of cell `c` of row `r`: a `| ` where a region starts, then its value.
pub open spec fn solution_cell_text(g: Grid<usize>, r: int, c: int) -> Seq<char> {
    (if c % (g.rcols() as int) == 0 { seq!['|', ' '] } else { Seq::empty() }) + value_text(g@[r][c] as int)
}

/// The text of row `r`, preceded by a separator line where a block of regions starts.
pub open spec fn solution_row_text(g: Grid<usize>, r: int) -> Seq<char> {
    (if r % (g.rrows() as int) == 0 {
        solution_separator(g.rrows() as int, g.rcols() as int) + seq!['\n']
    } else {
        Seq::empty()
    }) + concat_upto(|c: int| solution_cell_text(g, r, c), g.size() as int) + seq!['|', '\n']
}

/// The text of a solved grid: its rows, then a closing separator line.
pub open spec fn solution_text(g: Grid<usize>) -> Seq<char> {
    concat_upto(|r: int| solution_row_text(g, r), g.size() as int) + solution_separator(g.rrows() as int, g.rcols() as int)
        + seq!['\n']
}

/// Concatenating the first `a + m` pieces is concatenating the first `a`, then the `m`
/// after them.
pub proof fn lemma_concat_split(f: spec_fn(int) -> Seq<char>, a: int, m: int)
    requires
        0 <= a,
        0 <= m,
    ensures
        concat_upto(f, a + m) == concat_upto(f, a) + concat_upto(|k: int| f(a + k), m),
    decreases m,
{
    let h = |k: int| f(a + k);
    if m == 0 {
        assert(concat_upto(f, a) + concat_upto(h, 0) =~= concat_upto(f, a));
    } else {
        lemma_concat_split(f, a, m - 1);
        assert(concat_upto(f, a + m) == concat_upto(f, a + m - 1) + f(a + m - 1));
        assert(concat_upto(h, m) == concat_upto(h, m - 1) + h(m - 1));
        assert(concat_upto(f, a + m) =~= concat_upto(f, a) + concat_upto(h, m));
    }
}

/// The first `b` blocks of a separator line of a solved grid, each `width` long: a `+`
/// at the start of each block and dashes elsewhere.
proof fn lemma_solution_separator_blocks(rc: int, b: int)
    requires
        rc >= 0,
        b >= 0,
    ensures
        ({
            let w = rc * 2 + 2;
            let s = concat_upto(|k: int| seq!['+'] + repeat_char('-', rc * 2 + 1), b);
            &&& s.len() == b * w
            &&& forall|i: int| 0 <= i < b * w ==> #[trigger] s[i] == (if i % w == 0 { '+' } else { '-' })
        }),
    decreases b,
{
    let w = rc * 2 + 2;
    let f = |k: int| seq!['+'] + repeat_char('-', rc * 2 + 1);
    if b > 0 {
        lemma_solution_separator_blocks(rc, b - 1);
        let prev = concat_upto(f, b - 1);
        let s = concat_upto(f, b);
        assert(s == prev + f(b - 1));
        assert(b * w == (b - 1) * w + w) by (nonlinear_arith);
        assert forall|i: int| 0 <= i < b * w implies #[trigger] s[i] == (if i % w == 0 { '+' } else { '-' }) by {
            if i >= (b - 1) * w {
                vstd::arithmetic::div_mod::lemma_fundamental_div_mod_converse(i, w, b - 1, i - (b - 1) * w);
                assert(s[i] == f(b - 1)[i - (b - 1) * w]);
            }
        }
    }
}

/// The line between bands of regions of a solved grid: `region_rows` blocks, one for
/// each region across, of a `+` and `2 * region_cols + 1` dashes (as wide as a region's
/// `| ` and its values of one digit and a space each), then a closing `+`. So a `+`
/// stands exactly at the positions that are a multiple of the block width.
pub proof fn law_solution_separator_layout(region_rows: int, region_cols: int)
    requires
        region_rows >= 0,
        region_cols >= 0,
    ensures
        ({
            let w = region_cols * 2 + 2;
            let s = solution_separator(region_rows, region_cols);
            &&& s.len() == region_rows * w + 1
            &&& forall|i: int| 0 <= i < s.len() ==> #[trigger] s[i] == (if i % w == 0 { '+' } else { '-' })
        }),
{
    let w = region_cols * 2 + 2;
    lemma_solution_separator_blocks(region_cols, region_rows);
    let s = solution_separator(region_rows, region_cols);
    assert forall|i: int| 0 <= i < s.len() implies #[trigger] s[i] == (if i % w == 0 { '+' } else { '-' }) by {
        if i == region_rows * w {
            vstd::arithmetic::div_mod::lemma_fundamental_div_mod_converse(i, w, region_rows, 0);
        }
    }
}

/// Pieces that agree give the same concatenation.
pub proof fn lemma_concat_ext(f: spec_fn(int) -> Seq<char>, h: spec_fn(int) -> Seq<char>, m: int)
    requires
        forall|k: int| 0 <= k < m ==> #[trigger] f(k) == h(k),
    ensures
        concat_upto(f, m) == concat_upto(h, m),
    decreases m,
{
    if m > 0 {
        lemma_concat_ext(f, h, m - 1);
    }
}

/// The cells of row `r` of a solved grid from column `b * region_cols` on, `m` of
/// them, within one region: a `| ` and then their values.
proof fn lemma_solution_block(g: Grid<usize>, r: int, b: int, m: int)
    requires
        g.rcols() >= 1,
        0 <= b,
        1 <= m <= g.rcols(),
    ensures
        concat_upto(|k: int| solution_cell_text(g, r, b * (g.rcols() as int) + k), m) == seq!['|', ' '] + concat_upto(
            |k: int| value_text(g@[r][b * (g.rcols() as int) + k] as int),
            m,
        ),
    decreases m,
{
    let rc = g.rcols() as int;
    let f = |k: int| solution_cell_text(g, r, b * rc + k);
    let v = |k: int| value_text(g@[r][b * rc + k] as int);
    vstd::arithmetic::div_mod::lemma_fundamental_div_mod_converse(b * rc + (m - 1), rc, b, m - 1);
    if m == 1 {
        assert(concat_upto(f, 0) == Seq::<char>::empty());
        assert(concat_upto(v, 0) == Seq::<char>::empty());
        assert(concat_upto(f, 1) =~= f(0));
        assert(concat_upto(v, 1) =~= v(0));
        assert(f(0) =~= seq!['|', ' '] + v(0));
    } else {
        lemma_solution_block(g, r, b, m - 1);
        assert(f(m - 1) == v(m - 1));
        assert(concat_upto(f, m) =~= seq!['|', ' '] + concat_upto(v, m));
    }
}

/// A row of a solved grid is written region by region: before each of the
/// `region_rows` regions across the grid (the side is `region_rows * region_cols`), a
/// `| `, then the values of its `region_cols` cells; then a closing `|`. A line of
/// dashes comes first where a band of regions starts.
pub proof fn law_solution_row_by_regions(g: Grid<usize>, r: int)
    requires
        g.wf(),
        0 <= r < g.size(),
    ensures
        solution_row_text(g, r) == (if r % (g.rrows() as int) == 0 {
            solution_separator(g.rrows() as int, g.rcols() as int) + seq!['\n']
        } else {
            Seq::empty()
        }) + concat_upto(
            |b: int|
                seq!['|', ' '] + concat_upto(
                    |k: int| value_text(g@[r][b * (g.rcols() as int) + k] as int),
                    g.rcols() as int,
                ),
            g.rrows() as int,
        ) + seq!['|', '\n'],
{
    let rr = g.rrows() as int;
    let rc = g.rcols() as int;
    assert(rr >= 1 && rc >= 1) by (nonlinear_arith)
        requires
            g.size() == rr * rc,
            g.size() > 0,
            rr >= 0,
            rc >= 0,
    ;
    let f = |c: int| solution_cell_text(g, r, c);
    let blocks = |b: int| seq!['|', ' '] + concat_upto(|k: int| value_text(g@[r][b * rc + k] as int), rc);
    assert forall|b: int| 0 <= b <= rr implies concat_upto(f, b * rc) == concat_upto(blocks, b) by {
        lemma_solution_blocks(g, r, b);
    }
    assert(rr * rc == g.size());
}

/// The first `b` regions of row `r` of a solved grid, as `law_solution_row_by_regions`
/// writes them.
proof fn lemma_solution_blocks(g: Grid<usize>, r: int, b: int)
    requires
        g.rcols() >= 1,
        0 <= b,
    ensures
        concat_upto(|c: int| solution_cell_text(g, r, c), b * (g.rcols() as int)) == concat_upto(
            |b2: int|
                seq!['|', ' '] + concat_upto(|k: int| value_text(g@[r][b2 * (g.rcols() as int) + k] as int), g.rcols() as int),
            b,
        ),
    decreases b,
{
    let rc = g.rcols() as int;
    let f = |c: int| solution_cell_text(g, r, c);
    let blocks = |b2: int| seq!['|', ' '] + concat_upto(|k: int| value_text(g@[r][b2 * rc + k] as int), rc);
    if b == 0 {
        assert(concat_upto(f, 0) =~= concat_upto(blocks, 0));
    } else {
        lemma_solution_blocks(g, r, b - 1);
        assert(b * rc == (b - 1) * rc + rc) by (nonlinear_arith);
        assert((b - 1) * rc >= 0) by (nonlinear_arith)
            requires
                b >= 1,
                rc >= 1,
        ;
        lemma_concat_split(f, (b - 1) * rc, rc);
        lemma_solution_block(g, r, b - 1, rc);
        lemma_concat_ext(|k: int| f((b - 1) * rc + k), |k: int| solution_cell_text(g, r, (b - 1) * rc + k), rc);
        assert(concat_upto(blocks, b) == concat_upto(blocks, b - 1) + blocks(b - 1));
    }
}

fn separator_line(region_rows: usize, region_cols: usize) -> (r: String)
    requires
        region_cols * 2 + 1 <= usize::MAX,
    ensures
        r@ == solution_separator(region_rows as int, region_cols as int),
{
    let ghost block = |b: int| seq!['+'] + repeat_char('-', region_cols * 2 + 1);
    let mut separator = String::new();
    let mut b: usize = 0;
    while b < region_rows
        invariant
            b <= region_rows,
            region_cols * 2 + 1 <= usize::MAX,
            block == (|b: int| seq!['+'] + repeat_char('-', region_cols * 2 + 1)),
            separator@ == concat_upto(block, b as int),
        decreases region_rows - b,
    {
        proof {
            reveal_strlit("+");
            reveal_strlit("-");
            assert("-"@ =~= seq!['-']);
        }
        separator.append("+");
        push_repeat(&mut separator, "-", '-', region_cols * 2 + 1);
        b = b + 1;
        assert(separator@ =~= concat_upto(block, b as int));
    }
    proof {
        reveal_strlit("+");
    }
    separator.append("+");
    separator
}

fn push_value(s: &mut String, val: usize)
    ensures
        final(s)@ == old(s)@ + value_text(val as int),
{
    proof {
        reveal_strlit(" ");
        reveal_strlit("  ");
    }
    if val != 0 {
        push_decimal(s, val);
        s.append(" ");
    } else {
        s.append("  ");
    }
}

fn push_solution_cells(s: &mut String, g: &Grid<usize>, row: usize)
    requires
        g.wf(),
        row < g.size(),
    ensures
        final(s)@ == old(s)@ + concat_upto(|c: int| solution_cell_text(*g, row as int, c), g.size() as int),
{
    let ghost cell_fn = |c: int| solution_cell_text(*g, row as int, c);
    let n = g.grid_size();
    let region_cols = g.region_cols();
    let mut col: usize = 0;
    while col < n
        invariant
            g.wf(),
            n == g.size(),
            region_cols == g.rcols(),
            row < n,
            col <= n,
            cell_fn == (|c: int| solution_cell_text(*g, row as int, c)),
            s@ == old(s)@ + concat_upto(cell_fn, col as int),
        decreases n - col,
    {
        proof {
            reveal_strlit("| ");
        }
        let ghost before_cell = s@;
        if col % region_cols == 0 {
            s.append("| ");
        }
        let val = *g.get(Position { row, col });
        push_value(s, val);
        col = col + 1;
        assert(s@ =~= before_cell + solution_cell_text(*g, row as int, col - 1));
        assert(s@ =~= old(s)@ + concat_upto(cell_fn, col as int));
    }
}

impl Grid<usize> {
    /// The text of the solved grid, row by row, with lines between blocks of regions.
    pub fn to_string(&self) -> (r: String)
        requires
            self.wf(),
            self.rcols() * 2 + 1 <= usize::MAX,
        ensures
            r@ == solution_text(*self),
    {
        let region_rows = self.region_rows();
        let n = self.grid_size();
        let separator = separator_line(region_rows, self.region_cols());
        let ghost row_fn = |r: int| solution_row_text(*self, r);
        let mut s = String::new();
        let mut row: usize = 0;
        while row < n
            invariant
                self.wf(),
                n == self.size(),
                region_rows == self.rrows(),
                row <= n,
                separator@ == solution_separator(region_rows as int, self.rcols() as int),
                row_fn == (|r: int| solution_row_text(*self, r)),
                s@ == concat_upto(row_fn, row as int),
            decreases n - row,
        {
            proof {
                reveal_strlit("\n");
                reveal_strlit("|\n");
            }
            let ghost before = s@;
            if row % region_rows == 0 {
                s.append(separator.as_str());
                s.append("\n");
            }
            push_solution_cells(&mut s, self, row);
            s.append("|\n");
            row = row + 1;
            assert(s@ =~= before + solution_row_text(*self, row - 1));
            assert(s@ =~= concat_upto(row_fn, row as int));
        }
        proof {
            reveal_strlit("\n");
        }
        s.append(separator.as_str());
        s.append("\n");
        s
    }
}

/// A separator line of the candidate view of a grid of side `n`: for each cell a `+`,
/// doubled where a region starts, and `2 * region_cols + 1` copies of `fill`; then a
/// closing `++`.
pub open spec fn candidate_separator(n: int, region_cols: int, fill: char) -> Seq<char> {
    concat_upto(
        |i: int|
            (if i % region_cols == 0 { seq!['+', '+'] } else { seq!['+'] }) + repeat_char(fill, region_cols * 2 + 1),
        n,
    ) + seq!['+', '+']
}

/// The candidate that text row `r` and text column `c` of the candidate view show:
/// each cell is drawn as `region_rows` lines of `region_cols` candidates.
pub open spec fn shown_candidate(r: int, c: int, region_rows: int, region_cols: int) -> int {
    (r % region_rows) * region_cols + (c % region_cols) + 1
}

/// The text of column `c` of text row `r`: a `|| ` where a region starts, a `| ` where
/// a cell starts, then the candidate and a space, or two spaces when the cell lacks it.
pub open spec fn candidate_piece(g: Grid<CandidateCell>, r: int, c: int) -> Seq<char> {
    let rr = g.rrows() as int;
    let rc = g.rcols() as int;
    let candidate = shown_candidate(r, c, rr, rc);
    (if c % (rc * rc) == 0 {
        seq!['|', '|', ' ']
    } else if c % rc == 0 {
        seq!['|', ' ']
    } else {
        Seq::empty()
    }) + (if g@[r / rr][c / rc]@.contains(candidate) {
        decimal(candidate as nat) + seq![' ']
    } else {
        seq![' ', ' ']
    })
}

/// Text row `r` of the candidate view, preceded by a separator line of `=` where a
/// block of regions starts and of `-` where a row of cells starts.
pub open spec fn candidate_line(g: Grid<CandidateCell>, r: int) -> Seq<char> {
    let rr = g.rrows() as int;
    let rc = g.rcols() as int;
    let n = g.size() as int;
    (if r % (rr * rr) == 0 {
        candidate_separator(n, rc, '=') + seq!['\n']
    } else if r % rr == 0 {
        candidate_separator(n, rc, '-') + seq!['\n']
    } else {
        Seq::empty()
    }) + concat_upto(|c: int| candidate_piece(g, r, c), n * rc) + seq!['|', '|', '\n']
}

/// The closing line of the candidate view, drawn for three regions of three cells.
pub open spec fn candidate_closing_line() -> Seq<char> {
    seq!['+', '+'] + repeat_char('=', 7) + seq!['+'] + repeat_char('=', 7) + seq!['+'] + repeat_char('=', 7)
        + seq!['+', '+'] + repeat_char('=', 7) + seq!['+'] + repeat_char('=', 7) + seq!['+'] + repeat_char('=', 7)
        + seq!['+', '+'] + repeat_char('=', 7) + seq!['+'] + repeat_char('=', 7) + seq!['+'] + repeat_char('=', 7)
        + seq!['+', '+']
}

/// The candidate view of a grid: every cell drawn as a block of its candidates.
pub open spec fn candidate_text(g: Grid<CandidateCell>) -> Seq<char> {
    concat_upto(|r: int| candidate_line(g, r), (g.size() * g.rrows()) as int) + candidate_closing_line() + seq!['\n']
}

/// A concatenation of at least one piece starts with the first piece.
pub proof fn lemma_concat_first(f: spec_fn(int) -> Seq<char>, m: int)
    requires
        m >= 1,
    ensures
        concat_upto(f, m).len() >= f(0).len(),
        forall|i: int| 0 <= i < f(0).len() ==> #[trigger] concat_upto(f, m)[i] == f(0)[i],
{
    lemma_concat_split(f, 1, m - 1);
    assert(concat_upto(f, 0) == Seq::<char>::empty());
    assert(concat_upto(f, 1) =~= f(0));
}

/// Text row `r` of the candidate view belongs to cell row `r / region_rows`, each cell
/// being drawn as `region_rows` text rows. A line of `=` comes before it exactly where
/// that cell row starts a band of regions (a region has `region_rows` rows of cells), a
/// line of `-` where a cell row starts inside a band, and no line inside a cell, whose
/// text row then starts with the `|` of the grid's left edge.
pub proof fn law_candidate_separators(g: Grid<CandidateCell>, r: int)
    requires
        g.wf(),
        0 <= r < g.size() * g.rrows(),
    ensures
        r % (g.rrows() as int) != 0 ==> candidate_line(g, r)[0] == '|',
        r % (g.rrows() as int) == 0 && (r / (g.rrows() as int)) % (g.rrows() as int) == 0 ==> candidate_line(g, r).subrange(
            0,
            3,
        ) == seq!['+', '+', '='],
        r % (g.rrows() as int) == 0 && (r / (g.rrows() as int)) % (g.rrows() as int) != 0 ==> candidate_line(
            g,
            r,
        ).subrange(0, 3) == seq!['+', '+', '-'],
{
    let rr = g.rrows() as int;
    let rc = g.rcols() as int;
    let n = g.size() as int;
    assert(rr >= 1 && rc >= 1 && n >= 1 && n * rc >= 1) by (nonlinear_arith)
        requires
            n == rr * rc,
            0 <= r < n * rr,
            rr >= 0,
            rc >= 0,
    ;
    vstd::arithmetic::div_mod::lemma_mod_breakdown(r, rr, rr);
    let q = (r / rr) % rr;
    assert(q >= 0);
    assert(rr * q >= 0) by (nonlinear_arith)
        requires
            rr >= 1,
            q >= 0,
    ;
    assert(rr * q == 0 <==> q == 0) by (nonlinear_arith)
        requires
            rr >= 1,
            q >= 0,
    ;
    let pieces = |c: int| candidate_piece(g, r, c);
    lemma_concat_first(pieces, n * rc);
    if r % rr != 0 {
        assert(r % (rr * rr) != 0);
        assert(pieces(0)[0] == '|');
        assert(candidate_line(g, r) == Seq::<char>::empty() + concat_upto(pieces, n * rc) + seq!['|', '|', '\n']);
    } else {
        let fill = if q == 0 { '=' } else { '-' };
        let sep = |i: int| (if i % rc == 0 { seq!['+', '+'] } else { seq!['+'] }) + repeat_char(fill, rc * 2 + 1);
        lemma_concat_first(sep, n);
        assert(sep(0)[0] == '+' && sep(0)[1] == '+' && sep(0)[2] == fill);
        let line = candidate_line(g, r);
        assert(line == candidate_separator(n, rc, fill) + seq!['\n'] + concat_upto(pieces, n * rc) + seq!['|', '|', '\n']);
        assert(candidate_separator(n, rc, fill) == concat_upto(sep, n) + seq!['+', '+']);
        assert(line[0] == '+' && line[1] == '+' && line[2] == fill);
        assert(line.subrange(0, 3) =~= seq!['+', '+', fill]);
    }
}

/// The digits of a number never start with a bar.
proof fn lemma_decimal_first(n: nat)
    ensures
        decimal(n).len() >= 1,
        '0' <= decimal(n)[0] <= '9',
    decreases n,
{
    if n >= 10 {
        lemma_decimal_first(n / 10);
    }
}

/// Text column `c` of the candidate view belongs to cell column `c / region_cols`, each
/// cell being drawn `region_cols` candidates wide. A `|| ` comes before it exactly where
/// that cell column starts a region (a region has `region_cols` columns of cells), a
/// `| ` where a cell column starts inside a region, and no bar inside a cell.
pub proof fn law_candidate_column_bars(g: Grid<CandidateCell>, r: int, c: int)
    requires
        g.wf(),
        0 <= c < g.size() * g.rcols(),
    ensures
        c % (g.rcols() as int) != 0 ==> candidate_piece(g, r, c)[0] != '|',
        c % (g.rcols() as int) == 0 && (c / (g.rcols() as int)) % (g.rcols() as int) == 0 ==> candidate_piece(
            g,
            r,
            c,
        ).subrange(0, 3) == seq!['|', '|', ' '],
        c % (g.rcols() as int) == 0 && (c / (g.rcols() as int)) % (g.rcols() as int) != 0 ==> candidate_piece(
            g,
            r,
            c,
        ).subrange(0, 2) == seq!['|', ' '],
{
    let rr = g.rrows() as int;
    let rc = g.rcols() as int;
    let n = g.size() as int;
    assert(rc >= 1) by (nonlinear_arith)
        requires
            n == rr * rc,
            0 <= c < n * rc,
            rr >= 0,
            rc >= 0,
    ;
    vstd::arithmetic::div_mod::lemma_mod_breakdown(c, rc, rc);
    let q = (c / rc) % rc;
    assert(rc * q >= 0) by (nonlinear_arith)
        requires
            rc >= 1,
            q >= 0,
    ;
    assert(rc * q == 0 <==> q == 0) by (nonlinear_arith)
        requires
            rc >= 1,
            q >= 0,
    ;
    let candidate = shown_candidate(r, c, rr, rc);
    let piece = candidate_piece(g, r, c);
    if c % rc != 0 {
        assert(c % (rc * rc) != 0);
        if g@[r / rr][c / rc]@.contains(candidate) {
            assert(candidate >= 1) by (nonlinear_arith)
                requires
                    candidate == (r % rr) * rc + (c % rc) + 1,
                    0 <= r % rr,
                    0 <= c % rc,
                    rc >= 1,
            ;
            lemma_decimal_first(candidate as nat);
            assert(piece == decimal(candidate as nat) + seq![' ']);
            assert(piece[0] == decimal(candidate as nat)[0]);
        } else {
            assert(piece =~= seq![' ', ' ']);
        }
    } else if q == 0 {
        assert(piece.subrange(0, 3) =~= seq!['|', '|', ' ']);
    } else {
        assert(piece.subrange(0, 2) =~= seq!['|', ' ']);
    }
}

fn candidate_separator_line(n: usize, region_cols: usize, fill: &str, c: char) -> (r: String)
    requires
        region_cols > 0,
        region_cols * 2 + 1 <= usize::MAX,
        fill@ == seq![c],
    ensures
        r@ == candidate_separator(n as int, region_cols as int, c),
{
    let ghost piece = |i: int|
        (if i % (region_cols as int) == 0 { seq!['+', '+'] } else { seq!['+'] }) + repeat_char(c, region_cols * 2 + 1);
    let mut line = String::new();
    let mut i: usize = 0;
    while i < n
        invariant
            region_cols > 0,
            region_cols * 2 + 1 <= usize::MAX,
            fill@ == seq![c],
            i <= n,
            piece == (|i: int|
                (if i % (region_cols as int) == 0 { seq!['+', '+'] } else { seq!['+'] }) + repeat_char(c, region_cols * 2 + 1)),
            line@ == concat_upto(piece, i as int),
        decreases n - i,
    {
        proof {
            reveal_strlit("++");
            reveal_strlit("+");
        }
        let ghost before = line@;
        if i % region_cols == 0 {
            line.append("++");
        } else {
            line.append("+");
        }
        push_repeat(&mut line, fill, c, region_cols * 2 + 1);
        i = i + 1;
        assert(line@ =~= before + piece(i - 1));
        assert(line@ =~= concat_upto(piece, i as int));
    }
    proof {
        reveal_strlit("++");
    }
    line.append("++");
    line
}

proof fn lemma_cell_of_text(r: int, c: int, rr: int, rc: int)
    requires
        rr > 0,
        rc > 0,
        0 <= r < rr * rc * rr,
        0 <= c < rr * rc * rc,
    ensures
        0 <= r / rr < rr * rc,
        0 <= c / rc < rr * rc,
        1 <= shown_candidate(r, c, rr, rc) <= rr * rc,
{
    assert(0 <= r / rr < rr * rc) by (nonlinear_arith)
        requires rr > 0, rc > 0, 0 <= r < rr * rc * rr;
    assert(0 <= c / rc < rr * rc) by (nonlinear_arith)
        requires rr > 0, rc > 0, 0 <= c < rr * rc * rc;
    assert(0 <= r % rr < rr) by (nonlinear_arith)
        requires rr > 0;
    assert(0 <= c % rc < rc) by (nonlinear_arith)
        requires rc > 0;
    assert((r % rr) * rc + (c % rc) + 1 <= rr * rc) by (nonlinear_arith)
        requires rr > 0, rc > 0, 0 <= r % rr < rr, 0 <= c % rc < rc;
    assert(0 <= (r % rr) * rc) by (nonlinear_arith)
        requires rc > 0, 0 <= r % rr;
}

fn push_candidate_pieces(s: &mut String, g: &Grid<CandidateCell>, r: usize)
    requires
        g.wf(),
        g.size() <= 64,
        g.size() > 0,
        r < g.size() * g.rrows(),
    ensures
        final(s)@ == old(s)@ + concat_upto(|c: int| candidate_piece(*g, r as int, c), (g.size() * g.rcols()) as int),
{
    let ghost piece = |c: int| candidate_piece(*g, r as int, c);
    let n = g.grid_size();
    let region_rows = g.region_rows();
    let region_cols = g.region_cols();
    proof {
        assert(region_rows > 0 && region_cols > 0) by (nonlinear_arith)
            requires n == region_rows * region_cols, n > 0;
        assert(region_rows <= n && region_cols <= n) by (nonlinear_arith)
            requires n == region_rows * region_cols, region_rows > 0, region_cols > 0;
        assert(region_cols * region_cols <= 64 * 64 && n * region_cols <= 64 * 64) by (nonlinear_arith)
            requires region_cols <= n, n <= 64;
        assert(region_cols * region_cols > 0) by (nonlinear_arith)
            requires region_cols > 0;
    }
    let width = n * region_cols;
    let block = region_cols * region_cols;
    let mut c: usize = 0;
    while c < width
        invariant
            g.wf(),
            n == g.size(),
            n <= 64,
            region_rows == g.rrows(),
            region_cols == g.rcols(),
            n == region_rows * region_cols,
            region_rows > 0,
            region_cols > 0,
            width == n * region_cols,
            block == region_cols * region_cols,
            block > 0,
            r < n * region_rows,
            c <= width,
            piece == (|c: int| candidate_piece(*g, r as int, c)),
            s@ == old(s)@ + concat_upto(piece, c as int),
        decreases width - c,
    {
        proof {
            reveal_strlit("|| ");
            reveal_strlit("| ");
            reveal_strlit(" ");
            reveal_strlit("  ");
            lemma_cell_of_text(r as int, c as int, region_rows as int, region_cols as int);
        }
        let ghost before = s@;
        if c % block == 0 {
            s.append("|| ");
        } else if c % region_cols == 0 {
            s.append("| ");
        }
        let position = Position { row: r / region_rows, col: c / region_cols };
        let candidate = (r % region_rows) * region_cols + c % region_cols + 1;
        if g.get(position).contains(candidate as u8) {
            push_decimal(s, candidate);
            s.append(" ");
        } else {
            s.append("  ");
        }
        c = c + 1;
        assert(s@ =~= before + piece(c - 1));
        assert(s@ =~= old(s)@ + concat_upto(piece, c as int));
    }
}

impl Grid<CandidateCell> {
    /// The candidate view of the grid: every cell drawn as a block of its candidates,
    /// with lines between cells and doubled lines between regions.
    pub fn to_string(&self) -> (r: String)
        requires
            self.wf(),
            self.size() <= 64,
            self.rcols() * 2 + 1 <= usize::MAX,
        ensures
            r@ == candidate_text(*self),
    {
        let n = self.grid_size();
        let region_rows = self.region_rows();
        let region_cols = self.region_cols();
        let ghost line_fn = |r: int| candidate_line(*self, r);
        let mut s = String::new();
        if n > 0 {
            proof {
                assert(region_rows > 0 && region_cols > 0) by (nonlinear_arith)
                    requires n == region_rows * region_cols, n > 0;
                assert(region_rows <= n && region_cols <= n) by (nonlinear_arith)
                    requires n == region_rows * region_cols, region_rows > 0, region_cols > 0;
                assert(region_rows * region_rows <= 64 * 64 && n * region_rows <= 64 * 64) by (nonlinear_arith)
                    requires region_rows <= n, n <= 64;
                reveal_strlit("=");
                reveal_strlit("-");
                assert("="@ =~= seq!['=']);
                assert("-"@ =~= seq!['-']);
                assert(region_rows * region_rows > 0) by (nonlinear_arith)
                    requires region_rows > 0;
            }
            let region_separator = candidate_separator_line(n, region_cols, "=", '=');
            let row_separator = candidate_separator_line(n, region_cols, "-", '-');
            let height = n * region_rows;
            let block = region_rows * region_rows;
            let mut r: usize = 0;
            while r < height
                invariant
                    self.wf(),
                    n == self.size(),
                    n <= 64,
                    n > 0,
                    region_rows == self.rrows(),
                    region_cols == self.rcols(),
                    height == n * region_rows,
                    block == region_rows * region_rows,
                    block > 0,
                    region_rows > 0,
                    region_separator@ == candidate_separator(n as int, region_cols as int, '='),
                    row_separator@ == candidate_separator(n as int, region_cols as int, '-'),
                    r <= height,
                    line_fn == (|r: int| candidate_line(*self, r)),
                    s@ == concat_upto(line_fn, r as int),
                decreases height - r,
            {
                proof {
                    reveal_strlit("\n");
                    reveal_strlit("||\n");
                }
                let ghost before = s@;
                if r % block == 0 {
                    s.append(region_separator.as_str());
                    s.append("\n");
                } else if r % region_rows == 0 {
                    s.append(row_separator.as_str());
                    s.append("\n");
                }
                push_candidate_pieces(&mut s, self, r);
                s.append("||\n");
                r = r + 1;
                assert(s@ =~= before + candidate_line(*self, r - 1));
                assert(s@ =~= concat_upto(line_fn, r as int));
            }
        } else {
            assert(s@ =~= concat_upto(line_fn, (self.size() * self.rrows()) as int));
        }
        proof {
            reveal_strlit("++=======+=======+=======++=======+=======+=======++=======+=======+=======++");
            reveal_strlit("\n");
        }
        s.append("++=======+=======+=======++=======+=======+=======++=======+=======+=======++");
        s.append("\n");
        assert(s@ =~= candidate_text(*self)) by {
            assert("++=======+=======+=======++=======+=======+=======++=======+=======+=======++"@ =~= candidate_closing_line());
        }
        s
    }
}

} // verus!
