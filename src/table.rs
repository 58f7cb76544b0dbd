//! The table parser and the row filter.
//!
//! Text is read as a sequence of grapheme clusters. Column positions are the
//! cluster offsets at which the header line's word runs begin; every line is
//! then cut at those offsets, so a cluster never straddles two cells.

use crate::text::{
    char_vec, concat, contains_chars, graphemes, graphemes_of, has_sub, is_newline, is_space,
    is_word, join_range, lemma_has_sub_empty, lemma_has_sub_trans, newline_cluster,
    space_cluster, views, word_cluster,
};
use vstd::prelude::*;

verus! {

/// A line, as the texts of its clusters.
pub type Line = Seq<Seq<char>>;

/// The number of clusters of the cell text that begins at offset `i` of `l`:
/// a word cluster, then further word clusters, each directly after the one
/// before or after a single space. The run stops before two spaces, any other whitespace, or the end.
pub open spec fn cell_len(l: Line, i: int) -> nat
    decreases l.len() - i,
{
    if 0 <= i < l.len() && is_word(l[i]) {
        if i + 1 < l.len() && is_word(l[i + 1]) {
            1 + cell_len(l, i + 1)
        } else if i + 2 < l.len() && is_space(l[i + 1]) && is_word(l[i + 2]) {
            2 + cell_len(l, i + 2)
        } else {
            1
        }
    } else {
        0
    }
}

/// The text of the cell that begins at offset `k` of `l`; empty where no
/// word cluster stands there, or where the line is shorter than `k`.
pub open spec fn cell_text(l: Line, k: int) -> Seq<char> {
    if cell_len(l, k) == 0 {
        Seq::empty()
    } else {
        concat(l.subrange(k, k + cell_len(l, k)))
    }
}

/// Offset `s` of the header begins a column: a word cluster stands there
/// that does not continue a run (no word cluster just before it, and no
/// single space just after a word cluster).
pub open spec fn is_col_start(h: Line, s: int) -> bool {
    &&& is_word(h[s])
    &&& !(s > 0 && is_word(h[s - 1]))
    &&& !(s > 1 && is_space(h[s - 1]) && is_word(h[s - 2]))
}

/// The column starts among the first `n` clusters of the header, ascending.
pub open spec fn starts_upto(h: Line, n: nat) -> Seq<int>
    decreases n,
{
    if n == 0 {
        Seq::empty()
    } else if is_col_start(h, n - 1) {
        starts_upto(h, (n - 1) as nat).push(n - 1)
    } else {
        starts_upto(h, (n - 1) as nat)
    }
}

/// The column schema of a header line.
pub open spec fn columns(h: Line) -> Seq<int> {
    starts_upto(h, h.len())
}

/// The cells of a line under a column schema, one per column.
pub open spec fn cells_of(l: Line, cols: Seq<int>) -> Seq<Seq<char>> {
    cols.map_values(|k: int| cell_text(l, k))
}

pub open spec fn as_ints(v: Seq<usize>) -> Seq<int> {
    v.map_values(|x: usize| x as int)
}

/// The offset just past the cell that begins at `k`.
fn cell_end(l: &Vec<String>, k: usize) -> (e: usize)
    ensures
        e == k + cell_len(views(l@), k as int),
        e == k || (k < e <= l.len()),
{
    let ghost g = views(l@);
    if k >= l.len() || !word_cluster(&l[k]) {
        return k;
    }
    let mut j: usize = k;
    loop
        invariant
            g == views(l@),
            k <= j < l.len(),
            l.len() <= usize::MAX,
            is_word(g[j as int]),
            cell_len(g, k as int) == (j - k) + cell_len(g, j as int),
        decreases l.len() - j,
    {
        if l.len() - j > 1 && word_cluster(&l[j + 1]) {
            j = j + 1;
        } else if l.len() - j > 2 && space_cluster(&l[j + 1]) && word_cluster(&l[j + 2]) {
            j = j + 2;
        } else {
            return j + 1;
        }
    }
}

/// The column starts of a header line, as cluster offsets.
fn column_starts(h: &Vec<String>) -> (cols: Vec<usize>)
    ensures
        as_ints(cols@) == columns(views(h@)),
        forall|i: int| 0 <= i < cols.len() ==> cols@[i] < h.len(),
{
    let ghost g = views(h@);
    let mut cols: Vec<usize> = Vec::new();
    let mut s: usize = 0;
    while s < h.len()
        invariant
            g == views(h@),
            s <= h.len(),
            as_ints(cols@) == starts_upto(g, s as nat),
            forall|i: int| 0 <= i < cols.len() ==> cols@[i] < h.len(),
        decreases h.len() - s,
    {
        let start = word_cluster(&h[s]) && !(s > 0 && word_cluster(&h[s - 1])) && !(s > 1
            && space_cluster(&h[s - 1]) && word_cluster(&h[s - 2]));
        assert(start == is_col_start(g, s as int));
        if start {
            cols.push(s);
        }
        s = s + 1;
        assert(as_ints(cols@) =~= starts_upto(g, s as nat));
    }
    cols
}

/// One row of the table: a cell per column, in column order.
pub struct Row {
    pub cells: Vec<String>,
}

impl View for Row {
    type V = Seq<Seq<char>>;

    open spec fn view(&self) -> Seq<Seq<char>> {
        views(self.cells@)
    }
}

impl Row {
    /// Cuts a line, given as its clusters, at each column start.
    fn new(line: &Vec<String>, cols: &Vec<usize>) -> (r: Row)
        ensures
            r@ == cells_of(views(line@), as_ints(cols@)),
    {
        let ghost g = views(line@);
        let mut cells: Vec<String> = Vec::new();
        let mut i: usize = 0;
        while i < cols.len()
            invariant
                g == views(line@),
                i <= cols.len(),
                views(cells@) == cells_of(g, as_ints(cols@)).subrange(0, i as int),
            decreases cols.len() - i,
        {
            let k = cols[i];
            let e = cell_end(line, k);
            let cell = if e == k {
                String::new()
            } else {
                join_range(line, k, e)
            };
            assert(cell@ == cell_text(g, k as int));
            let ghost before = cells@;
            cells.push(cell);
            assert(views(cells@) =~= views(before).push(cell@));
            i = i + 1;
            assert(views(cells@) =~= cells_of(g, as_ints(cols@)).subrange(0, i as int));
        }
        assert(cells_of(g, as_ints(cols@)).subrange(0, i as int) =~= cells_of(g, as_ints(cols@)));
        Row { cells }
    }
}

/// The clusters since the last line break among the first `n` of `g`.
pub open spec fn current_line(g: Line, n: nat) -> Line
    decreases n,
{
    if n == 0 {
        Seq::empty()
    } else if is_newline(g[n - 1]) {
        Seq::empty()
    } else {
        current_line(g, (n - 1) as nat).push(g[n - 1])
    }
}

/// The non-empty lines that a line break closes among the first `n`
/// clusters of `g`, in order.
pub open spec fn closed_lines(g: Line, n: nat) -> Seq<Line>
    decreases n,
{
    if n == 0 {
        Seq::empty()
    } else if is_newline(g[n - 1]) && current_line(g, (n - 1) as nat).len() > 0 {
        closed_lines(g, (n - 1) as nat).push(current_line(g, (n - 1) as nat))
    } else {
        closed_lines(g, (n - 1) as nat)
    }
}

/// The non-empty lines of a text given as clusters, in order. A line ends
/// at a line feed (a carriage return before it belongs to the break); a
/// line of only spaces is not empty.
pub open spec fn nonblank_lines(g: Line) -> Seq<Line> {
    let last = current_line(g, g.len());
    if last.len() > 0 {
        closed_lines(g, g.len()).push(last)
    } else {
        closed_lines(g, g.len())
    }
}

/// The cells of every data line under the header's schema.
pub open spec fn data_rows(ls: Seq<Line>, cols: Seq<int>) -> Seq<Seq<Seq<char>>> {
    ls.drop_first().map_values(|l: Line| cells_of(l, cols))
}

/// What parsing `input` gives: no table where it has no non-empty line;
/// else the header cells and the data rows, cut at the header's columns.
pub open spec fn parse_spec(input: Seq<char>) -> Option<(Seq<Seq<char>>, Seq<Seq<Seq<char>>>)> {
    let ls = nonblank_lines(graphemes_of(input));
    if ls.len() == 0 {
        None
    } else {
        let cols = columns(ls[0]);
        Some((cells_of(ls[0], cols), data_rows(ls, cols)))
    }
}

pub open spec fn line_views(ls: Seq<Vec<String>>) -> Seq<Line> {
    ls.map_values(|l: Vec<String>| views(l@))
}

/// Splits clusters into the non-empty lines.
fn split_lines(g: &Vec<String>) -> (ls: Vec<Vec<String>>)
    ensures
        line_views(ls@) == nonblank_lines(views(g@)),
{
    let ghost gv = views(g@);
    let mut ls: Vec<Vec<String>> = Vec::new();
    let mut cur: Vec<String> = Vec::new();
    let mut i: usize = 0;
    while i < g.len()
        invariant
            gv == views(g@),
            i <= g.len(),
            views(cur@) == current_line(gv, i as nat),
            line_views(ls@) == closed_lines(gv, i as nat),
        decreases g.len() - i,
    {
        if newline_cluster(&g[i]) {
            if cur.len() > 0 {
                let ghost before = ls@;
                ls.push(cur);
                assert(line_views(ls@) =~= line_views(before).push(views(cur@)));
            }
            cur = Vec::new();
            assert(views(cur@) =~= Seq::<Seq<char>>::empty());
        } else {
            let ghost before = cur@;
            cur.push(g[i].clone());
            assert(views(cur@) =~= views(before).push(gv[i as int]));
        }
        i = i + 1;
    }
    if cur.len() > 0 {
        let ghost before = ls@;
        ls.push(cur);
        assert(line_views(ls@) =~= line_views(before).push(views(cur@)));
    }
    ls
}

/// The one way that parsing fails.
#[derive(Debug, Clone, Copy, PartialEq, Eq, Structural)]
pub enum ParseError {
    /// The input holds no non-empty line, so there is no header.
    NoHeader,
}

/// A parsed table: the header row and the data rows.
pub struct Table {
    pub header: Row,
    pub rows: Vec<Row>,
}

pub open spec fn row_views(rows: Seq<Row>) -> Seq<Seq<Seq<char>>> {
    rows.map_values(|r: Row| r@)
}

impl View for Table {
    type V = (Seq<Seq<char>>, Seq<Seq<Seq<char>>>);

    open spec fn view(&self) -> (Seq<Seq<char>>, Seq<Seq<Seq<char>>>) {
        (self.header@, row_views(self.rows@))
    }
}

impl Table {
    /// Parses text into a header and data rows. The first non-empty line is
    /// the header; its word runs fix the columns, and every line, the header
    /// included, is cut at them into exactly one cell per column.
    pub fn parse(input: &str) -> (r: Result<Table, ParseError>)
        ensures
            r is Err <==> parse_spec(input@) is None,
            r matches Err(e) ==> e == ParseError::NoHeader,
            r matches Ok(t) ==> parse_spec(input@) == Some(t@),
            r matches Ok(t) ==> forall|i: int|
                0 <= i < t.rows.len() ==> (#[trigger] t.rows@[i])@.len() == t.header@.len(),
    {
        let g = graphemes(input);
        let ls = split_lines(&g);
        if ls.len() == 0 {
            return Err(ParseError::NoHeader);
        }
        let ghost lv = line_views(ls@);
        assert(lv[0] == views(ls@[0]@));
        let cols = column_starts(&ls[0]);
        let header = Row::new(&ls[0], &cols);
        let mut rows: Vec<Row> = Vec::new();
        let mut i: usize = 1;
        while i < ls.len()
            invariant
                lv == line_views(ls@),
                1 <= i <= ls.len(),
                as_ints(cols@) == columns(lv[0]),
                row_views(rows@) == data_rows(lv, as_ints(cols@)).subrange(0, i - 1),
            decreases ls.len() - i,
        {
            let row = Row::new(&ls[i], &cols);
            let ghost before = rows@;
            rows.push(row);
            assert(row_views(rows@) =~= row_views(before).push(row@));
            i = i + 1;
            assert(row_views(rows@) =~= data_rows(lv, as_ints(cols@)).subrange(0, i - 1));
        }
        assert(data_rows(lv, as_ints(cols@)).subrange(0, i - 1) =~= data_rows(lv, as_ints(cols@)));
        let t = Table { header, rows };
        assert(parse_spec(input@) == Some(t@));
        assert forall|j: int| 0 <= j < t.rows.len() implies (#[trigger] t.rows@[j])@.len()
            == t.header@.len() by {
            assert(row_views(t.rows@)[j] == t.rows@[j]@);
        }
        Ok(t)
    }

    /// Parses text as `parse` does; where there is no header, gives the
    /// empty table (no header cells, no rows).
    pub fn from(input: &str) -> (t: Table)
        ensures
            parse_spec(input@) matches Some(v) ==> t@ == v,
            parse_spec(input@) is None ==> t@.0.len() == 0 && t@.1.len() == 0,
    {
        match Table::parse(input) {
            Ok(t) => t,
            Err(_) => {
                let t = Table { header: Row { cells: Vec::new() }, rows: Vec::new() };
                assert(t@.0.len() == 0);
                t
            },
        }
    }
}

/// Some cell of the row holds the pattern.
pub open spec fn row_matches(row: Seq<Seq<char>>, p: Seq<char>) -> bool {
    exists|c: int| 0 <= c < row.len() && has_sub(#[trigger] row[c], p)
}

/// The positions, ascending, of the rows among the first `n` that match.
pub open spec fn kept_indices(rows: Seq<Seq<Seq<char>>>, p: Seq<char>, n: nat) -> Seq<int>
    decreases n,
{
    if n == 0 {
        Seq::empty()
    } else if row_matches(rows[n - 1], p) {
        kept_indices(rows, p, (n - 1) as nat).push(n - 1)
    } else {
        kept_indices(rows, p, (n - 1) as nat)
    }
}

/// The rows that match, in table order.
pub open spec fn filter_spec(rows: Seq<Seq<Seq<char>>>, p: Seq<char>) -> Seq<Seq<Seq<char>>> {
    kept_indices(rows, p, rows.len()).map_values(|i: int| rows[i])
}

impl Row {
    fn matches_chars(&self, p: &Vec<char>) -> (r: bool)
        ensures
            r == row_matches(self@, p@),
    {
        let mut c: usize = 0;
        while c < self.cells.len()
            invariant
                c <= self.cells.len(),
                forall|j: int| 0 <= j < c ==> !has_sub(#[trigger] self@[j], p@),
            decreases self.cells.len() - c,
        {
            let cs = char_vec(self.cells[c].as_str());
            if contains_chars(&cs, p) {
                assert(has_sub(self@[c as int], p@));
                return true;
            }
            c = c + 1;
        }
        false
    }

    /// Whether some cell of the row holds `pattern` as a substring.
    pub fn contains(&self, pattern: &str) -> (r: bool)
        ensures
            r == row_matches(self@, pattern@),
    {
        let p = char_vec(pattern);
        self.matches_chars(&p)
    }
}

impl Table {
    /// The data rows of which some cell holds `pattern`, in table order.
    /// The table itself is left as it is.
    pub fn filtered_rows(&self, pattern: &str) -> (r: Vec<&Row>)
        ensures
            r@.map_values(|x: &Row| x@) == filter_spec(self@.1, pattern@),
    {
        let p = char_vec(pattern);
        let ghost rv = self@.1;
        let mut r: Vec<&Row> = Vec::new();
        let mut i: usize = 0;
        while i < self.rows.len()
            invariant
                rv == self@.1,
                i <= self.rows.len(),
                p@ == pattern@,
                r@.map_values(|x: &Row| x@) == kept_indices(rv, p@, i as nat).map_values(
                    |k: int| rv[k],
                ),
            decreases self.rows.len() - i,
        {
            let row = &self.rows[i];
            assert(rv[i as int] == row@);
            let ghost before = r@;
            if row.matches_chars(&p) {
                r.push(row);
                assert(r@.map_values(|x: &Row| x@) =~= before.map_values(|x: &Row| x@).push(
                    row@,
                ));
            }
            i = i + 1;
            assert(kept_indices(rv, p@, i as nat).map_values(|k: int| rv[k])
                =~= r@.map_values(|x: &Row| x@));
        }
        r
    }
}

/// Every row of a parsed table has as many cells as its header.
pub proof fn lemma_column_count(input: Seq<char>)
    requires
        parse_spec(input) is Some,
    ensures
        ({
            let (header, rows) = parse_spec(input)->0;
            forall|i: int| 0 <= i < rows.len() ==> (#[trigger] rows[i]).len() == header.len()
        }),
{
}

/// What the filter keeps lies in ascending table positions, and each kept row
/// is the row at its position: filtering never reorders rows.
pub proof fn lemma_filter_keeps_order(rows: Seq<Seq<Seq<char>>>, p: Seq<char>)
    ensures
        filter_spec(rows, p).len() == kept_indices(rows, p, rows.len()).len(),
        forall|j: int|
            0 <= j < filter_spec(rows, p).len() ==> {
                let k = #[trigger] kept_indices(rows, p, rows.len())[j];
                0 <= k < rows.len() && filter_spec(rows, p)[j] == rows[k]
            },
        forall|a: int, b: int|
            0 <= a < b < kept_indices(rows, p, rows.len()).len() ==> #[trigger] kept_indices(
                rows,
                p,
                rows.len(),
            )[a] < #[trigger] kept_indices(rows, p, rows.len())[b],
{
    lemma_kept_indices(rows, p, rows.len());
}

/// The kept positions are exactly the matching rows below `n`, ascending.
pub proof fn lemma_kept_indices(rows: Seq<Seq<Seq<char>>>, p: Seq<char>, n: nat)
    requires
        n <= rows.len(),
    ensures
        forall|k: int|
            kept_indices(rows, p, n).contains(k) <==> (0 <= k < n && row_matches(rows[k], p)),
        forall|j: int|
            0 <= j < kept_indices(rows, p, n).len() ==> 0 <= #[trigger] kept_indices(rows, p, n)[j]
                < n,
        forall|a: int, b: int|
            0 <= a < b < kept_indices(rows, p, n).len() ==> #[trigger] kept_indices(rows, p, n)[a]
                < #[trigger] kept_indices(rows, p, n)[b],
    decreases n,
{
    if n > 0 {
        lemma_kept_indices(rows, p, (n - 1) as nat);
        let prev = kept_indices(rows, p, (n - 1) as nat);
        if row_matches(rows[n - 1], p) {
            let s = prev.push(n - 1);
            assert forall|k: int| s.contains(k) <==> (0 <= k < n && row_matches(rows[k], p)) by {
                if prev.contains(k) {
                    let j = choose|j: int| 0 <= j < prev.len() && prev[j] == k;
                    assert(s[j] == k);
                }
                if k == n - 1 {
                    assert(s[prev.len() as int] == k);
                }
                if s.contains(k) && k != n - 1 {
                    let j = choose|j: int| 0 <= j < s.len() && s[j] == k;
                    assert(prev[j] == k);
                }
            }
        }
    }
}

/// Narrowing the pattern never grows the result: where `p1` occurs in `p2`,
/// every row kept for `p2` is kept for `p1`.
pub proof fn lemma_filter_monotone(rows: Seq<Seq<Seq<char>>>, p1: Seq<char>, p2: Seq<char>)
    requires
        has_sub(p2, p1),
    ensures
        forall|k: int|
            kept_indices(rows, p2, rows.len()).contains(k) ==> kept_indices(
                rows,
                p1,
                rows.len(),
            ).contains(k),
        forall|row: Seq<Seq<char>>|
            filter_spec(rows, p2).contains(row) ==> filter_spec(rows, p1).contains(row),
{
    lemma_kept_indices(rows, p1, rows.len());
    lemma_kept_indices(rows, p2, rows.len());
    assert forall|k: int|
        kept_indices(rows, p2, rows.len()).contains(k) implies kept_indices(
            rows,
            p1,
            rows.len(),
        ).contains(k) by {
        let c = choose|c: int| 0 <= c < rows[k].len() && has_sub(#[trigger] rows[k][c], p2);
        lemma_has_sub_trans(rows[k][c], p2, p1);
    }
    let i1 = kept_indices(rows, p1, rows.len());
    let i2 = kept_indices(rows, p2, rows.len());
    assert forall|row: Seq<Seq<char>>|
        filter_spec(rows, p2).contains(row) implies filter_spec(rows, p1).contains(row) by {
        let j = choose|j: int| 0 <= j < filter_spec(rows, p2).len() && filter_spec(rows, p2)[j] == row;
        let k = i2[j];
        assert(i2.contains(k));
        let j1 = choose|j1: int| 0 <= j1 < i1.len() && i1[j1] == k;
        assert(filter_spec(rows, p1)[j1] == row);
    }
}

/// The empty pattern keeps every row, in order, of a table with at least
/// one column.
pub proof fn lemma_filter_empty_pattern(rows: Seq<Seq<Seq<char>>>)
    requires
        forall|i: int| 0 <= i < rows.len() ==> (#[trigger] rows[i]).len() > 0,
    ensures
        filter_spec(rows, Seq::empty()) == rows,
{
    let e = Seq::<char>::empty();
    assert forall|n: nat| n <= rows.len() implies #[trigger] kept_indices(rows, e, n) == Seq::new(
        n,
        |k: int| k,
    ) by {
        lemma_kept_all(rows, n);
    }
    assert(filter_spec(rows, e) =~= rows);
}

proof fn lemma_kept_all(rows: Seq<Seq<Seq<char>>>, n: nat)
    requires
        n <= rows.len(),
        forall|i: int| 0 <= i < rows.len() ==> (#[trigger] rows[i]).len() > 0,
    ensures
        kept_indices(rows, Seq::empty(), n) == Seq::new(n, |k: int| k),
    decreases n,
{
    if n > 0 {
        lemma_kept_all(rows, (n - 1) as nat);
        lemma_has_sub_empty(rows[n - 1][0]);
        assert(row_matches(rows[n - 1], Seq::empty()));
        assert(Seq::new((n - 1) as nat, |k: int| k).push(n - 1) =~= Seq::new(n, |k: int| k));
    }
}

/// `t` is the text of a contiguous run of whole clusters of `l`.
pub open spec fn is_cluster_run(l: Line, t: Seq<char>) -> bool {
    exists|a: int, b: int| 0 <= a <= b <= l.len() && t == concat(#[trigger] l.subrange(a, b))
}

/// A cell never runs past the end of its line.
pub proof fn lemma_cell_len_bound(l: Line, i: int)
    requires
        cell_len(l, i) > 0,
    ensures
        0 <= i < i + cell_len(l, i) <= l.len(),
    decreases l.len() - i,
{
    if i + 1 < l.len() && is_word(l[i + 1]) {
        lemma_cell_len_bound(l, i + 1);
    } else if i + 2 < l.len() && is_space(l[i + 1]) && is_word(l[i + 2]) {
        lemma_cell_len_bound(l, i + 2);
    }
}

/// Every cell is made of whole clusters of its line.
pub proof fn lemma_cell_is_cluster_run(l: Line, cols: Seq<int>)
    ensures
        forall|c: int| 0 <= c < cols.len() ==> is_cluster_run(l, #[trigger] cells_of(l, cols)[c]),
{
    assert forall|c: int| 0 <= c < cols.len() implies is_cluster_run(
        l,
        #[trigger] cells_of(l, cols)[c],
    ) by {
        let k = cols[c];
        if cell_len(l, k) == 0 {
            assert(l.subrange(0, 0) =~= Seq::<Seq<char>>::empty());
            assert(cells_of(l, cols)[c] == concat(l.subrange(0, 0)));
        } else {
            lemma_cell_len_bound(l, k);
            assert(cells_of(l, cols)[c] == concat(l.subrange(k, k + cell_len(l, k))));
        }
    }
}

/// No cluster is split between cells: each cell of the header and of every
/// row is the text of a contiguous run of whole clusters of its line.
pub proof fn lemma_cells_keep_clusters(input: Seq<char>)
    requires
        parse_spec(input) is Some,
    ensures
        ({
            let ls = nonblank_lines(graphemes_of(input));
            let (header, rows) = parse_spec(input)->0;
            &&& forall|c: int| 0 <= c < header.len() ==> is_cluster_run(ls[0], #[trigger] header[c])
            &&& forall|i: int, c: int|
                0 <= i < rows.len() && 0 <= c < rows[i].len() ==> is_cluster_run(
                    ls[i + 1],
                    #[trigger] rows[i][c],
                )
        }),
{
    let ls = nonblank_lines(graphemes_of(input));
    let cols = columns(ls[0]);
    lemma_cell_is_cluster_run(ls[0], cols);
    assert forall|i: int, c: int|
        0 <= i < ls.len() - 1 && 0 <= c < cols.len() implies is_cluster_run(
        ls[i + 1],
        #[trigger] data_rows(ls, cols)[i][c],
    ) by {
        lemma_cell_is_cluster_run(ls[i + 1], cols);
        assert(data_rows(ls, cols)[i] == cells_of(ls[i + 1], cols));
    }
}

/// Parsing depends on the input alone: two tables parsed from the same text
/// are equal, cell for cell.
pub proof fn lemma_parse_deterministic(input: Seq<char>, t1: Table, t2: Table)
    requires
        parse_spec(input) == Some(t1@),
        parse_spec(input) == Some(t2@),
    ensures
        t1@ == t2@,
{
}

} // verus!
