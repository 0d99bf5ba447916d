//! What the application reports besides the streams themselves: the lines of
//! its log, and the component columns of the exported results.

use vstd::prelude::*;

use std::collections::HashMap;

use crate::engine::StreamRef;
use crate::error::EngineError;
use crate::model::{Connection, FlowGraph, Node};
use crate::text::{decimal_string, decimal_text};

verus! {

/// The number of lines the log keeps.
pub const LOG_CAPACITY: usize = 500;

pub open spec fn strings_view(v: Seq<String>) -> Seq<Seq<char>> {
    v.map_values(|s: String| s@)
}

/// The log after one more line: the line appended, and the oldest line
/// dropped once the log holds more than `LOG_CAPACITY` lines.
pub open spec fn log_after(lines: Seq<Seq<char>>, line: Seq<char>) -> Seq<Seq<char>> {
    if lines.len() + 1 > LOG_CAPACITY {
        lines.push(line).drop_first()
    } else {
        lines.push(line)
    }
}

/// Appends a line to the in-memory log, dropping the oldest line once the
/// log holds more than `LOG_CAPACITY` lines.
pub fn append_log(lines: &mut Vec<String>, line: String)
    ensures
        strings_view(final(lines)@) == log_after(strings_view(old(lines)@), line@),
{
    let ghost before = lines@;
    lines.push(line);
    assert(strings_view(lines@) =~= strings_view(before).push(line@));
    if lines.len() > LOG_CAPACITY {
        let ghost pushed = lines@;
        lines.remove(0);
        assert(strings_view(lines@) =~= strings_view(pushed).drop_first());
    }
}

/// After one more line the log holds the newest lines of the old log and the
/// new line, in order: all of them while they fit in `LOG_CAPACITY`, else
/// the last `LOG_CAPACITY`.
pub proof fn lemma_log_keeps_newest(lines: Seq<Seq<char>>, line: Seq<char>)
    requires
        lines.len() <= LOG_CAPACITY,
    ensures
        log_after(lines, line).len() == if lines.len() + 1 <= LOG_CAPACITY { lines.len() + 1 } else { LOG_CAPACITY as nat },
        forall|i: int|
            0 <= i < log_after(lines, line).len() ==> #[trigger] log_after(lines, line)[i] == lines.push(line)[i + (lines.len() + 1
                - log_after(lines, line).len())],
{
}

/// A log that holds at most `LOG_CAPACITY` lines still does after one more
/// line, and its newest line is that line.
pub proof fn lemma_log_bounded(lines: Seq<Seq<char>>, line: Seq<char>)
    requires
        lines.len() <= LOG_CAPACITY,
    ensures
        log_after(lines, line).len() <= LOG_CAPACITY,
        log_after(lines, line).last() == line,
{
}

/// The distinct strings of `s` in the order of their first occurrence.
pub open spec fn first_occurrences(s: Seq<Seq<char>>) -> Seq<Seq<char>>
    decreases s.len(),
{
    if s.len() == 0 {
        Seq::empty()
    } else {
        let prev = first_occurrences(s.drop_last());
        if prev.contains(s.last()) {
            prev
        } else {
            prev.push(s.last())
        }
    }
}

/// `x` occurs in `s` before position `j`.
pub open spec fn occurs_before(s: Seq<Seq<char>>, x: Seq<char>, j: int) -> bool {
    exists|i: int| 0 <= i < j && s[i] == x
}

/// The columns come in the order of first occurrence: an earlier column
/// occurs in the keys before any occurrence of a later one.
pub proof fn lemma_columns_order(s: Seq<Seq<char>>)
    ensures
        forall|a: int, b: int, j: int|
            0 <= a < b < first_occurrences(s).len() && 0 <= j < s.len() && #[trigger] s[j] == #[trigger] first_occurrences(s)[b] ==> occurs_before(
                s,
                #[trigger] first_occurrences(s)[a],
                j,
            ),
    decreases s.len(),
{
    if s.len() > 0 {
        let prev = s.drop_last();
        let fp = first_occurrences(prev);
        let f = first_occurrences(s);
        lemma_columns_order(prev);
        lemma_columns_cover_keys(prev);
        lemma_columns_cover_keys(s);
        let last = s.len() - 1;
        assert forall|a: int, b: int, j: int|
            0 <= a < b < f.len() && 0 <= j < s.len() && #[trigger] s[j] == #[trigger] f[b] implies occurs_before(s, #[trigger] f[a], j) by {
            assert(f[a] == fp[a]);
            assert(fp.contains(fp[a]));
            assert(prev.contains(fp[a]));
            let ia = choose|ia: int| 0 <= ia < prev.len() && prev[ia] == fp[a];
            if b < fp.len() {
                assert(f[b] == fp[b]);
                if j < last {
                    assert(prev[j] == s[j]);
                    assert(occurs_before(prev, fp[a], j));
                    let i = choose|i: int| 0 <= i < j && prev[i] == fp[a];
                    assert(s[i] == prev[i]);
                } else {
                    assert(s[ia] == prev[ia]);
                }
            } else {
                // the new column is the last key, which the earlier keys do not hold
                assert(f[b] == s.last());
                assert(!fp.contains(s.last()));
                assert(!prev.contains(s.last()));
                if j < last {
                    assert(prev[j] == s[j]);
                }
                assert(j == last);
                assert(s[ia] == prev[ia]);
            }
        }
    }
}

pub(crate) fn contains_string(v: &Vec<String>, s: &String) -> (b: bool)
    ensures
        b == strings_view(v@).contains(s@),
{
    let n = v.len();
    for i in 0..n
        invariant
            n == v@.len(),
            forall|j: int| 0 <= j < i ==> (#[trigger] v@[j])@ != s@,
    {
        if v[i] == *s {
            assert(strings_view(v@)[i as int] == s@);
            return true;
        }
    }
    assert forall|j: int| 0 <= j < strings_view(v@).len() implies strings_view(v@)[j] != s@ by {
        assert(strings_view(v@)[j] == v@[j]@);
    }
    false
}

/// The component columns of the exported results: the component keys of the
/// streams, read stream after stream, each kept at its first occurrence.
pub fn component_columns(keys: &Vec<String>) -> (cols: Vec<String>)
    ensures
        strings_view(cols@) == first_occurrences(strings_view(keys@)),
{
    let mut cols: Vec<String> = Vec::new();
    let n = keys.len();
    for i in 0..n
        invariant
            n == keys@.len(),
            strings_view(cols@) == first_occurrences(strings_view(keys@).take(i as int)),
    {
        let k = &keys[i];
        assert(strings_view(keys@).take(i + 1).drop_last() =~= strings_view(keys@).take(i as int));
        assert(strings_view(keys@).take(i + 1).last() == k@);
        if !contains_string(&cols, k) {
            let ghost before = cols@;
            cols.push(k.clone());
            assert(strings_view(cols@) =~= strings_view(before).push(k@));
        }
    }
    assert(strings_view(keys@).take(n as int) =~= strings_view(keys@));
    cols
}

/// Every column is one of the keys, every key has a column, and no column
/// appears twice.
pub proof fn lemma_columns_cover_keys(s: Seq<Seq<char>>)
    ensures
        first_occurrences(s).no_duplicates(),
        forall|x: Seq<char>| s.contains(x) <==> first_occurrences(s).contains(x),
    decreases s.len(),
{
    if s.len() > 0 {
        let prev = s.drop_last();
        lemma_columns_cover_keys(prev);
        assert forall|x: Seq<char>| s.contains(x) <==> first_occurrences(s).contains(x) by {
            if s.contains(x) && x != s.last() {
                let i = choose|i: int| 0 <= i < s.len() && s[i] == x;
                assert(prev[i] == x);
            }
            if prev.contains(x) {
                let i = choose|i: int| 0 <= i < prev.len() && prev[i] == x;
                assert(s[i] == x);
            }
            if first_occurrences(s).contains(x) && !first_occurrences(prev).contains(x) {
                let f = first_occurrences(prev);
                let i = choose|i: int| 0 <= i < f.push(s.last()).len() && f.push(s.last())[i] == x;
                assert(i == f.len());
            }
            if first_occurrences(prev).contains(x) && !first_occurrences(prev).contains(s.last()) {
                let f = first_occurrences(prev);
                let i = choose|i: int| 0 <= i < f.len() && f[i] == x;
                assert(f.push(s.last())[i] == x);
            }
            if x == s.last() && !first_occurrences(prev).contains(x) {
                assert(first_occurrences(prev).push(x)[first_occurrences(prev).len() as int] == x);
            }
        }
    }
}

/// The exported results as text cells: the names of the streams and of
/// the components, and for each quantity the total of each stream and the
/// value of each component (one row per component, one cell per stream).
#[derive(Clone, Debug)]
pub struct ResultTable {
    pub stream_names: Vec<String>,
    pub component_names: Vec<String>,
    pub mole_flow: Vec<String>,
    pub component_mole_flow: Vec<Vec<String>>,
    pub component_mole_percent: Vec<Vec<String>>,
    pub mass_flow: Vec<String>,
    pub component_mass_flow: Vec<Vec<String>>,
    pub component_mass_percent: Vec<Vec<String>>,
}

/// One row per component, one cell per stream.
pub open spec fn is_grid(rows: Seq<Vec<String>>, m: nat, n: nat) -> bool {
    &&& rows.len() == m
    &&& forall|c: int| 0 <= c < m ==> (#[trigger] rows[c])@.len() == n
}

pub open spec fn grid_view(rows: Seq<Vec<String>>) -> Seq<Seq<Seq<char>>> {
    rows.map_values(|r: Vec<String>| strings_view(r@))
}

impl ResultTable {
    /// Every row has one cell per stream and every section one row per
    /// component.
    pub open spec fn well_formed(&self) -> bool {
        let n = self.stream_names@.len();
        let m = self.component_names@.len();
        &&& self.mole_flow@.len() == n
        &&& self.mass_flow@.len() == n
        &&& is_grid(self.component_mole_flow@, m, n)
        &&& is_grid(self.component_mole_percent@, m, n)
        &&& is_grid(self.component_mass_flow@, m, n)
        &&& is_grid(self.component_mass_percent@, m, n)
    }

    /// Whether every row has one cell per stream and every section one row
    /// per component.
    pub fn is_well_formed(&self) -> (b: bool)
        ensures
            b == self.well_formed(),
    {
        let n = self.stream_names.len();
        let m = self.component_names.len();
        self.mole_flow.len() == n && self.mass_flow.len() == n && grid_has_shape(&self.component_mole_flow, m, n)
            && grid_has_shape(&self.component_mole_percent, m, n) && grid_has_shape(&self.component_mass_flow, m, n)
            && grid_has_shape(&self.component_mass_percent, m, n)
    }
}

fn grid_has_shape(rows: &Vec<Vec<String>>, m: usize, n: usize) -> (b: bool)
    ensures
        b == is_grid(rows@, m as nat, n as nat),
{
    if rows.len() != m {
        return false;
    }
    for c in 0..m
        invariant
            m == rows@.len(),
            forall|k: int| 0 <= k < c ==> (#[trigger] rows@[k])@.len() == n,
    {
        if rows[c].len() != n {
            return false;
        }
    }
    true
}

/// Each cell followed by a comma.
pub open spec fn cells_text(cells: Seq<Seq<char>>) -> Seq<char>
    decreases cells.len(),
{
    if cells.len() == 0 {
        Seq::empty()
    } else {
        cells_text(cells.drop_last()) + cells.last() + ","@
    }
}

/// A line of the file: its label, a comma, the cells, a line break.
pub open spec fn row_text(label: Seq<char>, cells: Seq<Seq<char>>) -> Seq<char> {
    label + ","@ + cells_text(cells) + "\n"@
}

/// One row per component: its name, then its cells.
pub open spec fn rows_text(names: Seq<Seq<char>>, rows: Seq<Seq<Seq<char>>>) -> Seq<char>
    decreases names.len(),
{
    if names.len() == 0 || rows.len() == 0 {
        Seq::empty()
    } else {
        rows_text(names.drop_last(), rows.drop_last()) + row_text(names.last(), rows.last())
    }
}

/// The stream numbers `1..=n`.
pub open spec fn stream_numbers(n: nat) -> Seq<Seq<char>> {
    Seq::new(n, |i: int| decimal_text((i + 1) as nat))
}

/// `n` empty cells.
pub open spec fn blank_cells(n: nat) -> Seq<Seq<char>> {
    Seq::new(n, |i: int| Seq::<char>::empty())
}

/// A section: its heading row with the totals, then the component rows.
pub open spec fn section_text(title: Seq<char>, totals: Seq<Seq<char>>, names: Seq<Seq<char>>, rows: Seq<Seq<Seq<char>>>) -> Seq<char> {
    row_text(title, totals) + rows_text(names, rows)
}

/// The exported file: empty without streams; otherwise a byte order mark
/// and a title line, the stream names, the stream numbers, then four
/// sections separated by empty lines: molar flows, molar fractions, mass
/// flows and mass fractions, each with a row per component.
pub open spec fn csv_text(t: ResultTable) -> Seq<char> {
    let n = t.stream_names@.len();
    let names = strings_view(t.component_names@);
    if n == 0 {
        Seq::empty()
    } else {
        "\u{FEFF}"@ + "物料平衡计算结果"@ + "\n"@ + row_text(Seq::empty(), strings_view(t.stream_names@))
            + row_text("流股号"@, stream_numbers(n))
            + section_text("摩尔流量(kmol/h)"@, strings_view(t.mole_flow@), names, grid_view(t.component_mole_flow@))
            + "\n"@
            + section_text("摩尔分率(%)"@, blank_cells(n), names, grid_view(t.component_mole_percent@))
            + "\n"@
            + section_text("质量流量(kg/h)"@, strings_view(t.mass_flow@), names, grid_view(t.component_mass_flow@))
            + "\n"@
            + section_text("质量分率(%)"@, blank_cells(n), names, grid_view(t.component_mass_percent@))
    }
}

fn push_cells(csv: &mut String, cells: &Vec<String>)
    ensures
        final(csv)@ == old(csv)@ + cells_text(strings_view(cells@)),
{
    let ghost start = csv@;
    let n = cells.len();
    for i in 0..n
        invariant
            n == cells@.len(),
            csv@ == start + cells_text(strings_view(cells@).take(i as int)),
    {
        csv.append(cells[i].as_str());
        csv.append(",");
        assert(strings_view(cells@).take(i + 1).drop_last() =~= strings_view(cells@).take(i as int));
        assert(csv@ =~= start + cells_text(strings_view(cells@).take(i + 1)));
    }
    assert(strings_view(cells@).take(n as int) =~= strings_view(cells@));
}

fn push_row(csv: &mut String, label: &str, cells: &Vec<String>)
    ensures
        final(csv)@ == old(csv)@ + row_text(label@, strings_view(cells@)),
{
    let ghost start = csv@;
    csv.append(label);
    csv.append(",");
    push_cells(csv, cells);
    csv.append("\n");
    assert(csv@ =~= start + row_text(label@, strings_view(cells@)));
}

fn push_rows(csv: &mut String, names: &Vec<String>, rows: &Vec<Vec<String>>)
    requires
        rows@.len() == names@.len(),
    ensures
        final(csv)@ == old(csv)@ + rows_text(strings_view(names@), grid_view(rows@)),
{
    let ghost start = csv@;
    let m = names.len();
    for c in 0..m
        invariant
            m == names@.len(),
            m == rows@.len(),
            csv@ == start + rows_text(strings_view(names@).take(c as int), grid_view(rows@).take(c as int)),
    {
        let ghost before = csv@;
        push_row(csv, names[c].as_str(), &rows[c]);
        assert(strings_view(names@).take(c + 1).drop_last() =~= strings_view(names@).take(c as int));
        assert(grid_view(rows@).take(c + 1).drop_last() =~= grid_view(rows@).take(c as int));
        assert(csv@ =~= start + rows_text(strings_view(names@).take(c + 1), grid_view(rows@).take(c + 1)));
    }
    assert(strings_view(names@).take(m as int) =~= strings_view(names@));
    assert(grid_view(rows@).take(m as int) =~= grid_view(rows@));
}

fn stream_number_cells(n: usize) -> (v: Vec<String>)
    ensures
        strings_view(v@) == stream_numbers(n as nat),
{
    let mut v: Vec<String> = Vec::new();
    for i in 0..n
        invariant
            strings_view(v@) =~= stream_numbers(n as nat).take(i as int),
    {
        let ghost before = v@;
        let d = decimal_string(i + 1);
        v.push(d);
        assert(strings_view(v@) =~= strings_view(before).push(d@));
        assert(strings_view(v@) =~= stream_numbers(n as nat).take(i + 1));
    }
    v
}

fn blank_cell_row(n: usize) -> (v: Vec<String>)
    ensures
        strings_view(v@) == blank_cells(n as nat),
{
    let mut v: Vec<String> = Vec::new();
    for i in 0..n
        invariant
            strings_view(v@) =~= blank_cells(n as nat).take(i as int),
    {
        let ghost before = v@;
        let e = String::new();
        v.push(e);
        assert(strings_view(v@) =~= strings_view(before).push(e@));
        assert(strings_view(v@) =~= blank_cells(n as nat).take(i + 1));
    }
    v
}

/// Writes the computed results as CSV text for a spreadsheet (UTF-8 with a
/// byte order mark): see `csv_text`.
pub fn export_csv(table: &ResultTable) -> (r: Result<String, EngineError>)
    requires
        table.well_formed(),
    ensures
        r matches Ok(csv) && csv@ == csv_text(*table),
{
    let n = table.stream_names.len();
    if n == 0 {
        return Ok(String::new());
    }
    let mut csv = String::from_str("\u{FEFF}");
    csv.append("物料平衡计算结果");
    csv.append("\n");
    let ghost head = csv@;
    push_row(&mut csv, "", &table.stream_names);
    push_row(&mut csv, "流股号", &stream_number_cells(n));
    let blanks = blank_cell_row(n);

    push_row(&mut csv, "摩尔流量(kmol/h)", &table.mole_flow);
    push_rows(&mut csv, &table.component_names, &table.component_mole_flow);
    csv.append("\n");
    push_row(&mut csv, "摩尔分率(%)", &blanks);
    push_rows(&mut csv, &table.component_names, &table.component_mole_percent);
    csv.append("\n");
    push_row(&mut csv, "质量流量(kg/h)", &table.mass_flow);
    push_rows(&mut csv, &table.component_names, &table.component_mass_flow);
    csv.append("\n");
    push_row(&mut csv, "质量分率(%)", &blanks);
    push_rows(&mut csv, &table.component_names, &table.component_mass_percent);
    proof {
        reveal_strlit("");
    }
    assert(csv@ =~= csv_text(*table));
    Ok(csv)
}

/// How many times `c` occurs in `s`.
pub open spec fn count_char(s: Seq<char>, c: char) -> nat
    decreases s.len(),
{
    if s.len() == 0 {
        0
    } else {
        count_char(s.drop_last(), c) + if s.last() == c { 1nat } else { 0nat }
    }
}

/// Text that holds neither a comma nor a line break, so that it stays one
/// cell of one line.
pub open spec fn is_cell_text(s: Seq<char>) -> bool {
    forall|i: int| 0 <= i < s.len() ==> #[trigger] s[i] != ',' && s[i] != '\n'
}

/// Every string of the sequence is cell text.
pub open spec fn all_cell_text(cells: Seq<Seq<char>>) -> bool {
    forall|k: int| 0 <= k < cells.len() ==> is_cell_text(#[trigger] cells[k])
}

proof fn lemma_count_concat(a: Seq<char>, b: Seq<char>, c: char)
    ensures
        count_char(a + b, c) == count_char(a, c) + count_char(b, c),
    decreases b.len(),
{
    if b.len() == 0 {
        assert(a + b =~= a);
    } else {
        lemma_count_concat(a, b.drop_last(), c);
        assert((a + b).drop_last() =~= a + b.drop_last());
    }
}

proof fn lemma_count_absent(s: Seq<char>, c: char)
    requires
        forall|i: int| 0 <= i < s.len() ==> s[i] != c,
    ensures
        count_char(s, c) == 0,
    decreases s.len(),
{
    if s.len() > 0 {
        lemma_count_absent(s.drop_last(), c);
    }
}

proof fn lemma_cell_counts(s: Seq<char>)
    requires
        is_cell_text(s),
    ensures
        count_char(s, ',') == 0,
        count_char(s, '\n') == 0,
{
    lemma_count_absent(s, ',');
    lemma_count_absent(s, '\n');
}

proof fn lemma_sep_counts()
    ensures
        count_char(","@, ',') == 1,
        count_char(","@, '\n') == 0,
        count_char("\n"@, ',') == 0,
        count_char("\n"@, '\n') == 1,
{
    reveal_strlit(",");
    reveal_strlit("\n");
    assert(","@.len() == 1 && ","@.last() == ',');
    assert(","@.drop_last() =~= Seq::<char>::empty());
    assert(count_char(Seq::<char>::empty(), ',') == 0);
    assert(count_char(Seq::<char>::empty(), '\n') == 0);
    assert("\n"@.drop_last() =~= Seq::<char>::empty());
}

proof fn lemma_cells_counts(cells: Seq<Seq<char>>)
    requires
        all_cell_text(cells),
    ensures
        count_char(cells_text(cells), ',') == cells.len(),
        count_char(cells_text(cells), '\n') == 0,
    decreases cells.len(),
{
    if cells.len() > 0 {
        let prev = cells.drop_last();
        assert(all_cell_text(prev)) by {
            assert forall|k: int| 0 <= k < prev.len() implies is_cell_text(#[trigger] prev[k]) by {
                assert(prev[k] == cells[k]);
            }
        }
        lemma_cells_counts(prev);
        assert(is_cell_text(cells[cells.len() - 1]));
        lemma_cell_counts(cells.last());
        lemma_sep_counts();
        lemma_count_concat(cells_text(prev), cells.last(), ',');
        lemma_count_concat(cells_text(prev), cells.last(), '\n');
        lemma_count_concat(cells_text(prev) + cells.last(), ","@, ',');
        lemma_count_concat(cells_text(prev) + cells.last(), ","@, '\n');
    }
}

proof fn lemma_row_counts(label: Seq<char>, cells: Seq<Seq<char>>)
    requires
        is_cell_text(label),
        all_cell_text(cells),
    ensures
        count_char(row_text(label, cells), ',') == cells.len() + 1,
        count_char(row_text(label, cells), '\n') == 1,
{
    lemma_cell_counts(label);
    lemma_sep_counts();
    lemma_cells_counts(cells);
    let a = label + ","@;
    let b = a + cells_text(cells);
    lemma_count_concat(label, ","@, ',');
    lemma_count_concat(label, ","@, '\n');
    lemma_count_concat(a, cells_text(cells), ',');
    lemma_count_concat(a, cells_text(cells), '\n');
    lemma_count_concat(b, "\n"@, ',');
    lemma_count_concat(b, "\n"@, '\n');
}

proof fn lemma_rows_counts(names: Seq<Seq<char>>, rows: Seq<Seq<Seq<char>>>, n: nat)
    requires
        names.len() == rows.len(),
        all_cell_text(names),
        forall|k: int| 0 <= k < rows.len() ==> (#[trigger] rows[k]).len() == n && all_cell_text(rows[k]),
    ensures
        count_char(rows_text(names, rows), ',') == names.len() * (n + 1),
        count_char(rows_text(names, rows), '\n') == names.len(),
    decreases names.len(),
{
    if names.len() > 0 {
        let pn = names.drop_last();
        let pr = rows.drop_last();
        assert(all_cell_text(pn)) by {
            assert forall|k: int| 0 <= k < pn.len() implies is_cell_text(#[trigger] pn[k]) by {
                assert(pn[k] == names[k]);
            }
        }
        assert forall|k: int| 0 <= k < pr.len() implies (#[trigger] pr[k]).len() == n && all_cell_text(pr[k]) by {
            assert(pr[k] == rows[k]);
        }
        lemma_rows_counts(pn, pr, n);
        assert(is_cell_text(names[names.len() - 1]));
        assert(rows[rows.len() - 1].len() == n && all_cell_text(rows[rows.len() - 1]));
        lemma_row_counts(names.last(), rows.last());
        lemma_count_concat(rows_text(pn, pr), row_text(names.last(), rows.last()), ',');
        lemma_count_concat(rows_text(pn, pr), row_text(names.last(), rows.last()), '\n');
        assert(names.len() * (n + 1) == pn.len() * (n + 1) + (n + 1)) by (nonlinear_arith)
            requires
                names.len() == pn.len() + 1,
        ;
    }
}

proof fn lemma_section_counts(title: Seq<char>, totals: Seq<Seq<char>>, names: Seq<Seq<char>>, rows: Seq<Seq<Seq<char>>>, n: nat)
    requires
        is_cell_text(title),
        all_cell_text(totals),
        totals.len() == n,
        names.len() == rows.len(),
        all_cell_text(names),
        forall|k: int| 0 <= k < rows.len() ==> (#[trigger] rows[k]).len() == n && all_cell_text(rows[k]),
    ensures
        count_char(section_text(title, totals, names, rows), ',') == (names.len() + 1) * (n + 1),
        count_char(section_text(title, totals, names, rows), '\n') == names.len() + 1,
{
    lemma_row_counts(title, totals);
    lemma_rows_counts(names, rows, n);
    lemma_count_concat(row_text(title, totals), rows_text(names, rows), ',');
    lemma_count_concat(row_text(title, totals), rows_text(names, rows), '\n');
    assert((names.len() + 1) * (n + 1) == names.len() * (n + 1) + (n + 1)) by (nonlinear_arith);
}

/// Every cell of every row is cell text.
pub open spec fn grid_cell_text(rows: Seq<Vec<String>>) -> bool {
    forall|k: int| 0 <= k < rows.len() ==> all_cell_text(strings_view((#[trigger] rows[k])@))
}

proof fn lemma_grid_rows(rows: Seq<Vec<String>>, m: nat, n: nat)
    requires
        is_grid(rows, m, n),
        grid_cell_text(rows),
    ensures
        grid_view(rows).len() == m,
        forall|k: int| 0 <= k < grid_view(rows).len() ==> (#[trigger] grid_view(rows)[k]).len() == n && all_cell_text(grid_view(rows)[k]),
{
    assert forall|k: int| 0 <= k < grid_view(rows).len() implies (#[trigger] grid_view(rows)[k]).len() == n && all_cell_text(grid_view(rows)[k]) by {
        assert(grid_view(rows)[k] == strings_view(rows[k]@));
        assert(rows[k]@.len() == n);
        assert(all_cell_text(strings_view(rows[k]@)));
    }
}

/// The exported file of a well-formed table with at least one stream, whose
/// names and cells hold no comma and no line break, is a grid: it has four
/// lines per component and ten more (the title, the names, the numbers,
/// four section headings and three blank lines), and one comma after the
/// label and after each stream's cell on each of the lines that carry
/// cells. Without streams the file is empty.
pub proof fn lemma_csv_shape(t: ResultTable)
    requires
        t.well_formed(),
        all_cell_text(strings_view(t.stream_names@)),
        all_cell_text(strings_view(t.component_names@)),
        all_cell_text(strings_view(t.mole_flow@)),
        all_cell_text(strings_view(t.mass_flow@)),
        grid_cell_text(t.component_mole_flow@),
        grid_cell_text(t.component_mole_percent@),
        grid_cell_text(t.component_mass_flow@),
        grid_cell_text(t.component_mass_percent@),
    ensures
        t.stream_names@.len() == 0 ==> csv_text(t).len() == 0,
        t.stream_names@.len() > 0 ==> count_char(csv_text(t), '\n') == 4 * t.component_names@.len() + 10,
        t.stream_names@.len() > 0 ==> count_char(csv_text(t), ',') == (4 * t.component_names@.len() + 6) * (
        t.stream_names@.len() + 1),
{
    let n = t.stream_names@.len();
    let m = t.component_names@.len();
    if n > 0 {
        let names = strings_view(t.component_names@);
        reveal_strlit("\u{FEFF}");
        reveal_strlit("物料平衡计算结果");
        reveal_strlit("流股号");
        reveal_strlit("摩尔流量(kmol/h)");
        reveal_strlit("摩尔分率(%)");
        reveal_strlit("质量流量(kg/h)");
        reveal_strlit("质量分率(%)");
        let bom = "\u{FEFF}"@;
        let title = "物料平衡计算结果"@;
        assert(is_cell_text(bom));
        assert(is_cell_text(title));
        assert(is_cell_text("流股号"@));
        assert(is_cell_text("摩尔流量(kmol/h)"@));
        assert(is_cell_text("摩尔分率(%)"@));
        assert(is_cell_text("质量流量(kg/h)"@));
        assert(is_cell_text("质量分率(%)"@));
        assert(is_cell_text(Seq::<char>::empty()));
        lemma_cell_counts(bom);
        lemma_cell_counts(title);
        lemma_sep_counts();
        assert(all_cell_text(stream_numbers(n as nat))) by {
            assert forall|k: int| 0 <= k < n implies is_cell_text(#[trigger] stream_numbers(n as nat)[k]) by {
                crate::text::lemma_decimal_round_trip((k + 1) as nat);
            }
        }
        assert(all_cell_text(blank_cells(n as nat)));
        lemma_grid_rows(t.component_mole_flow@, m as nat, n as nat);
        lemma_grid_rows(t.component_mole_percent@, m as nat, n as nat);
        lemma_grid_rows(t.component_mass_flow@, m as nat, n as nat);
        lemma_grid_rows(t.component_mass_percent@, m as nat, n as nat);
        let r1 = row_text(Seq::empty(), strings_view(t.stream_names@));
        let r2 = row_text("流股号"@, stream_numbers(n as nat));
        let s1 = section_text("摩尔流量(kmol/h)"@, strings_view(t.mole_flow@), names, grid_view(t.component_mole_flow@));
        let s2 = section_text("摩尔分率(%)"@, blank_cells(n as nat), names, grid_view(t.component_mole_percent@));
        let s3 = section_text("质量流量(kg/h)"@, strings_view(t.mass_flow@), names, grid_view(t.component_mass_flow@));
        let s4 = section_text("质量分率(%)"@, blank_cells(n as nat), names, grid_view(t.component_mass_percent@));
        let nl = "\n"@;
        lemma_row_counts(Seq::empty(), strings_view(t.stream_names@));
        lemma_row_counts("流股号"@, stream_numbers(n as nat));
        lemma_section_counts("摩尔流量(kmol/h)"@, strings_view(t.mole_flow@), names, grid_view(t.component_mole_flow@), n as nat);
        lemma_section_counts("摩尔分率(%)"@, blank_cells(n as nat), names, grid_view(t.component_mole_percent@), n as nat);
        lemma_section_counts("质量流量(kg/h)"@, strings_view(t.mass_flow@), names, grid_view(t.component_mass_flow@), n as nat);
        lemma_section_counts("质量分率(%)"@, blank_cells(n as nat), names, grid_view(t.component_mass_percent@), n as nat);
        let a1 = bom + title;
        let a2 = a1 + nl;
        let a3 = a2 + r1;
        let a4 = a3 + r2;
        let a5 = a4 + s1;
        let a6 = a5 + nl;
        let a7 = a6 + s2;
        let a8 = a7 + nl;
        let a9 = a8 + s3;
        let a10 = a9 + nl;
        let a11 = a10 + s4;
        assert(csv_text(t) == a11);
        lemma_count_concat(bom, title, ',');
        lemma_count_concat(bom, title, '\n');
        lemma_count_concat(a1, nl, ',');
        lemma_count_concat(a1, nl, '\n');
        lemma_count_concat(a2, r1, ',');
        lemma_count_concat(a2, r1, '\n');
        lemma_count_concat(a3, r2, ',');
        lemma_count_concat(a3, r2, '\n');
        lemma_count_concat(a4, s1, ',');
        lemma_count_concat(a4, s1, '\n');
        lemma_count_concat(a5, nl, ',');
        lemma_count_concat(a5, nl, '\n');
        lemma_count_concat(a6, s2, ',');
        lemma_count_concat(a6, s2, '\n');
        lemma_count_concat(a7, nl, ',');
        lemma_count_concat(a7, nl, '\n');
        lemma_count_concat(a8, s3, ',');
        lemma_count_concat(a8, s3, '\n');
        lemma_count_concat(a9, nl, ',');
        lemma_count_concat(a9, nl, '\n');
        lemma_count_concat(a10, s4, ',');
        lemma_count_concat(a10, s4, '\n');
        assert((4 * m + 6) * (n + 1) == 2 * (n + 1) + 4 * ((m + 1) * (n + 1))) by (nonlinear_arith);
    }
}

/// A line of the file without its line break: its label, a comma, the
/// cells.
pub open spec fn row_line(label: Seq<char>, cells: Seq<Seq<char>>) -> Seq<char> {
    label + ","@ + cells_text(cells)
}

/// Lines written one after another, each followed by a line break.
pub open spec fn join_lines(lines: Seq<Seq<char>>) -> Seq<char>
    decreases lines.len(),
{
    if lines.len() == 0 {
        Seq::empty()
    } else {
        join_lines(lines.drop_last()) + lines.last() + "\n"@
    }
}

/// The lines of a section: its heading row, then one row per component.
pub open spec fn section_lines(title: Seq<char>, totals: Seq<Seq<char>>, names: Seq<Seq<char>>, rows: Seq<Seq<Seq<char>>>) -> Seq<Seq<char>> {
    seq![row_line(title, totals)] + Seq::new(names.len(), |k: int| row_line(names[k], rows[k]))
}

/// The lines of the exported file of a table with streams: the title line
/// (after the byte order mark), the stream names, the stream numbers, then
/// the four sections with an empty line between two sections.
pub open spec fn csv_lines(t: ResultTable) -> Seq<Seq<char>> {
    let n = t.stream_names@.len();
    let names = strings_view(t.component_names@);
    seq!["\u{FEFF}"@ + "物料平衡计算结果"@, row_line(Seq::empty(), strings_view(t.stream_names@)), row_line("流股号"@, stream_numbers(n))]
        + section_lines("摩尔流量(kmol/h)"@, strings_view(t.mole_flow@), names, grid_view(t.component_mole_flow@))
        + seq![Seq::<char>::empty()]
        + section_lines("摩尔分率(%)"@, blank_cells(n), names, grid_view(t.component_mole_percent@))
        + seq![Seq::<char>::empty()]
        + section_lines("质量流量(kg/h)"@, strings_view(t.mass_flow@), names, grid_view(t.component_mass_flow@))
        + seq![Seq::<char>::empty()]
        + section_lines("质量分率(%)"@, blank_cells(n), names, grid_view(t.component_mass_percent@))
}

proof fn lemma_join_concat(a: Seq<Seq<char>>, b: Seq<Seq<char>>)
    ensures
        join_lines(a + b) == join_lines(a) + join_lines(b),
    decreases b.len(),
{
    if b.len() == 0 {
        assert(a + b =~= a);
        assert(join_lines(a) + join_lines(b) =~= join_lines(a));
    } else {
        lemma_join_concat(a, b.drop_last());
        assert((a + b).drop_last() =~= a + b.drop_last());
        assert((a + b).last() == b.last());
        assert(join_lines(a + b) =~= join_lines(a) + join_lines(b));
    }
}

proof fn lemma_join_one(x: Seq<char>)
    ensures
        join_lines(seq![x]) == x + "\n"@,
{
    assert(seq![x].drop_last() =~= Seq::<Seq<char>>::empty());
    assert(join_lines(Seq::<Seq<char>>::empty()) == Seq::<char>::empty());
    assert(seq![x].last() == x);
    assert(Seq::<char>::empty() + x =~= x);
    assert(join_lines(seq![x]) =~= x + "\n"@);
}

proof fn lemma_rows_join(names: Seq<Seq<char>>, rows: Seq<Seq<Seq<char>>>)
    requires
        names.len() == rows.len(),
    ensures
        join_lines(Seq::new(names.len(), |k: int| row_line(names[k], rows[k]))) == rows_text(names, rows),
    decreases names.len(),
{
    let ls = Seq::new(names.len(), |k: int| row_line(names[k], rows[k]));
    if names.len() > 0 {
        let pn = names.drop_last();
        let pr = rows.drop_last();
        lemma_rows_join(pn, pr);
        assert(ls.drop_last() =~= Seq::new(pn.len(), |k: int| row_line(pn[k], pr[k])));
        assert(join_lines(ls) =~= rows_text(names, rows));
    } else {
        assert(join_lines(ls) =~= rows_text(names, rows));
    }
}

proof fn lemma_section_join(title: Seq<char>, totals: Seq<Seq<char>>, names: Seq<Seq<char>>, rows: Seq<Seq<Seq<char>>>)
    requires
        names.len() == rows.len(),
    ensures
        join_lines(section_lines(title, totals, names, rows)) == section_text(title, totals, names, rows),
        section_lines(title, totals, names, rows).len() == names.len() + 1,
{
    let ls = Seq::new(names.len(), |k: int| row_line(names[k], rows[k]));
    lemma_join_concat(seq![row_line(title, totals)], ls);
    lemma_join_one(row_line(title, totals));
    lemma_rows_join(names, rows);
}

proof fn lemma_row_line_counts(label: Seq<char>, cells: Seq<Seq<char>>)
    requires
        is_cell_text(label),
        all_cell_text(cells),
    ensures
        count_char(row_line(label, cells), ',') == cells.len() + 1,
        count_char(row_line(label, cells), '\n') == 0,
        row_line(label, cells).len() > 0,
{
    lemma_row_counts(label, cells);
    lemma_sep_counts();
    lemma_count_concat(row_line(label, cells), "\n"@, ',');
    lemma_count_concat(row_line(label, cells), "\n"@, '\n');
    assert(row_text(label, cells) == row_line(label, cells) + "\n"@);
    reveal_strlit(",");
    assert((label + ","@).len() > 0);
}

proof fn lemma_section_line_counts(title: Seq<char>, totals: Seq<Seq<char>>, names: Seq<Seq<char>>, rows: Seq<Seq<Seq<char>>>, n: nat)
    requires
        is_cell_text(title),
        all_cell_text(totals),
        totals.len() == n,
        names.len() == rows.len(),
        all_cell_text(names),
        forall|k: int| 0 <= k < rows.len() ==> (#[trigger] rows[k]).len() == n && all_cell_text(rows[k]),
    ensures
        forall|k: int|
            0 <= k < section_lines(title, totals, names, rows).len() ==> {
                let l = #[trigger] section_lines(title, totals, names, rows)[k];
                &&& count_char(l, ',') == n + 1
                &&& count_char(l, '\n') == 0
                &&& l.len() > 0
            },
{
    let sl = section_lines(title, totals, names, rows);
    lemma_row_line_counts(title, totals);
    assert forall|k: int| 0 <= k < sl.len() implies {
        let l = #[trigger] sl[k];
        &&& count_char(l, ',') == n + 1
        &&& count_char(l, '\n') == 0
        &&& l.len() > 0
    } by {
        if k > 0 {
            assert(sl[k] == row_line(names[k - 1], rows[k - 1]));
            assert(is_cell_text(names[k - 1]));
            assert(rows[k - 1].len() == n && all_cell_text(rows[k - 1]));
            lemma_row_line_counts(names[k - 1], rows[k - 1]);
        } else {
            assert(sl[k] == row_line(title, totals));
        }
    }
}

/// Under the same conditions, the exported file is its lines written one
/// after another, each with a line break: four lines per component and ten
/// more. No line holds a line break; the title line and the three empty
/// lines between sections hold no comma, and every other line holds one
/// comma after its label and one after each stream's cell.
pub proof fn lemma_csv_lines(t: ResultTable)
    requires
        t.well_formed(),
        t.stream_names@.len() > 0,
        all_cell_text(strings_view(t.stream_names@)),
        all_cell_text(strings_view(t.component_names@)),
        all_cell_text(strings_view(t.mole_flow@)),
        all_cell_text(strings_view(t.mass_flow@)),
        grid_cell_text(t.component_mole_flow@),
        grid_cell_text(t.component_mole_percent@),
        grid_cell_text(t.component_mass_flow@),
        grid_cell_text(t.component_mass_percent@),
    ensures
        csv_text(t) == join_lines(csv_lines(t)),
        csv_lines(t).len() == 4 * t.component_names@.len() + 10,
        forall|k: int| 0 <= k < csv_lines(t).len() ==> count_char(#[trigger] csv_lines(t)[k], '\n') == 0,
        forall|k: int|
            0 <= k < csv_lines(t).len() ==> {
                let m = t.component_names@.len();
                let blank = k == m + 4 || k == 2 * m + 6 || k == 3 * m + 8;
                &&& (k == 0 || blank) ==> count_char(#[trigger] csv_lines(t)[k], ',') == 0
                &&& !(k == 0 || blank) ==> count_char(csv_lines(t)[k], ',') == t.stream_names@.len() + 1
                &&& blank <==> csv_lines(t)[k].len() == 0
            },
{
    let n = t.stream_names@.len();
    let m = t.component_names@.len();
    let names = strings_view(t.component_names@);
    reveal_strlit("\u{FEFF}");
    reveal_strlit("物料平衡计算结果");
    reveal_strlit("流股号");
    reveal_strlit("摩尔流量(kmol/h)");
    reveal_strlit("摩尔分率(%)");
    reveal_strlit("质量流量(kg/h)");
    reveal_strlit("质量分率(%)");
    let head = "\u{FEFF}"@ + "物料平衡计算结果"@;
    assert(is_cell_text(head));
    assert(head.len() > 0);
    assert(is_cell_text("流股号"@));
    assert(is_cell_text("摩尔流量(kmol/h)"@));
    assert(is_cell_text("摩尔分率(%)"@));
    assert(is_cell_text("质量流量(kg/h)"@));
    assert(is_cell_text("质量分率(%)"@));
    assert(is_cell_text(Seq::<char>::empty()));
    lemma_cell_counts(head);
    lemma_cell_counts(Seq::<char>::empty());
    assert(all_cell_text(stream_numbers(n as nat))) by {
        assert forall|k: int| 0 <= k < n implies is_cell_text(#[trigger] stream_numbers(n as nat)[k]) by {
            crate::text::lemma_decimal_round_trip((k + 1) as nat);
        }
    }
    assert(all_cell_text(blank_cells(n as nat)));
    lemma_grid_rows(t.component_mole_flow@, m as nat, n as nat);
    lemma_grid_rows(t.component_mole_percent@, m as nat, n as nat);
    lemma_grid_rows(t.component_mass_flow@, m as nat, n as nat);
    lemma_grid_rows(t.component_mass_percent@, m as nat, n as nat);
    let r1 = row_line(Seq::empty(), strings_view(t.stream_names@));
    let r2 = row_line("流股号"@, stream_numbers(n as nat));
    let l1 = section_lines("摩尔流量(kmol/h)"@, strings_view(t.mole_flow@), names, grid_view(t.component_mole_flow@));
    let l2 = section_lines("摩尔分率(%)"@, blank_cells(n as nat), names, grid_view(t.component_mole_percent@));
    let l3 = section_lines("质量流量(kg/h)"@, strings_view(t.mass_flow@), names, grid_view(t.component_mass_flow@));
    let l4 = section_lines("质量分率(%)"@, blank_cells(n as nat), names, grid_view(t.component_mass_percent@));
    let e = seq![Seq::<char>::empty()];
    let top = seq![head, r1, r2];
    lemma_section_join("摩尔流量(kmol/h)"@, strings_view(t.mole_flow@), names, grid_view(t.component_mole_flow@));
    lemma_section_join("摩尔分率(%)"@, blank_cells(n as nat), names, grid_view(t.component_mole_percent@));
    lemma_section_join("质量流量(kg/h)"@, strings_view(t.mass_flow@), names, grid_view(t.component_mass_flow@));
    lemma_section_join("质量分率(%)"@, blank_cells(n as nat), names, grid_view(t.component_mass_percent@));
    lemma_section_line_counts("摩尔流量(kmol/h)"@, strings_view(t.mole_flow@), names, grid_view(t.component_mole_flow@), n as nat);
    lemma_section_line_counts("摩尔分率(%)"@, blank_cells(n as nat), names, grid_view(t.component_mole_percent@), n as nat);
    lemma_section_line_counts("质量流量(kg/h)"@, strings_view(t.mass_flow@), names, grid_view(t.component_mass_flow@), n as nat);
    lemma_section_line_counts("质量分率(%)"@, blank_cells(n as nat), names, grid_view(t.component_mass_percent@), n as nat);
    lemma_row_line_counts(Seq::empty(), strings_view(t.stream_names@));
    lemma_row_line_counts("流股号"@, stream_numbers(n as nat));
    // the text
    assert(join_lines(top) =~= head + "\n"@ + row_text(Seq::empty(), strings_view(t.stream_names@)) + row_text("流股号"@, stream_numbers(n as nat))) by {
        lemma_join_one(head);
        assert(seq![head, r1].drop_last() =~= seq![head]);
        assert(seq![head, r1].last() == r1);
        assert(top.drop_last() =~= seq![head, r1]);
        assert(top.last() == r2);
        assert(join_lines(seq![head, r1]) == join_lines(seq![head]) + r1 + "\n"@);
        assert(join_lines(top) == join_lines(seq![head, r1]) + r2 + "\n"@);
        assert(row_text(Seq::empty(), strings_view(t.stream_names@)) == r1 + "\n"@);
        assert(row_text("流股号"@, stream_numbers(n as nat)) == r2 + "\n"@);
    }
    lemma_join_one(Seq::<char>::empty());
    let c1 = top + l1;
    let c2 = c1 + e;
    let c3 = c2 + l2;
    let c4 = c3 + e;
    let c5 = c4 + l3;
    let c6 = c5 + e;
    let c7 = c6 + l4;
    lemma_join_concat(top, l1);
    lemma_join_concat(c1, e);
    lemma_join_concat(c2, l2);
    lemma_join_concat(c3, e);
    lemma_join_concat(c4, l3);
    lemma_join_concat(c5, e);
    lemma_join_concat(c6, l4);
    assert(csv_lines(t) == c7);
    assert(csv_text(t) =~= join_lines(c7));
    // the lines
    let lines = csv_lines(t);
    assert(lines.len() == 4 * m + 10);
    assert forall|k: int| 0 <= k < lines.len() implies {
        let blank = k == m + 4 || k == 2 * m + 6 || k == 3 * m + 8;
        &&& count_char(#[trigger] lines[k], '\n') == 0
        &&& (k == 0 || blank) ==> count_char(lines[k], ',') == 0
        &&& !(k == 0 || blank) ==> count_char(lines[k], ',') == n + 1
        &&& blank <==> lines[k].len() == 0
    } by {
        if k < 3 {
            assert(lines[k] == top[k]);
        } else if k < m + 4 {
            assert(lines[k] == l1[k - 3]);
        } else if k == m + 4 {
            assert(lines[k] == Seq::<char>::empty());
        } else if k < 2 * m + 6 {
            assert(lines[k] == l2[k - (m + 5)]);
        } else if k == 2 * m + 6 {
            assert(lines[k] == Seq::<char>::empty());
        } else if k < 3 * m + 8 {
            assert(lines[k] == l3[k - (2 * m + 7)]);
        } else if k == 3 * m + 8 {
            assert(lines[k] == Seq::<char>::empty());
        } else {
            assert(lines[k] == l4[k - (3 * m + 9)]);
        }
    }
}

/// What each line of the exported file holds: the title, the stream names,
/// the stream numbers; then the molar flows (totals, then one row per
/// component), the molar fractions, the mass flows and the mass fractions,
/// each section after an empty line but the first.
pub proof fn lemma_csv_content(t: ResultTable)
    requires
        t.well_formed(),
    ensures
        ({
            let n = t.stream_names@.len();
            let m = t.component_names@.len() as int;
            let names = strings_view(t.component_names@);
            let lines = csv_lines(t);
            &&& lines[0] == "\u{FEFF}"@ + "物料平衡计算结果"@
            &&& lines[1] == row_line(Seq::empty(), strings_view(t.stream_names@))
            &&& lines[2] == row_line("流股号"@, Seq::new(n, |i: int| decimal_text((i + 1) as nat)))
            &&& lines[3] == row_line("摩尔流量(kmol/h)"@, strings_view(t.mole_flow@))
            &&& lines[m + 5] == row_line("摩尔分率(%)"@, blank_cells(n))
            &&& lines[2 * m + 7] == row_line("质量流量(kg/h)"@, strings_view(t.mass_flow@))
            &&& lines[3 * m + 9] == row_line("质量分率(%)"@, blank_cells(n))
            &&& forall|c: int|
                0 <= c < m ==> {
                    &&& #[trigger] lines[4 + c] == row_line(names[c], strings_view(t.component_mole_flow@[c]@))
                    &&& lines[m + 6 + c] == row_line(names[c], strings_view(t.component_mole_percent@[c]@))
                    &&& lines[2 * m + 8 + c] == row_line(names[c], strings_view(t.component_mass_flow@[c]@))
                    &&& lines[3 * m + 10 + c] == row_line(names[c], strings_view(t.component_mass_percent@[c]@))
                }
        }),
{
    let n = t.stream_names@.len();
    let m = t.component_names@.len() as int;
    let names = strings_view(t.component_names@);
    let lines = csv_lines(t);
    let l1 = section_lines("摩尔流量(kmol/h)"@, strings_view(t.mole_flow@), names, grid_view(t.component_mole_flow@));
    let l2 = section_lines("摩尔分率(%)"@, blank_cells(n), names, grid_view(t.component_mole_percent@));
    let l3 = section_lines("质量流量(kg/h)"@, strings_view(t.mass_flow@), names, grid_view(t.component_mass_flow@));
    let l4 = section_lines("质量分率(%)"@, blank_cells(n), names, grid_view(t.component_mass_percent@));
    assert(stream_numbers(n) =~= Seq::new(n, |i: int| decimal_text((i + 1) as nat)));
    assert(lines[m + 5] == l2[0]);
    assert(lines[2 * m + 7] == l3[0]);
    assert(lines[3 * m + 9] == l4[0]);
    assert forall|c: int| 0 <= c < m implies {
        &&& #[trigger] lines[4 + c] == row_line(names[c], strings_view(t.component_mole_flow@[c]@))
        &&& lines[m + 6 + c] == row_line(names[c], strings_view(t.component_mole_percent@[c]@))
        &&& lines[2 * m + 8 + c] == row_line(names[c], strings_view(t.component_mass_flow@[c]@))
        &&& lines[3 * m + 10 + c] == row_line(names[c], strings_view(t.component_mass_percent@[c]@))
    } by {
        assert(lines[4 + c] == l1[1 + c]);
        assert(lines[m + 6 + c] == l2[1 + c]);
        assert(lines[2 * m + 8 + c] == l3[1 + c]);
        assert(lines[3 * m + 10 + c] == l4[1 + c]);
        assert(grid_view(t.component_mole_flow@)[c] == strings_view(t.component_mole_flow@[c]@));
        assert(grid_view(t.component_mole_percent@)[c] == strings_view(t.component_mole_percent@[c]@));
        assert(grid_view(t.component_mass_flow@)[c] == strings_view(t.component_mass_flow@[c]@));
        assert(grid_view(t.component_mass_percent@)[c] == strings_view(t.component_mass_percent@[c]@));
    }
}

broadcast use vstd::std_specs::hash::group_hash_axioms;

/// The title of the first node with this identifier; empty where none has
/// it.
pub open spec fn title_of(nodes: Seq<Node>, id: u128) -> Seq<char>
    decreases nodes.len(),
{
    if nodes.len() == 0 {
        Seq::empty()
    } else if nodes[0].id == id {
        nodes[0].title@
    } else {
        title_of(nodes.drop_first(), id)
    }
}

/// A node's title names a stream end exactly when the node carries the
/// identifier and no node before it does; with no such node the title is
/// empty.
pub proof fn lemma_title_of(nodes: Seq<Node>, id: u128)
    ensures
        forall|p: int|
            0 <= p < nodes.len() && (#[trigger] nodes[p]).id == id && (forall|q: int| 0 <= q < p ==> (#[trigger] nodes[q]).id != id)
                ==> title_of(nodes, id) == nodes[p].title@,
        (forall|p: int| 0 <= p < nodes.len() ==> (#[trigger] nodes[p]).id != id) ==> title_of(nodes, id) == Seq::<char>::empty(),
    decreases nodes.len(),
{
    if nodes.len() > 0 {
        let rest = nodes.drop_first();
        lemma_title_of(rest, id);
        assert forall|p: int|
            0 <= p < nodes.len() && (#[trigger] nodes[p]).id == id && (forall|q: int| 0 <= q < p ==> (#[trigger] nodes[q]).id != id)
                implies title_of(nodes, id) == nodes[p].title@ by {
            if p > 0 {
                assert(nodes[0].id != id);
                assert(rest[p - 1] == nodes[p]);
                assert forall|q: int| 0 <= q < p - 1 implies (#[trigger] rest[q]).id != id by {
                    assert(rest[q] == nodes[q + 1]);
                }
            }
        }
        if forall|p: int| 0 <= p < nodes.len() ==> (#[trigger] nodes[p]).id != id {
            assert(nodes[0].id != id);
            assert forall|p: int| 0 <= p < rest.len() implies (#[trigger] rest[p]).id != id by {
                assert(rest[p] == nodes[p + 1]);
            }
        }
    }
}

fn find_title(nodes: &Vec<Node>, id: u128) -> (s: String)
    ensures
        s@ == title_of(nodes@, id),
{
    let n = nodes.len();
    assert(nodes@.skip(0) =~= nodes@);
    for i in 0..n
        invariant
            n == nodes@.len(),
            title_of(nodes@, id) == title_of(nodes@.skip(i as int), id),
    {
        assert(nodes@.skip(i as int).drop_first() =~= nodes@.skip(i + 1));
        if nodes[i].id == id {
            return nodes[i].title.clone();
        }
    }
    assert(nodes@.skip(n as int) =~= Seq::<Node>::empty());
    String::new()
}

/// The name of the stream a connection carries: the name the user gave it;
/// where none was given, the title of the node it leaves, an arrow, and the
/// title of the node it enters.
pub fn connection_label(graph: &FlowGraph, conn: &Connection) -> (s: String)
    ensures
        s@ == match conn.stream_name {
            Some(name) => name@,
            None => title_of(graph.nodes@, conn.origin_node) + " → "@ + title_of(graph.nodes@, conn.target_node),
        },
{
    match &conn.stream_name {
        Some(name) => name.clone(),
        None => {
            let mut s = find_title(&graph.nodes, conn.origin_node);
            s.append(" → ");
            let to = find_title(&graph.nodes, conn.target_node);
            s.append(to.as_str());
            s
        },
    }
}

/// The streams the results show: for each connection in order, the output
/// it carries, where its origin has produced that output.
pub open spec fn shown_streams<S>(conns: Seq<Connection>, results: Map<u128, Vec<(String, S)>>) -> Seq<(usize, StreamRef)>
    decreases conns.len(),
{
    if conns.len() == 0 {
        Seq::empty()
    } else {
        let prev = shown_streams(conns.drop_last(), results);
        let c = conns.last();
        if results.contains_key(c.origin_node) && c.origin_slot < results[c.origin_node]@.len() {
            prev.push(((conns.len() - 1) as usize, (c.origin_node, c.origin_slot)))
        } else {
            prev
        }
    }
}

/// Every connection whose origin has produced the output of its slot shows
/// its stream, once, at its position; no other connection shows one; the
/// positions increase.
pub proof fn lemma_shown_streams<S>(conns: Seq<Connection>, results: Map<u128, Vec<(String, S)>>)
    requires
        conns.len() <= usize::MAX,
    ensures
        forall|a: int, b: int| 0 <= a < b < shown_streams(conns, results).len() ==> (#[trigger] shown_streams(conns, results)[a]).0 < (#[trigger] shown_streams(conns, results)[b]).0,
        forall|a: int|
            0 <= a < shown_streams(conns, results).len() ==> {
                let (j, st) = #[trigger] shown_streams(conns, results)[a];
                &&& j < conns.len()
                &&& st == (conns[j as int].origin_node, conns[j as int].origin_slot)
                &&& results.contains_key(st.0)
                &&& st.1 < results[st.0]@.len()
            },
        forall|j: int|
            0 <= j < conns.len() && results.contains_key((#[trigger] conns[j]).origin_node) && conns[j].origin_slot < results[conns[j].origin_node]@.len()
                ==> exists|a: int| 0 <= a < shown_streams(conns, results).len() && shown_streams(conns, results)[a].0 == j,
    decreases conns.len(),
{
    if conns.len() > 0 {
        let pc = conns.drop_last();
        let prev = shown_streams(pc, results);
        let sh = shown_streams(conns, results);
        lemma_shown_streams(pc, results);
        let last = conns.len() - 1;
        assert forall|a: int| 0 <= a < prev.len() implies sh[a] == prev[a] && (#[trigger] prev[a]).0 < last by {}
        assert forall|a: int, b: int| 0 <= a < b < sh.len() implies (#[trigger] sh[a]).0 < (#[trigger] sh[b]).0 by {
            if b < prev.len() {
                assert(prev[a].0 < prev[b].0);
            } else {
                assert(sh[b].0 == last as usize);
                assert(prev[a].0 < last);
            }
        }
        assert forall|a: int| 0 <= a < sh.len() implies {
            let (j, st) = #[trigger] sh[a];
            &&& j < conns.len()
            &&& st == (conns[j as int].origin_node, conns[j as int].origin_slot)
            &&& results.contains_key(st.0)
            &&& st.1 < results[st.0]@.len()
        } by {
            if a < prev.len() {
                assert(pc[prev[a].0 as int] == conns[prev[a].0 as int]);
            } else {
                assert(sh[a].0 == last as usize);
            }
        }
        assert forall|j: int|
            0 <= j < conns.len() && results.contains_key((#[trigger] conns[j]).origin_node) && conns[j].origin_slot < results[conns[j].origin_node]@.len()
                implies exists|a: int| 0 <= a < sh.len() && sh[a].0 == j by {
            if j < last {
                assert(pc[j] == conns[j]);
                let a = choose|a: int| 0 <= a < prev.len() && prev[a].0 == j;
                assert(sh[a] == prev[a]);
            } else {
                assert(sh[sh.len() - 1].0 == j);
            }
        }
    }
}

/// The streams of the results, one per connection that carries one, with
/// the connection's position.
pub fn connection_streams<S>(graph: &FlowGraph, results: &HashMap<u128, Vec<(String, S)>>) -> (r: Vec<(usize, StreamRef)>)
    ensures
        r@ == shown_streams(graph.connections@, results@),
        forall|i: int|
            0 <= i < r@.len() ==> {
                let (j, (id, slot)) = #[trigger] r@[i];
                &&& j < graph.connections@.len()
                &&& graph.connections@[j as int].origin_node == id
                &&& graph.connections@[j as int].origin_slot == slot
                &&& results@.contains_key(id)
                &&& slot < results@[id]@.len()
            },
        forall|a: int, b: int| 0 <= a < b < r@.len() ==> (#[trigger] r@[a]).0 < (#[trigger] r@[b]).0,
        forall|j: int|
            0 <= j < graph.connections@.len() && results@.contains_key((#[trigger] graph.connections@[j]).origin_node)
                && graph.connections@[j].origin_slot < results@[graph.connections@[j].origin_node]@.len() ==> exists|a: int|
                0 <= a < r@.len() && r@[a].0 == j,
{
    let total = graph.connections.len();
    proof {
        assert(graph.connections@.len() == total);
        lemma_shown_streams(graph.connections@, results@);
    }
    let mut r: Vec<(usize, StreamRef)> = Vec::new();
    let m = graph.connections.len();
    for j in 0..m
        invariant
            m == graph.connections@.len(),
            r@ == shown_streams(graph.connections@.take(j as int), results@),
            forall|i: int|
                0 <= i < r@.len() ==> {
                    let (jj, (id, slot)) = #[trigger] r@[i];
                    &&& jj < j
                    &&& graph.connections@[jj as int].origin_node == id
                    &&& graph.connections@[jj as int].origin_slot == slot
                    &&& results@.contains_key(id)
                    &&& slot < results@[id]@.len()
                },
    {
        let c = &graph.connections[j];
        assert(graph.connections@.take(j + 1).drop_last() =~= graph.connections@.take(j as int));
        match results.get(&c.origin_node) {
            Some(outputs) => {
                if c.origin_slot < outputs.len() {
                    r.push((j, (c.origin_node, c.origin_slot)));
                }
            },
            None => {},
        }
    }
    assert(graph.connections@.take(m as int) =~= graph.connections@);
    r
}

} // verus!
