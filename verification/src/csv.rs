//! A minimal RFC-4180 reader: quoted fields, `""` escapes inside quotes, rows
//! ended by `\n` or `\r\n`, each row kept with its raw source line.
use vstd::prelude::*;
use crate::text::{str_chars, string_from_chars};

verus! {

/// The reader's state between characters.
pub struct CsvState {
    pub rows: Seq<(Seq<Seq<char>>, Seq<char>)>,
    pub row: Seq<Seq<char>>,
    pub field: Seq<char>,
    pub in_quotes: bool,
    pub row_start: int,
}

/// The text without trailing carriage returns.
pub open spec fn trim_end_cr(s: Seq<char>) -> Seq<char>
    decreases s.len(),
{
    if s.len() > 0 && s.last() == '\r' {
        trim_end_cr(s.drop_last())
    } else {
        s
    }
}

/// At the end of the input, a started row (a pending field or cell) becomes
/// the last row; its raw line is the rest of the input without trailing `\r`.
pub open spec fn csv_finish(p: Seq<char>, st: CsvState) -> Seq<(Seq<Seq<char>>, Seq<char>)> {
    if st.field.len() > 0 || st.row.len() > 0 {
        st.rows.push((st.row.push(st.field), trim_end_cr(p.subrange(st.row_start, p.len() as int))))
    } else {
        st.rows
    }
}

/// Reads `p` from position `i` on. Inside quotes every character is data,
/// `""` is a literal quote and a lone `"` closes the quotes. Outside quotes,
/// `"` opens quotes, `,` ends a cell, `\r` is dropped, and `\n` ends the row,
/// whose raw line runs from the row's start to the `\n` (less one `\r` just
/// before it).
pub open spec fn csv_run(p: Seq<char>, i: nat, st: CsvState) -> Seq<(Seq<Seq<char>>, Seq<char>)>
    decreases p.len() - i,
{
    if i >= p.len() {
        csv_finish(p, st)
    } else {
        let c = p[i as int];
        if st.in_quotes {
            if c == '"' {
                if i + 1 < p.len() && p[i + 1 as int] == '"' {
                    csv_run(p, i + 2, CsvState { field: st.field.push('"'), ..st })
                } else {
                    csv_run(p, i + 1, CsvState { in_quotes: false, ..st })
                }
            } else {
                csv_run(p, i + 1, CsvState { field: st.field.push(c), ..st })
            }
        } else if c == '"' {
            csv_run(p, i + 1, CsvState { in_quotes: true, ..st })
        } else if c == ',' {
            csv_run(p, i + 1, CsvState { row: st.row.push(st.field), field: Seq::empty(), ..st })
        } else if c == '\r' {
            csv_run(p, i + 1, st)
        } else if c == '\n' {
            let end: int = if i > st.row_start && p[i - 1] == '\r' {
                i - 1
            } else {
                i as int
            };
            csv_run(
                p,
                i + 1,
                CsvState {
                    rows: st.rows.push((st.row.push(st.field), p.subrange(st.row_start, end))),
                    row: Seq::empty(),
                    field: Seq::empty(),
                    in_quotes: false,
                    row_start: (i + 1) as int,
                },
            )
        } else {
            csv_run(p, i + 1, CsvState { field: st.field.push(c), ..st })
        }
    }
}

/// The rows of a CSV payload, each as its cells and its raw line.
pub open spec fn parse_csv(p: Seq<char>) -> Seq<(Seq<Seq<char>>, Seq<char>)> {
    csv_run(
        p,
        0,
        CsvState {
            rows: Seq::empty(),
            row: Seq::empty(),
            field: Seq::empty(),
            in_quotes: false,
            row_start: 0,
        },
    )
}

/// Cells as texts.
pub open spec fn cells_view(row: Seq<String>) -> Seq<Seq<char>> {
    row.map_values(|f: String| f@)
}

/// Rows as plain values.
pub open spec fn csv_rows_view(rows: Seq<(Vec<String>, String)>) -> Seq<(Seq<Seq<char>>, Seq<char>)> {
    rows.map_values(|r: (Vec<String>, String)| (cells_view(r.0@), r.1@))
}

/// The characters `p[lo..hi]` as a `String`.
pub fn chars_range(p: &Vec<char>, lo: usize, hi: usize) -> (s: String)
    requires
        lo <= hi <= p.len(),
    ensures
        s@ == p@.subrange(lo as int, hi as int),
{
    let mut v: Vec<char> = Vec::new();
    let mut k = lo;
    while k < hi
        invariant
            lo <= k <= hi <= p.len(),
            v@ == p@.subrange(lo as int, k as int),
        decreases hi - k,
    {
        v.push(p[k]);
        k = k + 1;
        assert(v@ =~= p@.subrange(lo as int, k as int));
    }
    string_from_chars(&v)
}

fn push_row(rows: &mut Vec<(Vec<String>, String)>, row: Vec<String>, raw: String)
    ensures
        csv_rows_view(final(rows)@) == csv_rows_view(old(rows)@).push((cells_view(row@), raw@)),
{
    let ghost r = row@;
    let ghost w = raw@;
    rows.push((row, raw));
    assert(csv_rows_view(final(rows)@) =~= csv_rows_view(old(rows)@).push((cells_view(r), w)));
}

fn push_cell(row: &mut Vec<String>, field: &Vec<char>)
    ensures
        cells_view(final(row)@) == cells_view(old(row)@).push(field@),
{
    let s = string_from_chars(field);
    row.push(s);
    assert(cells_view(final(row)@) =~= cells_view(old(row)@).push(field@));
}

/// Splits a CSV payload into rows (see [`csv_run`]).
pub fn parse_csv_rows(payload: &str) -> (rows: Vec<(Vec<String>, String)>)
    ensures
        csv_rows_view(rows@) == parse_csv(payload@),
{
    let p = str_chars(payload);
    let mut rows: Vec<(Vec<String>, String)> = Vec::new();
    let mut row: Vec<String> = Vec::new();
    let mut field: Vec<char> = Vec::new();
    let mut in_quotes = false;
    let mut row_start: usize = 0;
    let mut i: usize = 0;
    assert(csv_rows_view(rows@) =~= Seq::<(Seq<Seq<char>>, Seq<char>)>::empty());
    assert(cells_view(row@) =~= Seq::<Seq<char>>::empty());
    while i < p.len()
        invariant
            i <= p.len(),
            row_start <= i,
            p@ == payload@,
            parse_csv(payload@) == csv_run(
                p@,
                i as nat,
                CsvState {
                    rows: csv_rows_view(rows@),
                    row: cells_view(row@),
                    field: field@,
                    in_quotes,
                    row_start: row_start as int,
                },
            ),
        decreases p.len() - i,
    {
        let c = p[i];
        if in_quotes {
            if c == '"' {
                if i + 1 < p.len() && p[i + 1] == '"' {
                    field.push('"');
                    i = i + 2;
                } else {
                    in_quotes = false;
                    i = i + 1;
                }
            } else {
                field.push(c);
                i = i + 1;
            }
        } else if c == '"' {
            in_quotes = true;
            i = i + 1;
        } else if c == ',' {
            push_cell(&mut row, &field);
            field = Vec::new();
            assert(field@ =~= Seq::<char>::empty());
            i = i + 1;
        } else if c == '\r' {
            i = i + 1;
        } else if c == '\n' {
            push_cell(&mut row, &field);
            let end = if i > row_start && p[i - 1] == '\r' {
                i - 1
            } else {
                i
            };
            let raw = chars_range(&p, row_start, end);
            let done_row = row;
            push_row(&mut rows, done_row, raw);
            row = Vec::new();
            field = Vec::new();
            assert(field@ =~= Seq::<char>::empty());
            assert(cells_view(row@) =~= Seq::<Seq<char>>::empty());
            row_start = i + 1;
            i = i + 1;
        } else {
            field.push(c);
            i = i + 1;
        }
    }
    if field.len() > 0 || row.len() > 0 {
        push_cell(&mut row, &field);
        let mut end = p.len();
        while end > row_start && p[end - 1] == '\r'
            invariant
                row_start <= end <= p.len(),
                trim_end_cr(p@.subrange(row_start as int, p.len() as int)) == trim_end_cr(
                    p@.subrange(row_start as int, end as int),
                ),
            decreases end,
        {
            assert(p@.subrange(row_start as int, end as int).drop_last() =~= p@.subrange(
                row_start as int,
                end - 1,
            ));
            end = end - 1;
        }
        let raw = chars_range(&p, row_start, end);
        push_row(&mut rows, row, raw);
    }
    rows
}

/// Reading `p` and reading `p` followed by a newline agree from position `i`
/// on, when the rest of `p` holds no quote, its last character is neither a
/// newline nor a carriage return, and the reader is outside quotes with its
/// current row started at or before `i`.
proof fn lemma_csv_run_newline(p: Seq<char>, i: nat, st: CsvState)
    requires
        i < p.len(),
        forall|k: int| i <= k < p.len() ==> #[trigger] p[k] != '"',
        p.last() != '\n',
        p.last() != '\r',
        !st.in_quotes,
        0 <= st.row_start <= i,
    ensures
        csv_run(p.push('\n'), i, st) == csv_run(p, i, st),
    decreases p.len() - i,
{
    let q = p.push('\n');
    let c = p[i as int];
    assert(q[i as int] == c);
    assert(q.len() == p.len() + 1);
    if i > 0 {
        assert(q[i - 1] == p[i - 1]);
    }
    if c == '\n' {
        let end: int = if i > st.row_start && p[i - 1] == '\r' {
            i - 1
        } else {
            i as int
        };
        assert(q.subrange(st.row_start, end) =~= p.subrange(st.row_start, end));
    }
    if i + 1 < p.len() {
        if c == ',' {
            lemma_csv_run_newline(p, i + 1, CsvState { row: st.row.push(st.field), field: Seq::empty(), ..st });
        } else if c == '\r' {
            lemma_csv_run_newline(p, i + 1, st);
        } else if c == '\n' {
            let end: int = if i > st.row_start && p[i - 1] == '\r' {
                i - 1
            } else {
                i as int
            };
            lemma_csv_run_newline(
                p,
                i + 1,
                CsvState {
                    rows: st.rows.push((st.row.push(st.field), p.subrange(st.row_start, end))),
                    row: Seq::empty(),
                    field: Seq::empty(),
                    in_quotes: false,
                    row_start: (i + 1) as int,
                },
            );
        } else {
            lemma_csv_run_newline(p, i + 1, CsvState { field: st.field.push(c), ..st });
        }
    } else {
        // the last character: it is data or a cell separator, so a row is
        // pending, and the added newline ends it where the input would
        let n = p.len() as int;
        assert(c != '\n' && c != '\r' && c != '"');
        let st2 = if c == ',' {
            CsvState { row: st.row.push(st.field), field: Seq::empty(), ..st }
        } else {
            CsvState { field: st.field.push(c), ..st }
        };
        assert(st2.field.len() > 0 || st2.row.len() > 0);
        assert(q[n] == '\n');
        assert(q[n - 1] == p[n - 1]);
        assert(q.subrange(st2.row_start, n) =~= p.subrange(st2.row_start, n));
        let raw = p.subrange(st2.row_start, n);
        assert(raw.len() > 0 && raw.last() == p.last());
        assert(trim_end_cr(raw) == raw);
        let after = CsvState {
            rows: st2.rows.push((st2.row.push(st2.field), raw)),
            row: Seq::empty(),
            field: Seq::empty(),
            in_quotes: false,
            row_start: n + 1,
        };
        assert(csv_run(q, (n + 1) as nat, after) == after.rows);
        assert(csv_run(q, n as nat, st2) == after.rows);
        assert(csv_run(p, n as nat, st2) == csv_finish(p, st2));
    }
}

/// The last row counts whether or not a newline ends it: a payload without
/// quotes that does not end in a newline or carriage return reads as the
/// same rows, raw lines included, as that payload followed by a newline.
pub proof fn lemma_last_row_needs_no_newline(p: Seq<char>)
    requires
        p.len() > 0,
        !p.contains('"'),
        p.last() != '\n',
        p.last() != '\r',
    ensures
        parse_csv(p.push('\n')) == parse_csv(p),
{
    assert forall|k: int| 0 <= k < p.len() implies #[trigger] p[k] != '"' by {
        if p[k] == '"' {
            assert(p.contains('"'));
        }
    }
    lemma_csv_run_newline(
        p,
        0,
        CsvState {
            rows: Seq::empty(),
            row: Seq::empty(),
            field: Seq::empty(),
            in_quotes: false,
            row_start: 0,
        },
    );
}

/// Cells joined back with commas.
pub open spec fn join_cells(cells: Seq<Seq<char>>) -> Seq<char>
    decreases cells.len(),
{
    if cells.len() == 0 {
        Seq::empty()
    } else if cells.len() == 1 {
        cells[0]
    } else {
        join_cells(cells.drop_last()) + seq![','] + cells.last()
    }
}

/// Reading a line free of quotes, newlines and carriage returns from
/// position `i` on finishes the one row whose cells, joined with commas, are
/// the whole line.
proof fn lemma_plain_line_run(p: Seq<char>, i: nat, st: CsvState)
    requires
        p.len() > 0,
        i <= p.len(),
        forall|k: int| 0 <= k < p.len() ==> #[trigger] p[k] != '"' && p[k] != '\n' && p[k] != '\r',
        !st.in_quotes,
        st.rows == Seq::<(Seq<Seq<char>>, Seq<char>)>::empty(),
        st.row_start == 0,
        join_cells(st.row.push(st.field)) == p.take(i as int),
        i > 0 ==> st.field.len() > 0 || st.row.len() > 0,
    ensures
        csv_run(p, i, st).len() == 1,
        csv_run(p, i, st)[0].1 == p,
        join_cells(csv_run(p, i, st)[0].0) == p,
    decreases p.len() - i,
{
    if i == p.len() {
        assert(p.take(i as int) =~= p);
        assert(p.subrange(0, p.len() as int) =~= p);
        assert(p.len() > 0 && p.last() != '\r');
        assert(trim_end_cr(p) == p);
    } else {
        let c = p[i as int];
        assert(p.take(i + 1 as int) =~= p.take(i as int).push(c));
        if c == ',' {
            let st2 = CsvState { row: st.row.push(st.field), field: Seq::empty(), ..st };
            let cells = st.row.push(st.field);
            assert(st2.row.push(st2.field).drop_last() =~= cells);
            assert(join_cells(st2.row.push(st2.field)) =~= p.take(i + 1 as int));
            lemma_plain_line_run(p, i + 1, st2);
        } else {
            let st2 = CsvState { field: st.field.push(c), ..st };
            let cells2 = st2.row.push(st2.field);
            if st.row.len() == 0 {
                assert(st.row.push(st.field) =~= seq![st.field]);
                assert(cells2 =~= seq![st.field.push(c)]);
            } else {
                assert(cells2.drop_last() =~= st.row);
                assert(st.row.push(st.field).drop_last() =~= st.row);
                assert(join_cells(cells2) =~= join_cells(st.row.push(st.field)).push(c));
            }
            lemma_plain_line_run(p, i + 1, st2);
        }
    }
}

/// A line free of quotes, newlines and carriage returns is read as one row:
/// its raw line is the line, and its cells are the line split at every
/// comma (joined back with commas they give the line).
pub proof fn lemma_plain_line_is_one_row(p: Seq<char>)
    requires
        p.len() > 0,
        !p.contains('"'),
        !p.contains('\n'),
        !p.contains('\r'),
    ensures
        parse_csv(p).len() == 1,
        parse_csv(p)[0].1 == p,
        join_cells(parse_csv(p)[0].0) == p,
{
    assert forall|k: int| 0 <= k < p.len() implies #[trigger] p[k] != '"' && p[k] != '\n' && p[k] != '\r' by {
        assert(p.contains(p[k]));
    }
    let st = CsvState {
        rows: Seq::empty(),
        row: Seq::empty(),
        field: Seq::empty(),
        in_quotes: false,
        row_start: 0,
    };
    assert(st.row.push(st.field) =~= seq![Seq::<char>::empty()]);
    assert(p.take(0) =~= Seq::<char>::empty());
    lemma_plain_line_run(p, 0, st);
}

} // verus!
