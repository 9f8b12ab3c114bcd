//! Word-wrapping a row that carries SGR colour codes, keeping the colours across the breaks.

use vstd::prelude::*;

use crate::csi::{
    csi_at, csi_end, csi_is_sgr, csi_next, csi_params, esc, lemma_csi_end_bounds, lemma_sgr_at,
    no_esc_from, params_ok, scan_params, sgr_seq, visible_from,
};
use crate::measure::{char_widths, measure_chars, measure_text_width, measured_width, width_at};
use crate::text::{chars_equal, chars_of, copy_chars, push_chars, push_range, string_of, strings_view};

verus! {

/// One printable character (`.0`) with its display width (`.1`) and the SGR style active where
/// it stands (`.2`).
pub type CellModel = (char, nat, Seq<char>);

/// The part of a row that one wrapped line shows: cells `.0 .. .1`, and whether it is the first
/// line (`.2`; continuation lines are indented).
pub type LineSpan = (int, int, bool);

/// The width a cell is given when its character `c` measures `w` columns: printable ASCII and
/// the space take one column, anything else its measured width, at least one.
pub open spec fn cell_width(c: char, w: usize) -> nat {
    if c == ' ' || ('!' <= c && c <= '~') {
        1
    } else if w < 1 {
        1
    } else {
        w as nat
    }
}

/// The active style after an SGR sequence `sgr` with parameters `params`: a bare or `0`
/// parameter list resets it, anything else is appended to it.
pub open spec fn next_active(active: Seq<char>, params: Seq<char>, sgr: Seq<char>) -> Seq<char> {
    if params.len() == 0 || params == seq!['0'] {
        Seq::empty()
    } else {
        active + sgr
    }
}

/// The cells of `s` from position `i` on, with `active` the style in force at `i` and `ws` the
/// measured width of each character. Control sequences produce no cell; SGR ones update the style.
pub open spec fn cells_from(s: Seq<char>, ws: Seq<usize>, i: int, active: Seq<char>) -> Seq<CellModel>
    decreases s.len() - i,
    via cells_from_decreases
{
    if i < 0 || i >= s.len() {
        Seq::empty()
    } else if csi_at(s, i) {
        let next = csi_next(s, i);
        if csi_is_sgr(s, i) {
            cells_from(
                s,
                ws,
                next,
                next_active(active, csi_params(s, i), s.subrange(i, csi_end(s, i + 2) + 1)),
            )
        } else {
            cells_from(s, ws, next, active)
        }
    } else {
        seq![(s[i], cell_width(s[i], width_at(ws, i)), active)] + cells_from(
            s,
            ws,
            i + 1,
            active,
        )
    }
}

#[via_fn]
proof fn cells_from_decreases(s: Seq<char>, ws: Seq<usize>, i: int, active: Seq<char>) {
    if 0 <= i {
        lemma_csi_end_bounds(s, i + 2);
    }
}

/// The greedy fill: the first cell, from `j` on, that no longer fits in `left` columns.
pub open spec fn fit_cells(cells: Seq<CellModel>, j: int, left: int) -> int
    decreases cells.len() - j,
{
    if 0 <= j < cells.len() && cells[j].1 <= left {
        fit_cells(cells, j + 1, left - cells[j].1)
    } else {
        j
    }
}

/// The last space among cells `lo..hi`, or `-1` when there is none.
pub open spec fn last_space(cells: Seq<CellModel>, lo: int, hi: int) -> int
    decreases hi - lo,
{
    if hi <= lo {
        -1
    } else if cells[hi - 1].0 == ' ' {
        hi - 1
    } else {
        last_space(cells, lo, hi - 1)
    }
}

/// The first cell at or after `j` (and before `hi`) that is not a space, or `hi`.
pub open spec fn skip_spaces(cells: Seq<CellModel>, j: int, hi: int) -> int
    decreases hi - j,
{
    if j < hi && cells[j].0 == ' ' {
        skip_spaces(cells, j + 1, hi)
    } else {
        j
    }
}

pub proof fn lemma_last_space(cells: Seq<CellModel>, lo: int, hi: int)
    ensures
        last_space(cells, lo, hi) == -1 || (lo <= last_space(cells, lo, hi) < hi && cells[last_space(
            cells,
            lo,
            hi,
        )].0 == ' '),
        forall|k: int| last_space(cells, lo, hi) < k < hi && lo <= k ==> #[trigger] cells[k].0 != ' ',
    decreases hi - lo,
{
    if hi > lo && cells[hi - 1].0 != ' ' {
        lemma_last_space(cells, lo, hi - 1);
    }
}

pub proof fn lemma_skip_spaces(cells: Seq<CellModel>, j: int, hi: int)
    ensures
        j <= hi ==> j <= skip_spaces(cells, j, hi) <= hi,
        j > hi ==> skip_spaces(cells, j, hi) == j,
        forall|k: int| j <= k < skip_spaces(cells, j, hi) ==> #[trigger] cells[k].0 == ' ',
        skip_spaces(cells, j, hi) < hi ==> cells[skip_spaces(cells, j, hi)].0 != ' ',
    decreases hi - j,
{
    if j < hi && cells[j].0 == ' ' {
        lemma_skip_spaces(cells, j + 1, hi);
    }
}

/// Columns available on a line: the full width on the first, two fewer on continuations.
pub open spec fn line_budget(width: int, first: bool) -> int {
    if first {
        width
    } else {
        width - 2
    }
}

/// How the cells from `i` on are laid out on lines. A line ends after the last space that fits
/// (or where the budget runs out when no space fits); continuation lines drop their leading
/// spaces; a cell too wide for any line is placed alone on its own line.
pub open spec fn wrap_plan(cells: Seq<CellModel>, width: int, i: int, first: bool) -> Seq<LineSpan>
    decreases cells.len() - i,
{
    if i < 0 || i >= cells.len() {
        Seq::empty()
    } else {
        let e0 = fit_cells(cells, i, line_budget(width, first));
        if e0 < cells.len() {
            let e1 = if e0 <= i {
                i + 1
            } else {
                e0
            };
            let sp = last_space(cells, i, e1);
            let end = if sp > i {
                sp + 1
            } else {
                e1
            };
            let start = if first {
                i
            } else {
                skip_spaces(cells, i, end)
            };
            proof {
                lemma_last_space(cells, i, e1);
            }
            if start >= end {
                wrap_plan(cells, width, end, false)
            } else {
                proof {
                    lemma_skip_spaces(cells, end, cells.len() as int);
                }
                seq![(start, end, first)] + wrap_plan(
                    cells,
                    width,
                    skip_spaces(cells, end, cells.len() as int),
                    false,
                )
            }
        } else {
            seq![(i, cells.len() as int, first)]
        }
    }
}

/// The SGR reset sequence `ESC [ 0 m`.
pub open spec fn sgr_reset() -> Seq<char> {
    seq![esc(), '[', '0', 'm']
}

/// What is written before a cell whose style is `style` when `emitted` is the style in force:
/// nothing when they agree, a reset when the style goes back to none, the style otherwise.
pub open spec fn open_style(style: Seq<char>, emitted: Seq<char>) -> Seq<char> {
    if style == emitted {
        Seq::empty()
    } else if style.len() == 0 {
        sgr_reset()
    } else {
        style
    }
}

/// Serialised cells: each style is re-emitted where it changes from `emitted` (a reset where it
/// goes back to none), and a reset closes the text when a style is still open at the end.
pub open spec fn emit_cells(cells: Seq<CellModel>, emitted: Seq<char>) -> Seq<char>
    decreases cells.len(),
{
    if cells.len() == 0 {
        if emitted.len() > 0 {
            sgr_reset()
        } else {
            Seq::empty()
        }
    } else {
        let c = cells[0];
        open_style(c.2, emitted).push(c.0) + emit_cells(cells.drop_first(), c.2)
    }
}

/// The indent that opens a line.
pub open spec fn indent_of(first: bool) -> Seq<char> {
    if first {
        Seq::empty()
    } else {
        seq![' ', ' ']
    }
}

/// The text of one planned line.
pub open spec fn render_line(cells: Seq<CellModel>, l: LineSpan) -> Seq<char> {
    indent_of(l.2) + emit_cells(cells.subrange(l.0, l.1), Seq::empty())
}

/// The text of every planned line.
pub open spec fn render_plan(cells: Seq<CellModel>, plan: Seq<LineSpan>) -> Seq<Seq<char>> {
    plan.map_values(|l: LineSpan| render_line(cells, l))
}

/// The width `wrap_sgr_row` works with: at least eight columns.
pub open spec fn effective_width(width: usize) -> int {
    if width < 8 {
        8
    } else {
        width as int
    }
}

/// Executable `effective_width`.
fn effective_width_of(width: usize) -> (r: usize)
    ensures
        r == effective_width(width),
{
    if width < 8 {
        8
    } else {
        width
    }
}

/// What `wrap_sgr_row_measured` returns for `row` when the whole row measures `row_cols` columns
/// and its characters measure `ws`.
pub open spec fn wrap_spec_with(row: Seq<char>, width: usize, row_cols: usize, ws: Seq<usize>) -> Seq<
    Seq<char>,
> {
    let w = effective_width(width);
    if row.len() == 0 || row_cols <= w {
        seq![row]
    } else {
        let cells = cells_from(row, ws, 0, Seq::empty());
        if cells.len() == 0 {
            seq![row]
        } else {
            let lines = render_plan(cells, wrap_plan(cells, w, 0, true));
            if lines.len() == 0 {
                seq![Seq::empty()]
            } else {
                lines
            }
        }
    }
}

/// What `wrap_sgr_row` returns for `row`: the wrap with the widths that console measures.
pub open spec fn wrap_spec(row: Seq<char>, width: usize) -> Seq<Seq<char>> {
    wrap_spec_with(row, width, measured_width(row), char_widths(row))
}

/// One printable character, its width, and the SGR style active at its position.
type Cell = (char, usize, Vec<char>);

spec fn cell_model(c: Cell) -> CellModel {
    (c.0, c.1 as nat, c.2@)
}

spec fn models(cells: Seq<Cell>) -> Seq<CellModel> {
    cells.map_values(|c: Cell| cell_model(c))
}

/// Split a row into cells, tracking the SGR style active at each printable character.
fn row_cells(cs: &Vec<char>, ws: &Vec<usize>) -> (cells: Vec<Cell>)
    ensures
        models(cells@) == cells_from(cs@, ws@, 0, Seq::empty()),
{
    let n = cs.len();
    let mut cells: Vec<Cell> = Vec::new();
    let mut active: Vec<char> = Vec::new();
    let mut i: usize = 0;
    while i < n
        invariant
            n == cs.len(),
            i <= n,
            models(cells@) + cells_from(cs@, ws@, i as int, active@) == cells_from(
                cs@,
                ws@,
                0,
                Seq::empty(),
            ),
        decreases n - i,
    {
        let c = cs[i];
        let ghost before = models(cells@);
        let ghost act = active@;
        if c == '\x1b' && i + 1 < n && cs[i + 1] == '[' {
            proof {
                lemma_csi_end_bounds(cs@, i + 2);
            }
            let j = scan_params(cs.as_slice(), i + 2);
            assert(csi_at(cs@, i as int));
            if j < n && cs[j] == 'm' {
                assert(csi_is_sgr(cs@, i as int));
                if j == i + 2 || (j == i + 3 && cs[i + 2] == '0') {
                    proof {
                        if j == i + 3 {
                            assert(csi_params(cs@, i as int) =~= seq!['0']);
                        } else {
                            assert(csi_params(cs@, i as int) =~= Seq::<char>::empty());
                        }
                    }
                    active = Vec::new();
                } else {
                    proof {
                        let p = csi_params(cs@, i as int);
                        assert(p.len() == j - i - 2);
                        if p == seq!['0'] {
                            assert(p[0] == cs@[i + 2]);
                        }
                    }
                    push_range(&mut active, cs.as_slice(), i, j + 1);
                }
                assert(active@ == next_active(act, csi_params(cs@, i as int), cs@.subrange(i as int, csi_end(cs@, i + 2) + 1)));
                assert(cells_from(cs@, ws@, i as int, act) == cells_from(cs@, ws@, j + 1, active@));
                i = j + 1;
            } else {
                assert(!csi_is_sgr(cs@, i as int));
                let next: usize = if j < n {
                    j + 1
                } else {
                    n
                };
                assert(cells_from(cs@, ws@, i as int, act) == cells_from(cs@, ws@, next as int, act));
                i = next;
            }
        } else {
            let given: usize = if i < ws.len() {
                ws[i]
            } else {
                0
            };
            let w: usize = if c == ' ' || ('!' <= c && c <= '~') {
                1
            } else if given < 1 {
                1
            } else {
                given
            };
            let cell: Cell = (c, w, copy_chars(&active));
            let ghost cm = cell_model(cell);
            assert(!csi_at(cs@, i as int));
            assert(cm == (cs@[i as int], cell_width(cs@[i as int], width_at(ws@, i as int)), act));
            assert(cells_from(cs@, ws@, i as int, act) == seq![cm] + cells_from(cs@, ws@, i + 1, act));
            let ghost old_cells = cells@;
            cells.push(cell);
            proof {
                assert(cells@ == old_cells.push(cell));
                assert(cells@[old_cells.len() as int] == cell);
                assert(models(cells@).len() == before.len() + 1);
                assert forall|k: int| 0 <= k < before.len() implies models(cells@)[k] == before[k] by {
                    assert(cells@[k] == old_cells[k]);
                }
                assert(models(cells@) =~= before.push(cm));
                assert(before + (seq![cm] + cells_from(cs@, ws@, i + 1, act)) =~= before.push(cm)
                    + cells_from(cs@, ws@, i + 1, act));
            }
            i = i + 1;
        }
    }
    proof {
        assert(cells_from(cs@, ws@, n as int, active@) =~= Seq::<CellModel>::empty());
        assert(models(cells@) + Seq::<CellModel>::empty() =~= models(cells@));
    }
    cells
}

/// Serialise cells `start..end` back to an SGR string behind `indent`: re-emit the style whenever
/// it changes (so the first cell's style opens the line), reset at the end when a style is active.
fn emit_wrapped_line(cells: &Vec<Cell>, start: usize, end: usize, indent: &str) -> (r: String)
    requires
        start <= end <= cells.len(),
    ensures
        r@ == indent@ + emit_cells(models(cells@).subrange(start as int, end as int), Seq::empty()),
{
    let ghost m = models(cells@);
    let ghost whole = m.subrange(start as int, end as int);
    let mut out: Vec<char> = chars_of(indent);
    let mut emitted: Vec<char> = Vec::new();
    let mut k: usize = start;
    while k < end
        invariant
            start <= k <= end <= cells.len(),
            m == models(cells@),
            whole == m.subrange(start as int, end as int),
            out@ + emit_cells(m.subrange(k as int, end as int), emitted@) == indent@ + emit_cells(
                whole,
                Seq::empty(),
            ),
        decreases end - k,
    {
        let cell = &cells[k];
        let ghost rest = m.subrange(k as int, end as int);
        let ghost old_out = out@;
        let ghost prev = emitted@;
        assert(rest[0] == cell_model(*cell));
        assert(rest.drop_first() =~= m.subrange(k + 1, end as int));
        if !chars_equal(cell.2.as_slice(), emitted.as_slice()) {
            if cell.2.len() == 0 {
                out.push('\x1b');
                out.push('[');
                out.push('0');
                out.push('m');
            } else {
                push_chars(&mut out, cell.2.as_slice());
            }
            emitted = copy_chars(&cell.2);
        }
        out.push(cell.0);
        proof {
            let open = open_style(cell.2@, prev);
            assert(out@ =~= old_out + open.push(cell.0));
            assert(emitted@ == cell.2@);
            assert(emit_cells(rest, prev) == open.push(cell.0) + emit_cells(
                m.subrange(k + 1, end as int),
                cell.2@,
            ));
        }
        k = k + 1;
    }
    let ghost body = out@;
    if emitted.len() > 0 {
        out.push('\x1b');
        out.push('[');
        out.push('0');
        out.push('m');
    }
    proof {
        assert(m.subrange(end as int, end as int) =~= Seq::<CellModel>::empty());
        if emitted.len() > 0 {
            assert(out@ =~= body + sgr_reset());
        } else {
            assert(out@ =~= body + Seq::<char>::empty());
        }
    }
    string_of(out.as_slice())
}



proof fn lemma_fit_cells(cells: Seq<CellModel>, j: int, left: int)
    requires
        0 <= j <= cells.len(),
    ensures
        j <= fit_cells(cells, j, left) <= cells.len(),
    decreases cells.len() - j,
{
    if 0 <= j < cells.len() && cells[j].1 <= left {
        lemma_fit_cells(cells, j + 1, left - cells[j].1);
    }
}

/// A one-element vector holding a copy of `row`.
fn single_row(row: &str) -> (r: Vec<String>)
    ensures
        strings_view(r@) == seq![row@],
{
    let mut r: Vec<String> = Vec::new();
    r.push(string_of(chars_of(row).as_slice()));
    assert(strings_view(r@) =~= seq![row@]);
    r
}

/// Word-wrap one sanitised row (SGR colour codes only, no cursor moves) to `width` display
/// cells (at least eight), preserving colours across the break.
///
/// Rows that already fit are returned unchanged. Otherwise each line takes as many cells as fit
/// and breaks after the last space among them (a run with no space splits at the budget);
/// continuation lines are indented two cells and never open with spaces. Every line re-emits the
/// style active at its first cell and ends with a reset when a style is open, because each row
/// is parsed on its own downstream. A cell wider than a whole line is placed on a line of its own.
pub fn wrap_sgr_row(row: &str, width: usize) -> (r: Vec<String>)
    ensures
        strings_view(r@) == wrap_spec(row@, width),
{
    let row_cols = measure_text_width(row);
    let cs = chars_of(row);
    if cs.len() == 0 || row_cols <= effective_width_of(width) {
        return wrap_sgr_row_measured(row, width, row_cols, &Vec::new());
    }
    let ws = measure_chars(&cs);
    wrap_sgr_row_measured(row, width, row_cols, &ws)
}

/// `wrap_sgr_row` once the row has been measured: `row_cols` is the display width of the whole
/// row and `widths[k]` that of its `k`-th character (a missing entry counts as zero). Printable
/// ASCII and the space always take one column; any other character takes its given width, at
/// least one.
pub fn wrap_sgr_row_measured(row: &str, width: usize, row_cols: usize, widths: &Vec<usize>) -> (r:
    Vec<String>)
    ensures
        strings_view(r@) == wrap_spec_with(row@, width, row_cols, widths@),
{
    let width: usize = if width < 8 {
        8
    } else {
        width
    };
    let cs = chars_of(row);
    if cs.len() == 0 {
        return single_row(row);
    }
    if row_cols <= width {
        return single_row(row);
    }
    let cells = row_cells(&cs, widths);
    if cells.len() == 0 {
        return single_row(row);
    }
    let ghost m = models(cells@);
    let ghost w = width as int;
    let mut lines: Vec<String> = Vec::new();
    let mut i: usize = 0;
    let mut first = true;
    while i < cells.len()
        invariant
            m == models(cells@),
            w == width as int,
            width >= 8,
            i <= cells.len(),
            strings_view(lines@) + render_plan(m, wrap_plan(m, w, i as int, first)) == render_plan(
                m,
                wrap_plan(m, w, 0, true),
            ),
        decreases cells.len() - i,
    {
        let ghost plan_i = wrap_plan(m, w, i as int, first);
        let ghost before = strings_view(lines@);
        let budget: usize = if first {
            width
        } else {
            width - 2
        };
        let mut take: usize = 0;
        let mut take_w: usize = 0;
        while i + take < cells.len() && cells[i + take].1 <= budget - take_w
            invariant
                i < cells.len(),
                m == models(cells@),
                take_w <= budget,
                i + take <= cells.len(),
                fit_cells(m, (i + take) as int, budget - take_w) == fit_cells(
                    m,
                    i as int,
                    budget as int,
                ),
            decreases cells.len() - (i + take),
        {
            assert(m[(i + take) as int].1 == cells@[(i + take) as int].1);
            take_w = take_w + cells[i + take].1;
            take = take + 1;
        }
        assert(line_budget(w, first) == budget);
        let mut end: usize = i + take;
        assert(end == fit_cells(m, i as int, line_budget(w, first)));
        if end < cells.len() {
            if end <= i {
                end = i + 1;
            }
            let ghost e1 = end as int;
            let mut k: usize = end;
            while k > i
                invariant
                    i <= k <= end,
                    end <= cells.len(),
                    m == models(cells@),
                    last_space(m, i as int, end as int) == last_space(m, i as int, k as int),
                ensures
                    i <= k <= end,
                    k > i ==> m[k - 1].0 == ' ' && last_space(m, i as int, end as int) == k - 1,
                    k == i ==> last_space(m, i as int, end as int) == -1,
                decreases k,
            {
                if cells[k - 1].0 == ' ' {
                    break;
                }
                k = k - 1;
            }
            if k > i && k - 1 > i {
                end = k;
            }
            let mut start: usize = i;
            if !first {
                while start < end && cells[start].0 == ' '
                    invariant
                        i <= start <= end,
                        end <= cells.len(),
                        m == models(cells@),
                        skip_spaces(m, start as int, end as int) == skip_spaces(
                            m,
                            i as int,
                            end as int,
                        ),
                    decreases end - start,
                {
                    start = start + 1;
                }
            }
            if start >= end {
                assert(plan_i == wrap_plan(m, w, end as int, false));
                i = end;
                first = false;
                continue;
            }
            let indent: &str = if first {
                ""
            } else {
                "  "
            };
            proof {
                reveal_strlit("");
                reveal_strlit("  ");
            }
            assert(indent@ =~= indent_of(first));
            let line = emit_wrapped_line(
                &cells,
                start,
                end,
                indent,
            );
            let ghost l: LineSpan = (start as int, end as int, first);
            assert(line@ == render_line(m, l));
            i = end;
            while i < cells.len() && cells[i].0 == ' '
                invariant
                    end <= i <= cells.len(),
                    m == models(cells@),
                    skip_spaces(m, i as int, m.len() as int) == skip_spaces(
                        m,
                        end as int,
                        m.len() as int,
                    ),
                decreases cells.len() - i,
            {
                i = i + 1;
            }
            assert(plan_i == seq![l] + wrap_plan(m, w, i as int, false));
            lines.push(line);
            proof {
                assert(strings_view(lines@) =~= before.push(line@));
                assert(render_plan(m, seq![l] + wrap_plan(m, w, i as int, false)) =~= seq![
                    render_line(m, l),
                ] + render_plan(m, wrap_plan(m, w, i as int, false)));
                assert(before + render_plan(m, plan_i) =~= strings_view(lines@) + render_plan(
                    m,
                    wrap_plan(m, w, i as int, false),
                ));
            }
        } else {
            let indent: &str = if first {
                ""
            } else {
                "  "
            };
            proof {
                reveal_strlit("");
                reveal_strlit("  ");
            }
            assert(indent@ =~= indent_of(first));
            let line = emit_wrapped_line(
                &cells,
                i,
                cells.len(),
                indent,
            );
            let ghost l: LineSpan = (i as int, cells.len() as int, first);
            assert(line@ == render_line(m, l));
            assert(plan_i == seq![l]);
            lines.push(line);
            proof {
                assert(strings_view(lines@) =~= before.push(line@));
                assert(render_plan(m, seq![l]) =~= seq![render_line(m, l)]);
                assert(wrap_plan(m, w, cells.len() as int, false) =~= Seq::<LineSpan>::empty());
                assert(render_plan(m, Seq::<LineSpan>::empty()) =~= Seq::<Seq<char>>::empty());
                assert(before + render_plan(m, plan_i) =~= strings_view(lines@) + render_plan(
                    m,
                    wrap_plan(m, w, cells.len() as int, false),
                ));
            }
            i = cells.len();
        }
        first = false;
    }
    proof {
        assert(wrap_plan(m, w, i as int, first) =~= Seq::<LineSpan>::empty());
        assert(render_plan(m, Seq::<LineSpan>::empty()) =~= Seq::<Seq<char>>::empty());
        assert(strings_view(lines@) + Seq::<Seq<char>>::empty() =~= strings_view(lines@));
    }
    if lines.len() == 0 {
        lines.push(String::new());
        assert(strings_view(lines@) =~= seq![Seq::<char>::empty()]);
    }
    lines
}


/// Total width of cells `a..b`.
pub open spec fn cells_width(cells: Seq<CellModel>, a: int, b: int) -> int
    decreases b - a,
{
    if a >= b {
        0
    } else {
        cells[a].1 + cells_width(cells, a + 1, b)
    }
}

/// Cells `a..b` are all spaces.
pub open spec fn all_spaces(cells: Seq<CellModel>, a: int, b: int) -> bool {
    forall|j: int| a <= j < b ==> #[trigger] cells[j].0 == ' '
}

/// The shape every plan has: lines in order, non-empty, inside the cells; only the first may be
/// flagged first; what lies before, between and after the lines is spaces.
pub open spec fn plan_well_formed(cells: Seq<CellModel>, i: int, first: bool, p: Seq<LineSpan>) -> bool {
    &&& forall|k: int| 0 <= k < p.len() ==> i <= (#[trigger] p[k]).0 < p[k].1 <= cells.len()
    &&& forall|k: int| 0 < k < p.len() ==> !(#[trigger] p[k]).2
    &&& p.len() > 0 ==> p[0].2 == first
    &&& forall|k: int|
        0 <= k < p.len() - 1 ==> (#[trigger] p[k]).1 <= p[k + 1].0 && all_spaces(
            cells,
            p[k].1,
            p[k + 1].0,
        )
    &&& p.len() > 0 ==> all_spaces(cells, i, p[0].0) && all_spaces(cells, p.last().1, cells.len() as int)
    &&& p.len() == 0 ==> all_spaces(cells, i, cells.len() as int)
}

proof fn lemma_fit_width(cells: Seq<CellModel>, j: int, left: int)
    requires
        0 <= j <= cells.len(),
    ensures
        cells_width(cells, j, fit_cells(cells, j, left)) <= if left < 0 { 0 } else { left },
    decreases cells.len() - j,
{
    if 0 <= j < cells.len() && cells[j].1 <= left {
        lemma_fit_width(cells, j + 1, left - cells[j].1);
    }
}

proof fn lemma_width_sub(cells: Seq<CellModel>, a: int, b: int, c: int, d: int)
    requires
        a <= c <= d <= b,
    ensures
        cells_width(cells, c, d) <= cells_width(cells, a, b),
    decreases (c - a) + (b - d),
{
    if a < c {
        lemma_width_sub(cells, a + 1, b, c, d);
    } else if d < b {
        lemma_width_split(cells, a, d, b);
        lemma_width_nonneg(cells, d, b);
    }
}

proof fn lemma_width_nonneg(cells: Seq<CellModel>, a: int, b: int)
    ensures
        cells_width(cells, a, b) >= 0,
    decreases b - a,
{
    if a < b {
        lemma_width_nonneg(cells, a + 1, b);
    }
}

proof fn lemma_width_split(cells: Seq<CellModel>, a: int, m: int, b: int)
    requires
        a <= m <= b,
    ensures
        cells_width(cells, a, b) == cells_width(cells, a, m) + cells_width(cells, m, b),
    decreases m - a,
{
    if a < m {
        lemma_width_split(cells, a + 1, m, b);
    }
}

/// The shape of a plan, and (when no cell is wider than a continuation line) that every line
/// fits its budget.
pub proof fn lemma_wrap_plan(cells: Seq<CellModel>, w: int, i: int, first: bool)
    requires
        w >= 8,
        0 <= i <= cells.len(),
    ensures
        plan_well_formed(cells, i, first, wrap_plan(cells, w, i, first)),
        (forall|j: int| i <= j < cells.len() ==> #[trigger] cells[j].1 <= w - 2) ==> forall|k: int|
            0 <= k < wrap_plan(cells, w, i, first).len() ==> cells_width(
                cells,
                (#[trigger] wrap_plan(cells, w, i, first)[k]).0,
                wrap_plan(cells, w, i, first)[k].1,
            ) <= line_budget(w, wrap_plan(cells, w, i, first)[k].2),
    decreases cells.len() - i,
{
    let p = wrap_plan(cells, w, i, first);
    if i >= cells.len() {
        return;
    }
    let b = line_budget(w, first);
    let e0 = fit_cells(cells, i, b);
    lemma_fit_cells(cells, i, b);
    lemma_fit_width(cells, i, b);
    if e0 < cells.len() {
        let e1 = if e0 <= i {
            i + 1
        } else {
            e0
        };
        let sp = last_space(cells, i, e1);
        lemma_last_space(cells, i, e1);
        let end = if sp > i {
            sp + 1
        } else {
            e1
        };
        let start = if first {
            i
        } else {
            skip_spaces(cells, i, end)
        };
        lemma_skip_spaces(cells, i, end);
        if start >= end {
            lemma_wrap_plan(cells, w, end, false);
            let q = wrap_plan(cells, w, end, false);
            assert(p == q);
            assert(all_spaces(cells, i, end));
            if q.len() > 0 {
                assert(all_spaces(cells, i, q[0].0));
            } else {
                assert(all_spaces(cells, i, cells.len() as int));
            }
        } else {
            let i2 = skip_spaces(cells, end, cells.len() as int);
            lemma_skip_spaces(cells, end, cells.len() as int);
            lemma_wrap_plan(cells, w, i2, false);
            let q = wrap_plan(cells, w, i2, false);
            let l: LineSpan = (start, end, first);
            assert(p == seq![l] + q);
            assert(p[0] == l);
            assert(forall|k: int| 0 < k < p.len() ==> p[k] == q[k - 1]);
            assert(all_spaces(cells, i, start));
            if q.len() > 0 {
                assert(p[1] == q[0]);
                assert(all_spaces(cells, end, q[0].0));
                assert(p.last() == q.last());
            } else {
                assert(all_spaces(cells, end, cells.len() as int));
            }
            assert forall|k: int| 0 <= k < p.len() - 1 implies (#[trigger] p[k]).1 <= p[k + 1].0
                && all_spaces(cells, p[k].1, p[k + 1].0) by {
                if k > 0 {
                    assert(p[k] == q[k - 1]);
                    assert(p[k + 1] == q[k]);
                }
            }
            if forall|j: int| i <= j < cells.len() ==> #[trigger] cells[j].1 <= w - 2 {
                assert(cells[i].1 <= b);
                lemma_fit_cells(cells, i + 1, b - cells[i].1);
                assert(e0 > i);
                lemma_width_sub(cells, i, e0, start, end);
                assert forall|k: int| 0 <= k < p.len() implies cells_width(
                    cells,
                    (#[trigger] p[k]).0,
                    p[k].1,
                ) <= line_budget(w, p[k].2) by {
                    if k > 0 {
                        assert(p[k] == q[k - 1]);
                    }
                }
            }
        }
    } else {
        let l: LineSpan = (i, cells.len() as int, first);
        assert(p == seq![l]);
        assert(all_spaces(cells, i, i));
        assert(all_spaces(cells, cells.len() as int, cells.len() as int));
    }
}


/// `s` ends with `t`.
pub open spec fn ends_with(s: Seq<char>, t: Seq<char>) -> bool {
    s.len() >= t.len() && s.subrange(s.len() - t.len(), s.len() as int) == t
}

proof fn lemma_emit_end(cells: Seq<CellModel>, emitted: Seq<char>)
    requires
        cells.len() > 0,
    ensures
        cells.last().2.len() > 0 ==> ends_with(emit_cells(cells, emitted), sgr_reset()),
        cells.last().2.len() == 0 ==> emit_cells(cells, emitted).len() > 0 && emit_cells(
            cells,
            emitted,
        ).last() == cells.last().0,
    decreases cells.len(),
{
    let c = cells[0];
    let open = open_style(c.2, emitted);
    let rest = cells.drop_first();
    let head = open.push(c.0);
    assert(emit_cells(cells, emitted) == head + emit_cells(rest, c.2));
    if rest.len() == 0 {
        assert(cells.last() == c);
        if c.2.len() > 0 {
            let e = head + sgr_reset();
            assert(e.subrange(e.len() - 4, e.len() as int) =~= sgr_reset());
        } else {
            assert(head + emit_cells(rest, c.2) =~= head);
        }
    } else {
        lemma_emit_end(rest, c.2);
        assert(rest.last() == cells.last());
        let tail = emit_cells(rest, c.2);
        let e = head + tail;
        if cells.last().2.len() > 0 {
            assert(e.subrange(e.len() - 4, e.len() as int) =~= tail.subrange(
                tail.len() - 4,
                tail.len() as int,
            ));
        } else {
            assert(e.last() == tail.last());
        }
    }
}

/// Styles survive wrapping: a serialised run of cells opens with the style of its first cell,
/// and ends with a reset exactly when its last cell is styled (otherwise with that cell's
/// character).
pub proof fn lemma_emit_styles(cells: Seq<CellModel>)
    requires
        cells.len() > 0,
    ensures
        emit_cells(cells, Seq::empty()).take(cells[0].2.len() as int) == cells[0].2,
        cells.last().2.len() > 0 ==> ends_with(emit_cells(cells, Seq::empty()), sgr_reset()),
        cells.last().2.len() == 0 ==> emit_cells(cells, Seq::empty()).last() == cells.last().0,
{
    lemma_emit_end(cells, Seq::empty());
    let c = cells[0];
    let open = open_style(c.2, Seq::empty());
    let e = open.push(c.0) + emit_cells(cells.drop_first(), c.2);
    assert(emit_cells(cells, Seq::empty()) == e);
    if c.2.len() > 0 {
        assert(e.take(c.2.len() as int) =~= c.2);
    } else {
        assert(c.2 =~= Seq::<char>::empty());
        assert(e.take(0) =~= c.2);
    }
}

/// The first `k` cells of `cells`, serialised after `emitted` (no closing reset).
pub open spec fn emit_upto(cells: Seq<CellModel>, emitted: Seq<char>, k: int) -> Seq<char>
    decreases k,
{
    if k <= 0 || cells.len() == 0 {
        Seq::empty()
    } else {
        open_style(cells[0].2, emitted).push(cells[0].0) + emit_upto(
            cells.drop_first(),
            cells[0].2,
            k - 1,
        )
    }
}

proof fn lemma_emit_split(cells: Seq<CellModel>, emitted: Seq<char>, k: int)
    requires
        0 < k <= cells.len(),
    ensures
        emit_cells(cells, emitted) == emit_upto(cells, emitted, k) + emit_cells(
            cells.skip(k),
            cells[k - 1].2,
        ),
    decreases k,
{
    let rest = cells.drop_first();
    let head = open_style(cells[0].2, emitted).push(cells[0].0);
    if k == 1 {
        assert(cells.skip(1) =~= rest);
        assert(emit_upto(rest, cells[0].2, 0) =~= Seq::<char>::empty());
        assert(head + Seq::<char>::empty() =~= head);
    } else {
        lemma_emit_split(rest, cells[0].2, k - 1);
        assert(rest.skip(k - 1) =~= cells.skip(k));
        assert(rest[k - 2] == cells[k - 1]);
        assert(head + (emit_upto(rest, cells[0].2, k - 1) + emit_cells(cells.skip(k), cells[k
            - 1].2)) =~= (head + emit_upto(rest, cells[0].2, k - 1)) + emit_cells(
            cells.skip(k),
            cells[k - 1].2,
        ));
    }
}

/// A style that goes back to none is closed: where a styled cell is followed by an unstyled
/// one, the serialised text writes a reset right before the unstyled cell's character; where the
/// style changes to another style, that style is written before the character.
pub proof fn lemma_emit_style_changes(cells: Seq<CellModel>, emitted: Seq<char>, k: int)
    requires
        0 < k < cells.len(),
        cells[k - 1].2 != cells[k].2,
    ensures
        ({
            let open = if cells[k].2.len() == 0 {
                sgr_reset()
            } else {
                cells[k].2
            };
            emit_cells(cells, emitted) == emit_upto(cells, emitted, k) + (open.push(cells[k].0)
                + emit_cells(cells.skip(k + 1), cells[k].2))
        }),
{
    lemma_emit_split(cells, emitted, k);
    let t = cells.skip(k);
    assert(t[0] == cells[k]);
    assert(t.drop_first() =~= cells.skip(k + 1));
}

/// Wrapping law for an over-long row: the lines are the planned spans of its cells rendered
/// behind their indents; the plan is well formed (first line flagged, lines in order, only spaces
/// dropped between them), and when no cell is wider than a continuation line every line fits its
/// budget (the full width on the first line, two columns fewer after).
pub proof fn lemma_wrap_sgr_row(row: Seq<char>, width: usize, row_cols: usize, ws: Seq<usize>)
    requires
        row.len() > 0,
        row_cols > effective_width(width),
        cells_from(row, ws, 0, Seq::empty()).len() > 0,
    ensures
        ({
            let cells = cells_from(row, ws, 0, Seq::empty());
            let w = effective_width(width);
            let plan = wrap_plan(cells, w, 0, true);
            &&& plan.len() > 0
            &&& wrap_spec_with(row, width, row_cols, ws) == render_plan(cells, plan)
            &&& plan_well_formed(cells, 0, true, plan)
            &&& (forall|j: int| 0 <= j < cells.len() ==> #[trigger] cells[j].1 <= w - 2) ==> forall|
                k: int,
            |
                0 <= k < plan.len() ==> cells_width(cells, (#[trigger] plan[k]).0, plan[k].1)
                    <= line_budget(w, plan[k].2)
        }),
{
    let cells = cells_from(row, ws, 0, Seq::empty());
    let w = effective_width(width);
    lemma_wrap_plan(cells, w, 0, true);
    let plan = wrap_plan(cells, w, 0, true);
    let e0 = fit_cells(cells, 0, w);
    lemma_fit_cells(cells, 0, w);
    if e0 < cells.len() {
        lemma_skip_spaces(cells, 0, cells.len() as int);
        assert(plan.len() > 0);
    }
}


/// The characters of a run of cells.
pub open spec fn cell_chars(cells: Seq<CellModel>) -> Seq<char> {
    cells.map_values(|c: CellModel| c.0)
}

/// Cells lose no text: their characters are the row with its control sequences taken out.
pub proof fn lemma_cells_visible(s: Seq<char>, ws: Seq<usize>, i: int, active: Seq<char>)
    requires
        0 <= i,
    ensures
        cell_chars(cells_from(s, ws, i, active)) == visible_from(s, i),
    decreases s.len() - i,
{
    if i >= s.len() {
        assert(cell_chars(cells_from(s, ws, i, active)) =~= Seq::<char>::empty());
    } else if csi_at(s, i) {
        lemma_csi_end_bounds(s, i + 2);
        let next = csi_next(s, i);
        if csi_is_sgr(s, i) {
            lemma_cells_visible(
                s,
                ws,
                next,
                next_active(active, csi_params(s, i), s.subrange(i, csi_end(s, i + 2) + 1)),
            );
        } else {
            lemma_cells_visible(s, ws, next, active);
        }
    } else {
        lemma_cells_visible(s, ws, i + 1, active);
        let c: CellModel = (s[i], cell_width(s[i], width_at(ws, i)), active);
        assert(cells_from(s, ws, i, active) == seq![c] + cells_from(s, ws, i + 1, active));
        assert(cell_chars(seq![c] + cells_from(s, ws, i + 1, active)) =~= seq![s[i]] + cell_chars(
            cells_from(s, ws, i + 1, active),
        ));
    }
}


proof fn lemma_plan_continuations(cells: Seq<CellModel>, w: int, i: int, first: bool)
    requires
        w >= 8,
        0 <= i <= cells.len(),
        first || i == cells.len() || cells[i].0 != ' ',
    ensures
        forall|k: int|
            0 <= k < wrap_plan(cells, w, i, first).len() && !(#[trigger] wrap_plan(
                cells,
                w,
                i,
                first,
            )[k]).2 ==> cells[wrap_plan(cells, w, i, first)[k].0].0 != ' ',
    decreases cells.len() - i,
{
    let p = wrap_plan(cells, w, i, first);
    if i >= cells.len() {
        return;
    }
    let b = line_budget(w, first);
    let e0 = fit_cells(cells, i, b);
    lemma_fit_cells(cells, i, b);
    if e0 < cells.len() {
        let e1 = if e0 <= i {
            i + 1
        } else {
            e0
        };
        let sp = last_space(cells, i, e1);
        lemma_last_space(cells, i, e1);
        let end = if sp > i {
            sp + 1
        } else {
            e1
        };
        let start = if first {
            i
        } else {
            skip_spaces(cells, i, end)
        };
        lemma_skip_spaces(cells, i, end);
        if !first {
            assert(start == i);
        }
        let i2 = skip_spaces(cells, end, cells.len() as int);
        lemma_skip_spaces(cells, end, cells.len() as int);
        lemma_plan_continuations(cells, w, i2, false);
        let q = wrap_plan(cells, w, i2, false);
        assert(p == seq![(start, end, first)] + q);
        assert forall|k: int| 0 <= k < p.len() && !(#[trigger] p[k]).2 implies cells[p[k].0].0
            != ' ' by {
            if k > 0 {
                assert(p[k] == q[k - 1]);
            }
        }
    }
}

/// Continuation lines never open with a space: the spaces at a break are dropped.
pub proof fn lemma_wrap_continuations(cells: Seq<CellModel>, w: int)
    requires
        w >= 8,
    ensures
        forall|k: int|
            0 < k < wrap_plan(cells, w, 0, true).len() ==> cells[(#[trigger] wrap_plan(
                cells,
                w,
                0,
                true,
            )[k]).0].0 != ' ',
{
    lemma_plan_continuations(cells, w, 0, true);
    lemma_wrap_plan(cells, w, 0, true);
}

/// A row that fits (or is empty) comes back as the single, unchanged line.
pub proof fn lemma_wrap_fitting_row(row: Seq<char>, width: usize, row_cols: usize, ws: Seq<usize>)
    requires
        row.len() == 0 || row_cols <= effective_width(width),
    ensures
        wrap_spec_with(row, width, row_cols, ws) == seq![row],
{
}


/// Every wrap has at least one line, every line after the first opens with the two-column
/// indent, and a width under eight wraps as eight does.
pub proof fn lemma_wrap_lines_shape(row: Seq<char>, width: usize, row_cols: usize, ws: Seq<usize>)
    ensures
        wrap_spec_with(row, width, row_cols, ws).len() > 0,
        forall|k: int|
            1 <= k < wrap_spec_with(row, width, row_cols, ws).len() ==> (#[trigger] wrap_spec_with(
                row,
                width,
                row_cols,
                ws,
            )[k]).take(2) == seq![' ', ' '],
        width < 8 ==> wrap_spec_with(row, width, row_cols, ws) == wrap_spec_with(
            row,
            8,
            row_cols,
            ws,
        ),
{
    let r = wrap_spec_with(row, width, row_cols, ws);
    let w = effective_width(width);
    if !(row.len() == 0 || row_cols <= w) {
        let cells = cells_from(row, ws, 0, Seq::empty());
        if cells.len() > 0 {
            let plan = wrap_plan(cells, w, 0, true);
            lemma_wrap_plan(cells, w, 0, true);
            let lines = render_plan(cells, plan);
            if lines.len() > 0 {
                assert forall|k: int| 1 <= k < r.len() implies (#[trigger] r[k]).take(2) == seq![
                    ' ',
                    ' ',
                ] by {
                    assert(r[k] == render_line(cells, plan[k]));
                    assert(!plan[k].2);
                    assert(r[k].take(2) =~= seq![' ', ' ']);
                }
            }
        }
    }
}


/// A parameter list that resets the style: empty, or the single code `0`.
pub open spec fn is_reset_params(p: Seq<char>) -> bool {
    p.len() == 0 || p == seq!['0']
}

/// Styles accumulate: an SGR sequence `ESC [ p m` at position `i` leaves the cells after it in
/// the style in force before it followed by that sequence, unless `p` resets, in which case they
/// carry no style.
pub proof fn lemma_cells_sgr_accumulates(
    s: Seq<char>,
    ws: Seq<usize>,
    i: int,
    active: Seq<char>,
    p: Seq<char>,
)
    requires
        0 <= i,
        i + p.len() + 3 <= s.len(),
        params_ok(p),
        s.subrange(i, i + p.len() + 3) == sgr_seq(p),
    ensures
        !is_reset_params(p) ==> cells_from(s, ws, i, active) == cells_from(
            s,
            ws,
            i + p.len() + 3,
            active + sgr_seq(p),
        ),
        is_reset_params(p) ==> cells_from(s, ws, i, active) == cells_from(
            s,
            ws,
            i + p.len() + 3,
            Seq::empty(),
        ),
{
    lemma_sgr_at(s, i, p);
    assert(s.subrange(i, csi_end(s, i + 2) + 1) == sgr_seq(p));
}

/// Text without escapes becomes one cell per character, each in the style in force.
pub proof fn lemma_cells_plain(s: Seq<char>, ws: Seq<usize>, i: int, active: Seq<char>)
    requires
        0 <= i <= s.len(),
        no_esc_from(s, i),
    ensures
        cells_from(s, ws, i, active).len() == s.len() - i,
        forall|j: int|
            0 <= j < s.len() - i ==> (#[trigger] cells_from(s, ws, i, active)[j]).0 == s[i + j]
                && cells_from(s, ws, i, active)[j].2 == active,
    decreases s.len() - i,
{
    if i < s.len() {
        assert(!csi_at(s, i));
        lemma_cells_plain(s, ws, i + 1, active);
        let c: CellModel = (s[i], cell_width(s[i], width_at(ws, i)), active);
        let rest = cells_from(s, ws, i + 1, active);
        assert(cells_from(s, ws, i, active) == seq![c] + rest);
        assert forall|j: int| 0 <= j < s.len() - i implies (#[trigger] cells_from(
            s,
            ws,
            i,
            active,
        )[j]).0 == s[i + j] && cells_from(s, ws, i, active)[j].2 == active by {
            if j > 0 {
                assert(cells_from(s, ws, i, active)[j] == rest[j - 1]);
            }
        }
    } else {
        assert(cells_from(s, ws, i, active) =~= Seq::<CellModel>::empty());
    }
}

/// Styles that were opened one after another are all re-opened on every wrapped line: for a row
/// made of two non-resetting SGR sequences followed by plain text, every line opens (behind its
/// indent) with both sequences, in order.
pub proof fn lemma_wrap_reopens_accumulated_style(
    p1: Seq<char>,
    p2: Seq<char>,
    t: Seq<char>,
    width: usize,
    row_cols: usize,
    ws: Seq<usize>,
)
    requires
        params_ok(p1),
        params_ok(p2),
        !is_reset_params(p1),
        !is_reset_params(p2),
        t.len() > 0,
        no_esc_from(t, 0),
    ensures
        ({
            let style = sgr_seq(p1) + sgr_seq(p2);
            let r = wrap_spec_with(style + t, width, row_cols, ws);
            &&& r.len() > 0
            &&& forall|k: int|
                0 <= k < r.len() ==> (#[trigger] r[k]).take(
                    (indent_of(k == 0).len() + style.len()) as int,
                ) == indent_of(k == 0) + style
        }),
{
    let s1 = sgr_seq(p1);
    let s2 = sgr_seq(p2);
    let style = s1 + s2;
    let row = style + t;
    let n1 = s1.len() as int;
    let n2 = style.len() as int;
    assert(row.subrange(0, p1.len() + 3 as int) =~= s1);
    lemma_cells_sgr_accumulates(row, ws, 0, Seq::empty(), p1);
    assert(row.subrange(n1, n1 + p2.len() + 3) =~= s2);
    lemma_cells_sgr_accumulates(row, ws, n1, s1, p2);
    assert(Seq::<char>::empty() + s1 =~= s1);
    assert forall|k: int| n2 <= k < row.len() implies #[trigger] row[k] != esc() by {
        assert(row[k] == t[k - n2]);
    }
    lemma_cells_plain(row, ws, n2, style);
    let cells = cells_from(row, ws, 0, Seq::empty());
    assert(cells == cells_from(row, ws, n2, style));
    let r = wrap_spec_with(row, width, row_cols, ws);
    let w = effective_width(width);
    if row.len() == 0 || row_cols <= w {
        assert forall|k: int| 0 <= k < r.len() implies (#[trigger] r[k]).take(
            (indent_of(k == 0).len() + style.len()) as int,
        ) == indent_of(k == 0) + style by {
            assert(k == 0);
            assert(indent_of(true) =~= Seq::<char>::empty());
            assert(row.take(style.len() as int) =~= style);
            assert(Seq::<char>::empty() + style =~= style);
        }
    } else {
        lemma_wrap_sgr_row(row, width, row_cols, ws);
        let plan = wrap_plan(cells, w, 0, true);
        lemma_wrap_plan(cells, w, 0, true);
        assert(r == render_plan(cells, plan));
        assert forall|k: int| 0 <= k < r.len() implies (#[trigger] r[k]).take(
            (indent_of(k == 0).len() + style.len()) as int,
        ) == indent_of(k == 0) + style by {
            let l = plan[k];
            assert(r[k] == render_line(cells, l));
            assert(l.2 == (k == 0));
            let sub = cells.subrange(l.0, l.1);
            assert(sub.len() > 0);
            assert(sub[0] == cells[l.0]);
            assert(sub[0].2 == style);
            assert(style.len() > 0);
            let e = emit_cells(sub, Seq::empty());
            assert(e == open_style(style, Seq::empty()).push(sub[0].0) + emit_cells(
                sub.drop_first(),
                style,
            ));
            assert(open_style(style, Seq::empty()) == style);
            let ind = indent_of(k == 0);
            assert((ind + e).take((ind.len() + style.len()) as int) =~= ind + style);
        }
    }
}

} // verus!
