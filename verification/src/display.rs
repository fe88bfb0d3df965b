//! The text that the summary table and the per-session listing consist of,
//! line by line.
use vstd::prelude::*;
use crate::parser::{LineCounts, add_counts, no_counts};
use crate::sorting::projects_view;
use crate::stats::{ProjectStats, ProjectStatsView, SessionStats, SessionStatsView, Stats, code_total_of, total_of};
use crate::text::{
    char_width, chars_of, display_width, lemma_width_prefix, lemma_width_bounds, pad_to_width, push_char, push_chars, push_repeat, repeat_char,
    spec_display_width, spec_pad_to_width,
};

verus! {

/// The decimal numeral of `d < 10`.
pub open spec fn digit_char(d: nat) -> char {
    ((48 + d) as u32) as char
}

/// The decimal numeral of `n`, without leading zeros.
pub open spec fn spec_digits(n: nat) -> Seq<char>
    decreases n,
{
    if n < 10 {
        seq![digit_char(n)]
    } else {
        spec_digits(n / 10).push(digit_char(n % 10))
    }
}

/// `ds` with a `','` before every group of three digits counted from the
/// right.
pub open spec fn group_thousands(ds: Seq<char>) -> Seq<char>
    decreases ds.len(),
{
    if ds.len() <= 3 {
        ds
    } else {
        group_thousands(ds.take(ds.len() - 3)) + seq![','] + ds.skip(ds.len() - 3)
    }
}

/// `n` in decimal with thousands separators, as in `1,234,567`.
pub open spec fn spec_fmt_num(n: nat) -> Seq<char> {
    group_thousands(spec_digits(n))
}

fn push_digits(n: usize, out: &mut Vec<char>)
    ensures
        final(out)@ == old(out)@ + spec_digits(n as nat),
    decreases n,
{
    if n >= 10 {
        push_digits(n / 10, out);
    }
    let d = (n % 10) as u8;
    let c = (48u8 + d) as char;
    assert(c == digit_char((n % 10) as nat));
    out.push(c);
}


fn push_grouped(ds: &Vec<char>, end: usize, out: &mut String)
    requires
        end <= ds@.len(),
    ensures
        final(out)@ == old(out)@ + group_thousands(ds@.take(end as int)),
    decreases end,
{
    if end <= 3 {
        push_chars(out, ds, 0, end);
        assert(ds@.subrange(0, end as int) == ds@.take(end as int));
    } else {
        push_grouped(ds, end - 3, out);
        push_char(out, ',');
        push_chars(out, ds, end - 3, end);
        let ghost t = ds@.take(end as int);
        assert(t.take(t.len() - 3) == ds@.take(end - 3));
        assert(t.skip(t.len() - 3) == ds@.subrange(end - 3, end as int));
        assert(old(out)@ + group_thousands(ds@.take(end - 3)) + seq![','] + ds@.subrange(end - 3, end as int)
            == old(out)@ + (group_thousands(ds@.take(end - 3)) + seq![','] + ds@.subrange(end - 3, end as int)));
    }
}

/// `n` in decimal with a comma before every group of three digits from the
/// right (`1234567` gives `"1,234,567"`).
pub fn fmt_num(n: usize) -> (r: String)
    ensures
        r@ == spec_fmt_num(n as nat),
{
    let mut ds: Vec<char> = Vec::new();
    push_digits(n, &mut ds);
    assert(ds@ == spec_digits(n as nat));
    let mut r = String::new();
    push_grouped(&ds, ds.len(), &mut r);
    assert(ds@.take(ds@.len() as int) == ds@);
    r
}

/// `n` in decimal (`usize` as `{}` prints it).
pub fn fmt_plain(n: usize) -> (r: String)
    ensures
        r@ == spec_digits(n as nat),
{
    let mut ds: Vec<char> = Vec::new();
    push_digits(n, &mut ds);
    let mut r = String::new();
    push_chars(&mut r, &ds, 0, ds.len());
    assert(ds@.subrange(0, ds@.len() as int) == ds@);
    r
}

// ---------------------------------------------------------------------------
// Laws of number formatting

/// `ds` without its commas.
pub open spec fn without_commas(s: Seq<char>) -> Seq<char>
    decreases s.len(),
{
    if s.len() == 0 {
        s
    } else if s.last() == ',' {
        without_commas(s.drop_last())
    } else {
        without_commas(s.drop_last()).push(s.last())
    }
}

/// The number that a sequence of decimal digits denotes.
pub open spec fn digits_value(ds: Seq<char>) -> nat
    decreases ds.len(),
{
    if ds.len() == 0 {
        0
    } else {
        digits_value(ds.drop_last()) * 10 + ((ds.last() as u32) - 48) as nat
    }
}

pub open spec fn is_digit(c: char) -> bool {
    '0' <= c && c <= '9'
}

proof fn lemma_without_commas_concat(a: Seq<char>, b: Seq<char>)
    ensures
        without_commas(a + b) == without_commas(a) + without_commas(b),
    decreases b.len(),
{
    if b.len() == 0 {
        assert(a + b == a);
        assert(without_commas(a) + without_commas(b) == without_commas(a));
    } else {
        assert((a + b).drop_last() == a + b.drop_last());
        lemma_without_commas_concat(a, b.drop_last());
        if b.last() != ',' {
            assert(without_commas(a) + without_commas(b.drop_last()).push(b.last())
                == (without_commas(a) + without_commas(b.drop_last())).push(b.last()));
        }
    }
}

proof fn lemma_no_commas_in_digits(ds: Seq<char>)
    requires
        forall|i: int| 0 <= i < ds.len() ==> is_digit(#[trigger] ds[i]),
    ensures
        without_commas(ds) == ds,
    decreases ds.len(),
{
    if ds.len() > 0 {
        lemma_no_commas_in_digits(ds.drop_last());
        assert(ds.drop_last().push(ds.last()) == ds);
    }
}

proof fn lemma_group_thousands(ds: Seq<char>)
    requires
        forall|i: int| 0 <= i < ds.len() ==> is_digit(#[trigger] ds[i]),
    ensures
        without_commas(group_thousands(ds)) == ds,
        forall|i: int| 0 <= i < group_thousands(ds).len() ==>
            is_digit(#[trigger] group_thousands(ds)[i]) || group_thousands(ds)[i] == ',',
        group_thousands(ds).len() <= 2 * ds.len(),
    decreases ds.len(),
{
    if ds.len() <= 3 {
        lemma_no_commas_in_digits(ds);
    } else {
        let a = ds.take(ds.len() - 3);
        let b = ds.skip(ds.len() - 3);
        lemma_group_thousands(a);
        lemma_no_commas_in_digits(b);
        let ga = group_thousands(a);
        lemma_without_commas_concat(ga + seq![','], b);
        lemma_without_commas_concat(ga, seq![',']);
        let sc = seq![','];
        assert(sc.last() == ',');
        assert(sc.drop_last() =~= Seq::<char>::empty());
        assert(without_commas(Seq::<char>::empty()) == Seq::<char>::empty());
        assert(without_commas(sc) == Seq::<char>::empty());
        assert(ga + Seq::<char>::empty() == ga);
        assert(a + b == ds);
        let g = group_thousands(ds);
        assert forall|i: int| 0 <= i < g.len() implies is_digit(#[trigger] g[i]) || g[i] == ',' by {
            if i < ga.len() {
                assert(g[i] == ga[i]);
            } else if i > ga.len() {
                assert(g[i] == b[i - ga.len() - 1]);
            }
        }
    }
}

proof fn lemma_digits(n: nat)
    ensures
        forall|i: int| 0 <= i < spec_digits(n).len() ==> is_digit(#[trigger] spec_digits(n)[i]),
        digits_value(spec_digits(n)) == n,
        spec_digits(n).len() >= 1,
        n < 10 ==> spec_digits(n).len() == 1,
    decreases n,
{
    lemma_digit_char((n % 10) as nat);
    if n >= 10 {
        lemma_digits(n / 10);
        let d = spec_digits(n);
        assert(d.drop_last() == spec_digits(n / 10));
        assert(d.last() == digit_char(n % 10));
        assert(digits_value(d) == digits_value(d.drop_last()) * 10 + ((d.last() as u32) - 48) as nat);
        assert(n == (n / 10) * 10 + n % 10);
    } else {
        let d = spec_digits(n);
        assert(d.drop_last() =~= Seq::<char>::empty());
        assert(d.last() == digit_char(n));
        assert(digits_value(Seq::<char>::empty()) == 0);
        assert(digits_value(d) == digits_value(d.drop_last()) * 10 + ((d.last() as u32) - 48) as nat);
    }
}

proof fn lemma_digits_len(n: nat, k: nat, p: nat)
    requires
        n < p,
        p == pow10(k),
    ensures
        spec_digits(n).len() <= if k == 0 { 1 } else { k },
    decreases k,
{
    if k > 0 && n >= 10 {
        lemma_digits_len(n / 10, (k - 1) as nat, pow10((k - 1) as nat));
        if k == 1 {
            assert(p == 10 * pow10(0));
        }
    }
}

proof fn lemma_digit_char(d: nat)
    requires
        d < 10,
    ensures
        digit_char(d) as u32 == 48 + d,
        is_digit(digit_char(d)),
{
}

pub open spec fn pow10(k: nat) -> nat
    decreases k,
{
    if k == 0 { 1 } else { 10 * pow10((k - 1) as nat) }
}

/// With its commas removed, the text of `fmt_num(n)` is the decimal numeral
/// of `n`: digits only, denoting `n`, with a comma only before a group of
/// three digits; the text is at most 40 characters long.
pub proof fn law_fmt_num(n: usize)
    ensures
        without_commas(spec_fmt_num(n as nat)) == spec_digits(n as nat),
        digits_value(spec_digits(n as nat)) == n,
        forall|i: int| 0 <= i < spec_digits(n as nat).len() ==> is_digit(#[trigger] spec_digits(n as nat)[i]),
        forall|i: int| 0 <= i < spec_fmt_num(n as nat).len() ==>
            is_digit(#[trigger] spec_fmt_num(n as nat)[i]) || spec_fmt_num(n as nat)[i] == ',',
        spec_fmt_num(n as nat).len() <= 40,
        n < 1000 ==> spec_fmt_num(n as nat) == spec_digits(n as nat),
{
    lemma_digits(n as nat);
    lemma_group_thousands(spec_digits(n as nat));
    assert(pow10(20) == 100000000000000000000) by {
        reveal_with_fuel(pow10, 21);
    }
    lemma_digits_len(n as nat, 20, pow10(20));
    if n < 1000 {
        assert(pow10(3) == 1000) by {
            reveal_with_fuel(pow10, 4);
        }
        lemma_digits_len(n as nat, 3, pow10(3));
    }
}


// ---------------------------------------------------------------------------
// The summary table

pub open spec fn strings_view(v: Seq<String>) -> Seq<Seq<char>> {
    v.map_values(|s: String| s@)
}

pub open spec fn max_nat(a: nat, b: nat) -> nat {
    if a >= b { a } else { b }
}

pub open spec fn sat_sub(a: nat, b: nat) -> nat {
    if a >= b { (a - b) as nat } else { 0 }
}

/// The header cells of the summary table.
pub open spec fn summary_header() -> Seq<Seq<char>> {
    seq!["プロジェクト"@, "Write"@, "Edit"@, "チャット"@, "コード計"@, "総合計"@]
}

/// The label of the totals row.
pub open spec fn total_label() -> Seq<char> {
    "合計"@
}

/// The numbers of a row: lines written, edited, replied, of code, in all.
pub open spec fn row_numbers(c: LineCounts) -> Seq<Seq<char>> {
    seq![
        spec_fmt_num(c.write),
        spec_fmt_num(c.edit),
        spec_fmt_num(c.text),
        spec_fmt_num(code_total_of(c)),
        spec_fmt_num(total_of(c)),
    ]
}

/// Column widths widened to hold a row with this name and these numbers.
pub open spec fn widen(ws: Seq<nat>, name: Seq<char>, nums: Seq<Seq<char>>) -> Seq<nat> {
    seq![
        max_nat(ws[0], spec_display_width(name)),
        max_nat(ws[1], nums[0].len()),
        max_nat(ws[2], nums[1].len()),
        max_nat(ws[3], nums[2].len()),
        max_nat(ws[4], nums[3].len()),
        max_nat(ws[5], nums[4].len()),
    ]
}

pub open spec fn header_widths() -> Seq<nat> {
    summary_header().map_values(|h: Seq<char>| spec_display_width(h))
}

/// Column widths that hold the header and the rows of these projects.
pub open spec fn widths_for(ps: Seq<ProjectStatsView>) -> Seq<nat>
    decreases ps.len(),
{
    if ps.len() == 0 {
        header_widths()
    } else {
        widen(widths_for(ps.drop_last()), ps.last().name, row_numbers(ps.last().stats))
    }
}

/// The lines of all projects together.
pub open spec fn sum_projects(ps: Seq<ProjectStatsView>) -> LineCounts
    decreases ps.len(),
{
    if ps.len() == 0 {
        no_counts()
    } else {
        add_counts(sum_projects(ps.drop_last()), ps.last().stats)
    }
}

/// Column widths that hold the header, every project's row and the totals
/// row.
pub open spec fn column_widths(ps: Seq<ProjectStatsView>) -> Seq<nat> {
    widen(widths_for(ps), total_label(), row_numbers(sum_projects(ps)))
}

/// A horizontal rule: `left`, then for each column `'─'` over its width and
/// the margins, `mid` between columns, then `right`.
pub open spec fn border(ws: Seq<nat>, left: char, mid: char, right: char) -> Seq<char> {
    seq![left] + border_body(ws, mid) + seq![right]
}

pub open spec fn border_body(ws: Seq<nat>, mid: char) -> Seq<char>
    decreases ws.len(),
{
    if ws.len() == 0 {
        Seq::empty()
    } else if ws.len() == 1 {
        repeat_char('─', ws[0] + 2)
    } else {
        border_body(ws.drop_last(), mid) + seq![mid] + repeat_char('─', ws.last() + 2)
    }
}

/// A header cell: the first left-aligned to its column, the others
/// right-aligned, by display width.
pub open spec fn header_cell(i: int, cell: Seq<char>, w: nat) -> Seq<char> {
    if i == 0 {
        seq![' '] + spec_pad_to_width(cell, w) + seq![' ', '│']
    } else {
        seq![' '] + repeat_char(' ', sat_sub(w, spec_display_width(cell))) + cell + seq![' ', '│']
    }
}

pub open spec fn header_cells(cells: Seq<Seq<char>>, ws: Seq<nat>, n: nat) -> Seq<char>
    decreases n,
{
    if n == 0 {
        Seq::empty()
    } else {
        header_cells(cells, ws, (n - 1) as nat) + header_cell(n - 1, cells[n - 1], ws[n - 1])
    }
}

/// The header row of the table.
pub open spec fn header_row(cells: Seq<Seq<char>>, ws: Seq<nat>) -> Seq<char> {
    seq!['│'] + header_cells(cells, ws, cells.len())
}

/// A number right-aligned to its column.
pub open spec fn value_cell(val: Seq<char>, w: nat) -> Seq<char> {
    seq![' '] + repeat_char(' ', sat_sub(w, val.len())) + val + seq![' ', '│']
}

pub open spec fn value_cells(vals: Seq<Seq<char>>, ws: Seq<nat>, n: nat) -> Seq<char>
    decreases n,
{
    if n == 0 {
        Seq::empty()
    } else {
        value_cells(vals, ws, (n - 1) as nat) + value_cell(vals[n - 1], ws[n as int])
    }
}

/// A row of the table: the name left-aligned, then the numbers.
pub open spec fn data_row(name: Seq<char>, vals: Seq<Seq<char>>, ws: Seq<nat>) -> Seq<char> {
    seq!['│', ' '] + spec_pad_to_width(name, ws[0]) + seq![' ', '│'] + value_cells(vals, ws, vals.len())
}

/// The lines of the summary table: a row per project and a totals row,
/// framed by rules; a single message when there are no projects.
pub open spec fn spec_summary_lines(ps: Seq<ProjectStatsView>) -> Seq<Seq<char>> {
    if ps.len() == 0 {
        seq!["No data found."@]
    } else {
        let ws = column_widths(ps);
        seq![border(ws, '┌', '┬', '┐'), header_row(summary_header(), ws), border(ws, '├', '┼', '┤')]
            + ps.map_values(|p: ProjectStatsView| data_row(p.name, row_numbers(p.stats), ws))
            + seq![
            border(ws, '├', '┼', '┤'),
            data_row(total_label(), row_numbers(sum_projects(ps)), ws),
            border(ws, '└', '┴', '┘'),
        ]
    }
}

/// What the summary table needs to fit in machine words: the total of all
/// lines fits in a `usize`, and so does each project name's width with its
/// margins.
pub open spec fn summary_fits(ps: Seq<ProjectStatsView>) -> bool {
    &&& total_of(sum_projects(ps)) <= usize::MAX
    &&& forall|i: int| 0 <= i < ps.len() ==> spec_display_width(#[trigger] ps[i].name) + 2 <= usize::MAX
}

proof fn lemma_sum_projects_prefix(ps: Seq<ProjectStatsView>, i: int)
    requires
        0 <= i <= ps.len(),
    ensures
        total_of(sum_projects(ps.take(i))) <= total_of(sum_projects(ps)),
        i < ps.len() ==> total_of(ps[i].stats) <= total_of(sum_projects(ps)),
    decreases ps.len(),
{
    if i < ps.len() {
        if i < ps.len() - 1 {
            assert(ps.drop_last().take(i) == ps.take(i));
            lemma_sum_projects_prefix(ps.drop_last(), i);
        } else {
            assert(ps.drop_last() == ps.take(i));
        }
    } else {
        assert(ps.take(i) == ps);
    }
}

fn header_strings() -> (r: Vec<String>)
    ensures
        r@.len() == 6,
        strings_view(r@) == summary_header(),
        forall|i: int| 0 <= i < r@.len() ==> spec_display_width(#[trigger] r@[i]@) <= 12,
{
    let r = vec![
        String::from_str("プロジェクト"),
        String::from_str("Write"),
        String::from_str("Edit"),
        String::from_str("チャット"),
        String::from_str("コード計"),
        String::from_str("総合計"),
    ];
    proof {
        reveal_strlit("プロジェクト");
        reveal_strlit("Write");
        reveal_strlit("Edit");
        reveal_strlit("チャット");
        reveal_strlit("コード計");
        reveal_strlit("総合計");
        lemma_width_bounds("プロジェクト"@);
        lemma_width_bounds("Write"@);
        lemma_width_bounds("Edit"@);
        lemma_width_bounds("チャット"@);
        lemma_width_bounds("コード計"@);
        lemma_width_bounds("総合計"@);
        assert(strings_view(r@) =~= summary_header());
    }
    r
}

/// The five numbers of a row.
fn row_strings(s: &Stats) -> (r: Vec<String>)
    requires
        total_of(s@) <= usize::MAX,
    ensures
        r@.len() == 5,
        strings_view(r@) == row_numbers(s@),
        forall|i: int| 0 <= i < r@.len() ==> (#[trigger] r@[i]@).len() <= 40,
{
    proof {
        law_fmt_num(s.write_lines);
        law_fmt_num(s.edit_lines);
        law_fmt_num(s.text_lines);
        law_fmt_num((s.write_lines + s.edit_lines) as usize);
        law_fmt_num((s.write_lines + s.edit_lines + s.text_lines) as usize);
    }
    let r = vec![
        fmt_num(s.write_lines),
        fmt_num(s.edit_lines),
        fmt_num(s.text_lines),
        fmt_num(s.code_total()),
        fmt_num(s.total()),
    ];
    assert(strings_view(r@) =~= row_numbers(s@));
    r
}

/// Widens the column widths to hold a row.
fn widen_widths(ws: &mut Vec<usize>, name: &str, nums: &Vec<String>)
    requires
        old(ws)@.len() == 6,
        nums@.len() == 5,
        spec_display_width(name@) + 2 <= usize::MAX,
        forall|i: int| 0 <= i < 6 ==> #[trigger] old(ws)@[i] + 2 <= usize::MAX,
        forall|i: int| 0 <= i < 5 ==> (#[trigger] nums@[i]@).len() <= 40,
    ensures
        final(ws)@.len() == 6,
        forall|i: int| 0 <= i < 6 ==> #[trigger] final(ws)@[i] + 2 <= usize::MAX,
        final(ws)@.map_values(|w: usize| w as nat) == widen(old(ws)@.map_values(|w: usize| w as nat), name@, strings_view(nums@)),
{
    let w0 = display_width(name);
    if w0 > ws[0] {
        ws.set(0, w0);
    }
    let mut i: usize = 0;
    while i < 5
        invariant
            i <= 5,
            ws@.len() == 6,
            nums@.len() == 5,
            ws@[0] == max_nat(old(ws)@[0] as nat, spec_display_width(name@)),
            forall|k: int| 1 <= k <= i ==> #[trigger] ws@[k] as nat == max_nat(old(ws)@[k] as nat, nums@[k - 1]@.len()),
            forall|k: int| i < k < 6 ==> #[trigger] ws@[k] == old(ws)@[k],
            forall|k: int| 0 <= k < 6 ==> #[trigger] ws@[k] + 2 <= usize::MAX,
            forall|k: int| 0 <= k < 5 ==> (#[trigger] nums@[k]@).len() <= 40,
            forall|k: int| 0 <= k < 6 ==> #[trigger] old(ws)@[k] + 2 <= usize::MAX,
        decreases 5 - i,
    {
        let l = nums[i].as_str().unicode_len();
        if l > ws[i + 1] {
            ws.set(i + 1, l);
        }
        i = i + 1;
    }
    assert(ws@.map_values(|w: usize| w as nat) =~= widen(old(ws)@.map_values(|w: usize| w as nat), name@, strings_view(nums@)));
}


/// The column widths hold a row: its name, and each of its numbers.
pub open spec fn holds_row(ws: Seq<nat>, name: Seq<char>, nums: Seq<Seq<char>>) -> bool {
    &&& spec_display_width(name) <= ws[0]
    &&& forall|j: int| 0 <= j < 5 ==> (#[trigger] nums[j]).len() <= ws[j + 1]
}

/// Each width is at least the corresponding one of `lower`.
pub open spec fn widths_at_least(ws: Seq<nat>, lower: Seq<nat>) -> bool {
    ws.len() == 6 && lower.len() == 6 && forall|j: int| 0 <= j < 6 ==> #[trigger] lower[j] <= ws[j]
}

proof fn lemma_widen(ws: Seq<nat>, name: Seq<char>, nums: Seq<Seq<char>>)
    requires
        ws.len() == 6,
        nums.len() == 5,
    ensures
        widths_at_least(widen(ws, name, nums), ws),
        holds_row(widen(ws, name, nums), name, nums),
{
    let w = widen(ws, name, nums);
    assert forall|j: int| 0 <= j < 6 implies #[trigger] ws[j] <= w[j] by {}
    assert forall|j: int| 0 <= j < 5 implies (#[trigger] nums[j]).len() <= w[j + 1] by {}
}

proof fn lemma_widths_for(ps: Seq<ProjectStatsView>)
    ensures
        widths_at_least(widths_for(ps), header_widths()),
        forall|k: int| 0 <= k < ps.len() ==> holds_row(widths_for(ps), #[trigger] ps[k].name, row_numbers(ps[k].stats)),
    decreases ps.len(),
{
    if ps.len() > 0 {
        let prev = widths_for(ps.drop_last());
        lemma_widths_for(ps.drop_last());
        lemma_widen(prev, ps.last().name, row_numbers(ps.last().stats));
        let w = widths_for(ps);
        assert forall|k: int| 0 <= k < ps.len() implies holds_row(w, #[trigger] ps[k].name, row_numbers(ps[k].stats)) by {
            if k < ps.len() - 1 {
                assert(ps.drop_last()[k] == ps[k]);
                assert(holds_row(prev, ps[k].name, row_numbers(ps[k].stats)));
                let nums = row_numbers(ps[k].stats);
                assert forall|j: int| 0 <= j < 5 implies (#[trigger] nums[j]).len() <= w[j + 1] by {
                    assert(prev[j + 1] <= w[j + 1]);
                }
            }
        }
    } else {
        assert(header_widths().len() == 6);
    }
}

/// The column widths of the summary table hold every cell: the header's,
/// each project's row and the totals row; so every row is padded to the same
/// widths.
pub proof fn law_columns_hold_cells(ps: Seq<ProjectStatsView>)
    ensures
        column_widths(ps).len() == 6,
        forall|j: int| 0 <= j < 6 ==> spec_display_width(#[trigger] summary_header()[j]) <= column_widths(ps)[j],
        forall|k: int| 0 <= k < ps.len() ==> holds_row(column_widths(ps), #[trigger] ps[k].name, row_numbers(ps[k].stats)),
        holds_row(column_widths(ps), total_label(), row_numbers(sum_projects(ps))),
{
    lemma_widths_for(ps);
    let wf = widths_for(ps);
    let cw = column_widths(ps);
    lemma_widen(wf, total_label(), row_numbers(sum_projects(ps)));
    assert forall|j: int| 0 <= j < 6 implies spec_display_width(#[trigger] summary_header()[j]) <= cw[j] by {
        assert(header_widths()[j] == spec_display_width(summary_header()[j]));
        assert(header_widths()[j] <= wf[j]);
        assert(wf[j] <= cw[j]);
    }
    assert forall|k: int| 0 <= k < ps.len() implies holds_row(cw, #[trigger] ps[k].name, row_numbers(ps[k].stats)) by {
        assert(holds_row(wf, ps[k].name, row_numbers(ps[k].stats)));
        let nums = row_numbers(ps[k].stats);
        assert forall|j: int| 0 <= j < 5 implies (#[trigger] nums[j]).len() <= cw[j + 1] by {
            assert(wf[j + 1] <= cw[j + 1]);
        }
        assert(wf[0] <= cw[0]);
    }
}

/// A box-drawing character (U+2500 to U+257F), which the table's rules and
/// separators are made of.
pub open spec fn is_box_char(c: char) -> bool {
    0x2500 <= (c as int) && (c as int) <= 0x257F
}

/// Columns a character takes on a terminal: one for a box-drawing
/// character, otherwise as `char_width` counts it.
pub open spec fn term_char_width(c: char) -> nat {
    if is_box_char(c) { 1 } else { char_width(c) }
}

/// Columns a line takes on a terminal.
pub open spec fn term_width(s: Seq<char>) -> nat
    decreases s.len(),
{
    if s.len() == 0 { 0 } else { term_width(s.drop_last()) + term_char_width(s.last()) }
}

pub open spec fn no_box_chars(s: Seq<char>) -> bool {
    forall|i: int| 0 <= i < s.len() ==> !is_box_char(#[trigger] s[i])
}

/// The columns of a table row with these column widths, each with its two
/// margins and its right-hand separator.
pub open spec fn cols_width(ws: Seq<nat>) -> nat
    decreases ws.len(),
{
    if ws.len() == 0 { 0 } else { cols_width(ws.drop_last()) + ws.last() + 3 }
}

proof fn lemma_tw_concat(a: Seq<char>, b: Seq<char>)
    ensures
        term_width(a + b) == term_width(a) + term_width(b),
    decreases b.len(),
{
    if b.len() == 0 {
        assert(a + b == a);
    } else {
        assert((a + b).drop_last() == a + b.drop_last());
        lemma_tw_concat(a, b.drop_last());
    }
}

proof fn lemma_tw_plain(s: Seq<char>)
    requires
        no_box_chars(s),
    ensures
        term_width(s) == spec_display_width(s),
    decreases s.len(),
{
    if s.len() > 0 {
        assert(!is_box_char(s[s.len() - 1]));
        lemma_tw_plain(s.drop_last());
    }
}

proof fn lemma_tw_ascii(s: Seq<char>)
    requires
        forall|i: int| 0 <= i < s.len() ==> is_digit(#[trigger] s[i]) || s[i] == ',',
    ensures
        term_width(s) == s.len(),
    decreases s.len(),
{
    if s.len() > 0 {
        assert(is_digit(s[s.len() - 1]) || s[s.len() - 1] == ',');
        lemma_tw_ascii(s.drop_last());
    }
}

proof fn lemma_tw_repeat(c: char, n: nat)
    requires
        term_char_width(c) == 1,
    ensures
        term_width(repeat_char(c, n)) == n,
    decreases n,
{
    if n > 0 {
        assert(repeat_char(c, n).drop_last() == repeat_char(c, (n - 1) as nat));
        lemma_tw_repeat(c, (n - 1) as nat);
    }
}

proof fn lemma_fmt_num_chars(n: nat)
    ensures
        forall|i: int| 0 <= i < spec_fmt_num(n).len() ==> is_digit(#[trigger] spec_fmt_num(n)[i]) || spec_fmt_num(n)[i] == ',',
{
    lemma_digits(n);
    lemma_group_thousands(spec_digits(n));
}

proof fn lemma_tw_pad(s: Seq<char>, w: nat)
    requires
        no_box_chars(s),
        spec_display_width(s) <= w,
    ensures
        term_width(spec_pad_to_width(s, w)) == w,
{
    lemma_tw_plain(s);
    if spec_display_width(s) < w {
        let k = (w - spec_display_width(s)) as nat;
        lemma_tw_concat(s, repeat_char(' ', k));
        lemma_tw_repeat(' ', k);
    }
}

proof fn lemma_tw_border_body(ws: Seq<nat>, mid: char)
    requires
        ws.len() >= 1,
        is_box_char(mid),
    ensures
        term_width(border_body(ws, mid)) + 1 == cols_width(ws),
    decreases ws.len(),
{
    assert(is_box_char('─'));
    if ws.len() == 1 {
        lemma_tw_repeat('─', ws[0] + 2);
        assert(ws.drop_last().len() == 0);
        assert(cols_width(ws.drop_last()) == 0);
        assert(cols_width(ws) == ws[0] + 3);
        assert(border_body(ws, mid) == repeat_char('─', ws[0] + 2));
    } else {
        lemma_tw_border_body(ws.drop_last(), mid);
        lemma_tw_concat(border_body(ws.drop_last(), mid), seq![mid]);
        lemma_tw_concat(border_body(ws.drop_last(), mid) + seq![mid], repeat_char('─', ws.last() + 2));
        lemma_tw_repeat('─', ws.last() + 2);
        lemma_tw_single(mid);
        assert(border_body(ws, mid) == border_body(ws.drop_last(), mid) + seq![mid] + repeat_char('─', ws.last() + 2));
        assert(cols_width(ws) == cols_width(ws.drop_last()) + ws.last() + 3);
    }
}

proof fn lemma_tw_border(ws: Seq<nat>, left: char, mid: char, right: char)
    requires
        ws.len() >= 1,
        is_box_char(left),
        is_box_char(mid),
        is_box_char(right),
    ensures
        term_width(border(ws, left, mid, right)) == cols_width(ws) + 1,
{
    lemma_tw_border_body(ws, mid);
    lemma_tw_concat(seq![left], border_body(ws, mid));
    lemma_tw_concat(seq![left] + border_body(ws, mid), seq![right]);
    lemma_tw_single(left);
    lemma_tw_single(right);
}

proof fn lemma_tw_single(c: char)
    ensures
        term_width(seq![c]) == term_char_width(c),
{
    let s1 = seq![c];
    assert(s1.drop_last() =~= Seq::<char>::empty());
    assert(s1.last() == c);
    assert(term_width(Seq::<char>::empty()) == 0);
    assert(term_width(s1) == term_width(s1.drop_last()) + term_char_width(s1.last()));
}

proof fn lemma_tw_tail()
    ensures
        term_width(seq![' ', '│']) == 2,
        term_width(seq![' ']) == 1,
        term_width(seq!['│']) == 1,
        term_width(seq!['│', ' ']) == 2,
{
    assert(is_box_char('│'));
    lemma_tw_single(' ');
    lemma_tw_single('│');
    lemma_tw_concat(seq![' '], seq!['│']);
    lemma_tw_concat(seq!['│'], seq![' ']);
    assert(seq![' '] + seq!['│'] =~= seq![' ', '│']);
    assert(seq!['│'] + seq![' '] =~= seq!['│', ' ']);
}

proof fn lemma_tw_header_cells(cells: Seq<Seq<char>>, ws: Seq<nat>, n: nat)
    requires
        n <= cells.len(),
        n <= ws.len(),
        forall|j: int| 0 <= j < n ==> no_box_chars(#[trigger] cells[j]) && spec_display_width(cells[j]) <= ws[j],
    ensures
        term_width(header_cells(cells, ws, n)) == cols_width(ws.take(n as int)),
    decreases n,
{
    if n > 0 {
        let i = n - 1;
        lemma_tw_header_cells(cells, ws, (n - 1) as nat);
        assert(ws.take(n as int).drop_last() == ws.take(i));
        let cell = cells[i];
        let w = ws[i];
        assert(no_box_chars(cell) && spec_display_width(cell) <= w);
        lemma_tw_tail();
        if i == 0 {
            lemma_tw_pad(cell, w);
            lemma_tw_concat(seq![' '], spec_pad_to_width(cell, w));
            lemma_tw_concat(seq![' '] + spec_pad_to_width(cell, w), seq![' ', '│']);
        } else {
            let k = sat_sub(w, spec_display_width(cell));
            lemma_tw_repeat(' ', k);
            lemma_tw_plain(cell);
            lemma_tw_concat(seq![' '], repeat_char(' ', k));
            lemma_tw_concat(seq![' '] + repeat_char(' ', k), cell);
            lemma_tw_concat(seq![' '] + repeat_char(' ', k) + cell, seq![' ', '│']);
        }
        lemma_tw_concat(header_cells(cells, ws, (n - 1) as nat), header_cell(i, cell, w));
    }
}

proof fn lemma_tw_value_cells(vals: Seq<Seq<char>>, ws: Seq<nat>, n: nat)
    requires
        n <= vals.len(),
        n + 1 <= ws.len(),
        forall|j: int| 0 <= j < n ==> (forall|k: int| 0 <= k < vals[j].len() ==> is_digit(#[trigger] vals[j][k]) || vals[j][k] == ',')
            && (#[trigger] vals[j]).len() <= ws[j + 1],
    ensures
        term_width(value_cells(vals, ws, n)) + ws[0] + 3 == cols_width(ws.take(n + 1 as int)),
    decreases n,
{
    if n == 0 {
        assert(ws.take(1).drop_last().len() == 0);
        assert(cols_width(ws.take(1).drop_last()) == 0);
        assert(ws.take(1).last() == ws[0]);
        assert(value_cells(vals, ws, 0).len() == 0);
        assert(term_width(value_cells(vals, ws, 0)) == 0);
    } else {
        lemma_tw_value_cells(vals, ws, (n - 1) as nat);
        assert(ws.take(n + 1 as int).drop_last() == ws.take(n as int));
        let v = vals[n - 1];
        let w = ws[n as int];
        let k = sat_sub(w, v.len());
        lemma_tw_tail();
        lemma_tw_ascii(v);
        lemma_tw_repeat(' ', k);
        lemma_tw_concat(seq![' '], repeat_char(' ', k));
        lemma_tw_concat(seq![' '] + repeat_char(' ', k), v);
        lemma_tw_concat(seq![' '] + repeat_char(' ', k) + v, seq![' ', '│']);
        lemma_tw_concat(value_cells(vals, ws, (n - 1) as nat), value_cell(v, w));
        assert(ws.take(n + 1 as int).last() == w);
        assert(value_cells(vals, ws, n) == value_cells(vals, ws, (n - 1) as nat) + value_cell(v, w));
        assert(term_width(value_cell(v, w)) == w + 3);
    }
}

proof fn lemma_tw_data_row(name: Seq<char>, c: LineCounts, ws: Seq<nat>)
    requires
        ws.len() == 6,
        no_box_chars(name),
        holds_row(ws, name, row_numbers(c)),
    ensures
        term_width(data_row(name, row_numbers(c), ws)) == cols_width(ws) + 1,
{
    let vals = row_numbers(c);
    lemma_fmt_num_chars(c.write);
    lemma_fmt_num_chars(c.edit);
    lemma_fmt_num_chars(c.text);
    lemma_fmt_num_chars(code_total_of(c));
    lemma_fmt_num_chars(total_of(c));
    assert forall|j: int| 0 <= j < 5 implies (forall|k: int| 0 <= k < vals[j].len() ==> is_digit(#[trigger] vals[j][k]) || vals[j][k] == ',')
        && (#[trigger] vals[j]).len() <= ws[j + 1] by {
        if j == 0 {} else if j == 1 {} else if j == 2 {} else if j == 3 {} else {}
    }
    lemma_tw_value_cells(vals, ws, 5);
    assert(ws.take(6) == ws);
    lemma_tw_pad(name, ws[0]);
    lemma_tw_tail();
    lemma_tw_concat(seq!['│', ' '], spec_pad_to_width(name, ws[0]));
    lemma_tw_concat(seq!['│', ' '] + spec_pad_to_width(name, ws[0]), seq![' ', '│']);
    lemma_tw_concat(seq!['│', ' '] + spec_pad_to_width(name, ws[0]) + seq![' ', '│'], value_cells(vals, ws, 5));
}

proof fn lemma_header_plain()
    ensures
        forall|j: int| 0 <= j < 6 ==> no_box_chars(#[trigger] summary_header()[j]),
        no_box_chars(total_label()),
{
    reveal_strlit("プロジェクト");
    reveal_strlit("Write");
    reveal_strlit("Edit");
    reveal_strlit("チャット");
    reveal_strlit("コード計");
    reveal_strlit("総合計");
    reveal_strlit("合計");
    let h = summary_header();
    assert forall|j: int| 0 <= j < 6 implies no_box_chars(#[trigger] h[j]) by {
        if j == 0 {} else if j == 1 {} else if j == 2 {} else if j == 3 {} else if j == 4 {} else {}
    }
}

/// Every line of the summary table takes as many terminal columns as its
/// rules: the header, each project's row and the totals row are padded to
/// the same column widths, so the columns line up. (A project name holding a
/// box-drawing character is left out: `display_width` counts it as two
/// columns where a terminal shows one.)
pub proof fn law_table_lines_equally_wide(ps: Seq<ProjectStatsView>)
    requires
        ps.len() > 0,
        forall|i: int| 0 <= i < ps.len() ==> no_box_chars(#[trigger] ps[i].name),
    ensures
        spec_summary_lines(ps).len() == ps.len() + 6,
        forall|k: int| 0 <= k < spec_summary_lines(ps).len()
            ==> term_width(#[trigger] spec_summary_lines(ps)[k]) == cols_width(column_widths(ps)) + 1,
{
    let ws = column_widths(ps);
    let lines = spec_summary_lines(ps);
    law_columns_hold_cells(ps);
    lemma_header_plain();
    let t = cols_width(ws) + 1;
    assert(is_box_char('┌') && is_box_char('┬') && is_box_char('┐') && is_box_char('├') && is_box_char('┼')
        && is_box_char('┤') && is_box_char('└') && is_box_char('┴') && is_box_char('┘'));
    lemma_tw_border(ws, '┌', '┬', '┐');
    lemma_tw_border(ws, '├', '┼', '┤');
    lemma_tw_border(ws, '└', '┴', '┘');
    let h = summary_header();
    assert forall|j: int| 0 <= j < 6 implies no_box_chars(#[trigger] h[j]) && spec_display_width(h[j]) <= ws[j] by {}
    lemma_tw_header_cells(h, ws, 6);
    assert(ws.take(6) == ws);
    lemma_tw_concat(seq!['│'], header_cells(h, ws, 6));
    lemma_tw_tail();
    lemma_tw_data_row(total_label(), sum_projects(ps), ws);
    let rows = ps.map_values(|p: ProjectStatsView| data_row(p.name, row_numbers(p.stats), ws));
    let head = seq![border(ws, '┌', '┬', '┐'), header_row(summary_header(), ws), border(ws, '├', '┼', '┤')];
    let tail = seq![
        border(ws, '├', '┼', '┤'),
        data_row(total_label(), row_numbers(sum_projects(ps)), ws),
        border(ws, '└', '┴', '┘'),
    ];
    assert(lines == head + rows + tail);
    assert forall|k: int| 0 <= k < lines.len() implies term_width(#[trigger] lines[k]) == t by {
        if k < 3 {
            assert(lines[k] == head[k]);
        } else if k < 3 + ps.len() {
            assert(lines[k] == rows[k - 3]);
            let p = ps[k - 3];
            lemma_tw_data_row(p.name, p.stats, ws);
        } else {
            assert(lines[k] == tail[k - 3 - ps.len()]);
        }
    }
}

pub open spec fn nat_widths(ws: Seq<usize>) -> Seq<nat> {
    ws.map_values(|w: usize| w as nat)
}

/// A horizontal rule of the table.
fn border_line(ws: &Vec<usize>, left: char, mid: char, right: char) -> (r: String)
    requires
        forall|i: int| 0 <= i < ws@.len() ==> #[trigger] ws@[i] + 2 <= usize::MAX,
    ensures
        r@ == border(nat_widths(ws@), left, mid, right),
{
    let ghost nw = nat_widths(ws@);
    let mut r = String::new();
    push_char(&mut r, left);
    let mut i: usize = 0;
    while i < ws.len()
        invariant
            i <= ws@.len(),
            nw == nat_widths(ws@),
            forall|k: int| 0 <= k < ws@.len() ==> #[trigger] ws@[k] + 2 <= usize::MAX,
            r@ == seq![left] + border_body(nw.take(i as int), mid),
        decreases ws.len() - i,
    {
        let ghost before = r@;
        assert(nw.take(i + 1).drop_last() == nw.take(i as int));
        assert(nw.take(i + 1).last() == ws@[i as int] as nat);
        if i > 0 {
            push_char(&mut r, mid);
        }
        push_repeat(&mut r, '─', ws[i] + 2);
        if i == 0 {
            assert(nw.take(1).len() == 1);
        }
        assert(r@ == seq![left] + border_body(nw.take(i + 1), mid));
        i = i + 1;
    }
    push_char(&mut r, right);
    assert(nw.take(ws@.len() as int) == nw);
    r
}

/// The header row of the table.
fn header_line(cells: &Vec<String>, ws: &Vec<usize>) -> (r: String)
    requires
        cells@.len() <= ws@.len(),
        forall|i: int| 0 <= i < cells@.len() ==> spec_display_width(#[trigger] cells@[i]@) <= usize::MAX,
    ensures
        r@ == header_row(strings_view(cells@), nat_widths(ws@)),
{
    let ghost cv = strings_view(cells@);
    let ghost nw = nat_widths(ws@);
    let mut r = String::new();
    push_char(&mut r, '│');
    let mut i: usize = 0;
    while i < cells.len()
        invariant
            i <= cells@.len() <= ws@.len(),
            cv == strings_view(cells@),
            nw == nat_widths(ws@),
            forall|k: int| 0 <= k < cells@.len() ==> spec_display_width(#[trigger] cells@[k]@) <= usize::MAX,
            r@ == seq!['│'] + header_cells(cv, nw, i as nat),
        decreases cells.len() - i,
    {
        let ghost before = r@;
        let cell = cells[i].as_str();
        push_char(&mut r, ' ');
        if i == 0 {
            let padded = pad_to_width(cell, ws[i]);
            r.append(padded.as_str());
        } else {
            let w = display_width(cell);
            let pad: usize = if ws[i] >= w { ws[i] - w } else { 0 };
            push_repeat(&mut r, ' ', pad);
            r.append(cell);
        }
        push_char(&mut r, ' ');
        push_char(&mut r, '│');
        assert(r@ == before + header_cell(i as int, cv[i as int], nw[i as int]));
        i = i + 1;
    }
    r
}

/// A row of the table.
fn data_line(name: &str, vals: &Vec<String>, ws: &Vec<usize>) -> (r: String)
    requires
        vals@.len() + 1 <= ws@.len(),
        spec_display_width(name@) <= usize::MAX,
    ensures
        r@ == data_row(name@, strings_view(vals@), nat_widths(ws@)),
{
    let ghost vv = strings_view(vals@);
    let ghost nw = nat_widths(ws@);
    let mut r = String::new();
    push_char(&mut r, '│');
    push_char(&mut r, ' ');
    let padded = pad_to_width(name, ws[0]);
    r.append(padded.as_str());
    push_char(&mut r, ' ');
    push_char(&mut r, '│');
    let ghost head = r@;
    let mut i: usize = 0;
    while i < vals.len()
        invariant
            i <= vals@.len(),
            vals@.len() + 1 <= ws@.len(),
            vv == strings_view(vals@),
            nw == nat_widths(ws@),
            r@ == head + value_cells(vv, nw, i as nat),
        decreases vals.len() - i,
    {
        let ghost before = r@;
        let v = vals[i].as_str();
        let l = v.unicode_len();
        push_char(&mut r, ' ');
        let pad: usize = if ws[i + 1] >= l { ws[i + 1] - l } else { 0 };
        push_repeat(&mut r, ' ', pad);
        r.append(v);
        push_char(&mut r, ' ');
        push_char(&mut r, '│');
        assert(r@ == before + value_cell(vv[i as int], nw[i + 1]));
        i = i + 1;
    }
    r
}

/// Widths of the header cells.
fn header_width_list(header: &Vec<String>) -> (ws: Vec<usize>)
    requires
        header@.len() == 6,
        strings_view(header@) == summary_header(),
        forall|k: int| 0 <= k < header@.len() ==> spec_display_width(#[trigger] header@[k]@) <= 12,
    ensures
        ws@.len() == 6,
        nat_widths(ws@) == header_widths(),
        forall|k: int| 0 <= k < 6 ==> #[trigger] ws@[k] + 2 <= usize::MAX,
{
    let mut ws: Vec<usize> = Vec::new();
    let mut i: usize = 0;
    while i < header.len()
        invariant
            i <= header@.len() == 6,
            strings_view(header@) == summary_header(),
            forall|k: int| 0 <= k < header@.len() ==> spec_display_width(#[trigger] header@[k]@) <= 12,
            ws@.len() == i,
            nat_widths(ws@) == header_widths().take(i as int),
            forall|k: int| 0 <= k < ws@.len() ==> #[trigger] ws@[k] <= 12,
        decreases header.len() - i,
    {
        assert(header@[i as int]@ == summary_header()[i as int]);
        let w = display_width(header[i].as_str());
        assert(header_widths()[i as int] == w as nat);
        ws.push(w);
        assert(nat_widths(ws@) =~= header_widths().take(i + 1));
        i = i + 1;
    }
    assert(header_widths().take(6) =~= header_widths());
    ws
}

/// Column widths for the projects' rows, and the lines of all projects.
fn widths_and_totals(projects: &[ProjectStats], header_ws: Vec<usize>) -> (r: (Vec<usize>, Stats))
    requires
        summary_fits(projects_view(projects@)),
        header_ws@.len() == 6,
        nat_widths(header_ws@) == header_widths(),
        forall|k: int| 0 <= k < 6 ==> #[trigger] header_ws@[k] + 2 <= usize::MAX,
    ensures
        r.0@.len() == 6,
        forall|k: int| 0 <= k < 6 ==> #[trigger] r.0@[k] + 2 <= usize::MAX,
        nat_widths(r.0@) == widths_for(projects_view(projects@)),
        r.1@ == sum_projects(projects_view(projects@)),
{
    let ghost ps = projects_view(projects@);
    let mut ws = header_ws;
    let mut totals = Stats { write_lines: 0, edit_lines: 0, text_lines: 0 };
    assert(ps.take(0) =~= Seq::<ProjectStatsView>::empty());
    let mut i: usize = 0;
    while i < projects.len()
        invariant
            i <= projects@.len(),
            ps == projects_view(projects@),
            summary_fits(ps),
            ws@.len() == 6,
            forall|k: int| 0 <= k < 6 ==> #[trigger] ws@[k] + 2 <= usize::MAX,
            nat_widths(ws@) == widths_for(ps.take(i as int)),
            totals@ == sum_projects(ps.take(i as int)),
        decreases projects.len() - i,
    {
        proof {
            lemma_sum_projects_prefix(ps, i as int);
            lemma_sum_projects_prefix(ps, i + 1);
            assert(ps.take(i + 1).drop_last() == ps.take(i as int));
            assert(ps.take(i + 1).last() == ps[i as int]);
            assert(ps[i as int] == projects@[i as int]@);
            assert(spec_display_width(ps[i as int].name) + 2 <= usize::MAX);
        }
        let p = &projects[i];
        let nums = row_strings(&p.stats);
        widen_widths(&mut ws, p.name.as_str(), &nums);
        totals.add(&p.stats);
        i = i + 1;
    }
    assert(ps.take(ps.len() as int) == ps);
    (ws, totals)
}

/// The rows of the projects.
fn project_rows(projects: &[ProjectStats], ws: &Vec<usize>, lines: &mut Vec<String>)
    requires
        summary_fits(projects_view(projects@)),
        ws@.len() == 6,
    ensures
        strings_view(final(lines)@) == strings_view(old(lines)@) + projects_view(projects@).map_values(
            |p: ProjectStatsView| data_row(p.name, row_numbers(p.stats), nat_widths(ws@)),
        ),
{
    let ghost ps = projects_view(projects@);
    let ghost cw = nat_widths(ws@);
    let ghost top = strings_view(lines@);
    let ghost rows = ps.map_values(|p: ProjectStatsView| data_row(p.name, row_numbers(p.stats), cw));
    let mut i: usize = 0;
    while i < projects.len()
        invariant
            i <= projects@.len(),
            ps == projects_view(projects@),
            summary_fits(ps),
            ws@.len() == 6,
            cw == nat_widths(ws@),
            rows == ps.map_values(|p: ProjectStatsView| data_row(p.name, row_numbers(p.stats), cw)),
            strings_view(lines@) == top + rows.take(i as int),
        decreases projects.len() - i,
    {
        proof {
            lemma_sum_projects_prefix(ps, i as int);
            assert(ps[i as int] == projects@[i as int]@);
            assert(spec_display_width(ps[i as int].name) + 2 <= usize::MAX);
        }
        let p = &projects[i];
        let nums = row_strings(&p.stats);
        let line = data_line(p.name.as_str(), &nums, ws);
        assert(line@ == rows[i as int]);
        let ghost before = strings_view(lines@);
        lines.push(line);
        assert(strings_view(lines@) =~= before.push(rows[i as int]));
        assert(rows.take(i + 1) =~= rows.take(i as int).push(rows[i as int]));
        i = i + 1;
    }
    assert(rows.take(rows.len() as int) == rows);
}

/// The lines of the summary table: one row per project with its lines
/// written, edited, replied, of code and in all, then a totals row, framed
/// by rules; the single line `"No data found."` when there are no projects.
pub fn display_summary(projects: &[ProjectStats]) -> (lines: Vec<String>)
    requires
        summary_fits(projects_view(projects@)),
    ensures
        strings_view(lines@) == spec_summary_lines(projects_view(projects@)),
{
    let ghost ps = projects_view(projects@);
    let mut lines: Vec<String> = Vec::new();
    if projects.len() == 0 {
        lines.push(String::from_str("No data found."));
        assert(strings_view(lines@) =~= seq!["No data found."@]);
        return lines;
    }
    let header = header_strings();
    let hws = header_width_list(&header);
    let (mut ws, totals) = widths_and_totals(projects, hws);
    proof {
        lemma_sum_projects_prefix(ps, ps.len() as int);
        assert(ps.take(ps.len() as int) == ps);
    }
    let tnums = row_strings(&totals);
    let label = String::from_str("合計");
    proof {
        reveal_strlit("合計");
        lemma_width_bounds("合計"@);
    }
    widen_widths(&mut ws, label.as_str(), &tnums);
    let ghost cw = column_widths(ps);
    assert(nat_widths(ws@) == cw);
    let b1 = border_line(&ws, '┌', '┬', '┐');
    let h = header_line(&header, &ws);
    let b2 = border_line(&ws, '├', '┼', '┤');
    let ghost top = seq![b1@, h@, b2@];
    lines.push(b1);
    lines.push(h);
    lines.push(b2);
    assert(strings_view(lines@) =~= top);
    project_rows(projects, &ws, &mut lines);
    let ghost rows = ps.map_values(|p: ProjectStatsView| data_row(p.name, row_numbers(p.stats), cw));
    assert(strings_view(lines@) == top + rows);
    let b3 = border_line(&ws, '├', '┼', '┤');
    let t = data_line(label.as_str(), &tnums, &ws);
    let b4 = border_line(&ws, '└', '┴', '┘');
    let ghost bottom = seq![b3@, t@, b4@];
    let ghost mid = strings_view(lines@);
    lines.push(b3);
    lines.push(t);
    lines.push(b4);
    assert(strings_view(lines@) =~= mid + bottom);
    assert(top == seq![border(cw, '┌', '┬', '┐'), header_row(summary_header(), cw), border(cw, '├', '┼', '┤')]);
    assert(bottom == seq![
        border(cw, '├', '┼', '┤'),
        data_row(total_label(), row_numbers(sum_projects(ps)), cw),
        border(cw, '└', '┴', '┘'),
    ]);
    lines
}


// ---------------------------------------------------------------------------
// The listing of sessions

/// `s` left-aligned in `n` characters (`{:<n}`).
pub open spec fn pad_right(s: Seq<char>, n: nat) -> Seq<char> {
    if s.len() >= n { s } else { s + repeat_char(' ', (n - s.len()) as nat) }
}

/// `s` right-aligned in `n` characters (`{:>n}`).
pub open spec fn pad_left(s: Seq<char>, n: nat) -> Seq<char> {
    if s.len() >= n { s } else { repeat_char(' ', (n - s.len()) as nat) + s }
}

/// A line of the listing: two columns left-aligned in 12 characters, four
/// right-aligned in 8.
pub open spec fn listing_row(cols: Seq<Seq<char>>) -> Seq<char> {
    seq![' ', ' '] + pad_right(cols[0], 12) + seq![' '] + pad_right(cols[1], 12) + seq![' ']
        + pad_left(cols[2], 8) + seq![' '] + pad_left(cols[3], 8) + seq![' '] + pad_left(cols[4], 8)
        + seq![' '] + pad_left(cols[5], 8)
}

pub open spec fn listing_header() -> Seq<Seq<char>> {
    seq!["日付"@, "タイトル"@, "Write"@, "Edit"@, "チャット"@, "合計"@]
}

/// A session's columns: date, title, lines written, edited, replied, in all.
pub open spec fn session_cols(s: SessionStatsView) -> Seq<Seq<char>> {
    seq![s.date, s.title, spec_fmt_num(s.stats.write), spec_fmt_num(s.stats.edit), spec_fmt_num(s.stats.text),
        spec_fmt_num(total_of(s.stats))]
}

/// A project's totals line.
pub open spec fn project_total_cols(p: ProjectStatsView) -> Seq<Seq<char>> {
    seq![Seq::empty(), "合計"@, spec_fmt_num(p.stats.write), spec_fmt_num(p.stats.edit), spec_fmt_num(p.stats.text),
        spec_fmt_num(total_of(p.stats))]
}

pub open spec fn project_heading(p: ProjectStatsView) -> Seq<char> {
    "=== "@ + p.name + " ("@ + spec_digits(p.sessions.len()) + " sessions) ==="@
}

/// A project's part of the listing: a blank line, a heading, the column
/// names, a line per session and the totals line.
pub open spec fn project_block(p: ProjectStatsView) -> Seq<Seq<char>> {
    seq![Seq::empty(), project_heading(p), listing_row(listing_header())]
        + p.sessions.map_values(|s: SessionStatsView| listing_row(session_cols(s)))
        + seq![listing_row(project_total_cols(p))]
}

pub open spec fn project_blocks(ps: Seq<ProjectStatsView>) -> Seq<Seq<char>>
    decreases ps.len(),
{
    if ps.len() == 0 {
        Seq::empty()
    } else {
        project_blocks(ps.drop_last()) + project_block(ps.last())
    }
}

/// The lines of the listing of sessions, project by project; the single
/// line `"No data found."` when there are no projects.
pub open spec fn spec_session_lines(ps: Seq<ProjectStatsView>) -> Seq<Seq<char>> {
    if ps.len() == 0 { seq!["No data found."@] } else { project_blocks(ps) }
}

/// Where the part of project `i` starts in the listing: after four lines
/// and a line per session for every project before it.
pub open spec fn block_start(ps: Seq<ProjectStatsView>, i: int) -> int
    decreases i,
{
    if i <= 0 {
        0
    } else {
        block_start(ps, i - 1) + 4 + ps[i - 1].sessions.len()
    }
}

/// Project `i`'s part of the listing stands at `at` in `lines`: a blank line,
/// its heading, the column names, a line per session in order, and its
/// totals line.
pub open spec fn block_at(lines: Seq<Seq<char>>, at: int, p: ProjectStatsView) -> bool {
    &&& 0 <= at
    &&& at + 4 + p.sessions.len() <= lines.len()
    &&& lines[at] == Seq::<char>::empty()
    &&& lines[at + 1] == project_heading(p)
    &&& lines[at + 2] == listing_row(listing_header())
    &&& forall|k: int| 0 <= k < p.sessions.len() ==> #[trigger] lines[at + 3 + k] == listing_row(session_cols(p.sessions[k]))
    &&& lines[at + 3 + p.sessions.len()] == listing_row(project_total_cols(p))
}

proof fn lemma_block_start_prefix(ps: Seq<ProjectStatsView>, i: int)
    requires
        0 <= i < ps.len(),
    ensures
        block_start(ps.drop_last(), i) == block_start(ps, i),
    decreases i,
{
    if i > 0 {
        lemma_block_start_prefix(ps, i - 1);
    }
}

proof fn lemma_block_shape(p: ProjectStatsView)
    ensures
        project_block(p).len() == 4 + p.sessions.len(),
        block_at(project_block(p), 0, p),
{
    let b = project_block(p);
    assert forall|k: int| 0 <= k < p.sessions.len() implies #[trigger] b[0 + 3 + k]
        == listing_row(session_cols(p.sessions[k])) by {
        assert(b[3 + k] == listing_row(session_cols(p.sessions[k])));
    }
}

proof fn lemma_block_at_append(a: Seq<Seq<char>>, b: Seq<Seq<char>>, at: int, p: ProjectStatsView)
    requires
        block_at(a, at, p),
    ensures
        block_at(a + b, at, p),
{
    let ab = a + b;
    assert forall|k: int| 0 <= k < p.sessions.len() implies #[trigger] ab[at + 3 + k]
        == listing_row(session_cols(p.sessions[k])) by {
        assert(ab[at + 3 + k] == a[at + 3 + k]);
    }
    assert(ab[at + 3 + p.sessions.len()] == a[at + 3 + p.sessions.len()]);
}

proof fn lemma_block_at_shift(a: Seq<Seq<char>>, b: Seq<Seq<char>>, p: ProjectStatsView)
    requires
        block_at(b, 0, p),
    ensures
        block_at(a + b, a.len() as int, p),
{
    let ab = a + b;
    let at = a.len() as int;
    assert forall|k: int| 0 <= k < p.sessions.len() implies #[trigger] ab[at + 3 + k]
        == listing_row(session_cols(p.sessions[k])) by {
        assert(ab[at + 3 + k] == b[0 + 3 + k]);
    }
    assert(ab[at + 3 + p.sessions.len()] == b[0 + 3 + p.sessions.len() as int]);
}

proof fn lemma_project_blocks(ps: Seq<ProjectStatsView>)
    ensures
        project_blocks(ps).len() == block_start(ps, ps.len() as int),
        forall|i: int| 0 <= i < ps.len() ==> block_at(project_blocks(ps), block_start(ps, i), #[trigger] ps[i]),
    decreases ps.len(),
{
    if ps.len() > 0 {
        let pre = ps.drop_last();
        let n = ps.len() - 1;
        lemma_project_blocks(pre);
        lemma_block_start_prefix(ps, n);
        let a = project_blocks(pre);
        let b = project_block(ps.last());
        lemma_block_shape(ps.last());
        assert(project_blocks(ps) == a + b);
        assert forall|i: int| 0 <= i < ps.len() implies block_at(a + b, block_start(ps, i), #[trigger] ps[i]) by {
            if i < n {
                lemma_block_start_prefix(ps, i);
                assert(pre[i] == ps[i]);
                lemma_block_at_append(a, b, block_start(pre, i), pre[i]);
            } else {
                lemma_block_at_shift(a, b, ps.last());
            }
        }
    }
}

/// The listing holds one part per project, in the projects' order and with
/// nothing else: project `i`'s part starts after four lines and a line per
/// session for every project before it, and the listing ends with the last
/// project's part.
pub proof fn law_listing_blocks(ps: Seq<ProjectStatsView>)
    requires
        ps.len() > 0,
    ensures
        spec_session_lines(ps).len() == block_start(ps, ps.len() as int),
        forall|i: int| 0 <= i < ps.len() ==> block_at(spec_session_lines(ps), block_start(ps, i), #[trigger] ps[i]),
{
    lemma_project_blocks(ps);
}

/// A project's total and each of its sessions' totals fit in a `usize`.
pub open spec fn project_fits(p: ProjectStatsView) -> bool {
    &&& total_of(p.stats) <= usize::MAX
    &&& forall|j: int| 0 <= j < p.sessions.len() ==> total_of(#[trigger] p.sessions[j].stats) <= usize::MAX
}

/// Every project's and every session's total fits in a `usize`.
pub open spec fn sessions_fit(ps: Seq<ProjectStatsView>) -> bool {
    forall|i: int| 0 <= i < ps.len() ==> project_fits(#[trigger] ps[i])
}

fn append_pad_right(out: &mut String, s: &str, n: usize)
    ensures
        final(out)@ == old(out)@ + pad_right(s@, n as nat),
{
    let l = s.unicode_len();
    out.append(s);
    if l < n {
        push_repeat(out, ' ', n - l);
    }
}

fn append_pad_left(out: &mut String, s: &str, n: usize)
    ensures
        final(out)@ == old(out)@ + pad_left(s@, n as nat),
{
    let l = s.unicode_len();
    if l < n {
        push_repeat(out, ' ', n - l);
    }
    out.append(s);
    proof {
        if s@.len() < n {
            assert(old(out)@ + repeat_char(' ', (n - s@.len()) as nat) + s@
                == old(out)@ + (repeat_char(' ', (n - s@.len()) as nat) + s@));
        }
    }
}

/// A line of the listing.
fn listing_line(cols: &Vec<String>) -> (r: String)
    requires
        cols@.len() == 6,
    ensures
        r@ == listing_row(strings_view(cols@)),
{
    let mut r = String::new();
    push_char(&mut r, ' ');
    push_char(&mut r, ' ');
    append_pad_right(&mut r, cols[0].as_str(), 12);
    push_char(&mut r, ' ');
    append_pad_right(&mut r, cols[1].as_str(), 12);
    push_char(&mut r, ' ');
    append_pad_left(&mut r, cols[2].as_str(), 8);
    push_char(&mut r, ' ');
    append_pad_left(&mut r, cols[3].as_str(), 8);
    push_char(&mut r, ' ');
    append_pad_left(&mut r, cols[4].as_str(), 8);
    push_char(&mut r, ' ');
    append_pad_left(&mut r, cols[5].as_str(), 8);
    r
}

fn session_line(s: &SessionStats) -> (r: String)
    requires
        total_of(s@.stats) <= usize::MAX,
    ensures
        r@ == listing_row(session_cols(s@)),
{
    let cols = vec![
        s.date.clone(),
        s.title.clone(),
        fmt_num(s.stats.write_lines),
        fmt_num(s.stats.edit_lines),
        fmt_num(s.stats.text_lines),
        fmt_num(s.stats.total()),
    ];
    assert(strings_view(cols@) =~= session_cols(s@));
    listing_line(&cols)
}

/// The lines of one project in the listing.
fn project_lines(p: &ProjectStats, lines: &mut Vec<String>)
    requires
        project_fits(p@),
    ensures
        strings_view(final(lines)@) == strings_view(old(lines)@) + project_block(p@),
{
    let ghost pv = p@;
    let ghost start = strings_view(lines@);
    lines.push(String::new());
    let mut heading = String::from_str("=== ");
    heading.append(p.name.as_str());
    heading.append(" (");
    let n = fmt_plain(p.sessions.len());
    heading.append(n.as_str());
    heading.append(" sessions) ===");
    lines.push(heading);
    let hdr = vec![
        String::from_str("日付"),
        String::from_str("タイトル"),
        String::from_str("Write"),
        String::from_str("Edit"),
        String::from_str("チャット"),
        String::from_str("合計"),
    ];
    assert(strings_view(hdr@) =~= listing_header());
    lines.push(listing_line(&hdr));
    let ghost head = seq![Seq::<char>::empty(), project_heading(pv), listing_row(listing_header())];
    assert(strings_view(lines@) =~= start + head);
    let ghost rows = pv.sessions.map_values(|s: SessionStatsView| listing_row(session_cols(s)));
    let mut j: usize = 0;
    while j < p.sessions.len()
        invariant
            j <= p.sessions@.len(),
            pv == p@,
            project_fits(pv),
            rows == pv.sessions.map_values(|s: SessionStatsView| listing_row(session_cols(s))),
            strings_view(lines@) == start + head + rows.take(j as int),
        decreases p.sessions.len() - j,
    {
        assert(pv.sessions[j as int] == p.sessions@[j as int]@);
        assert(total_of(pv.sessions[j as int].stats) <= usize::MAX);
        let line = session_line(&p.sessions[j]);
        let ghost before = strings_view(lines@);
        lines.push(line);
        assert(strings_view(lines@) =~= before.push(rows[j as int]));
        assert(rows.take(j + 1) =~= rows.take(j as int).push(rows[j as int]));
        j = j + 1;
    }
    assert(rows.take(rows.len() as int) == rows);
    let tot = vec![
        String::new(),
        String::from_str("合計"),
        fmt_num(p.stats.write_lines),
        fmt_num(p.stats.edit_lines),
        fmt_num(p.stats.text_lines),
        fmt_num(p.stats.total()),
    ];
    assert(strings_view(tot@) =~= project_total_cols(pv));
    let t = listing_line(&tot);
    let ghost before = strings_view(lines@);
    lines.push(t);
    assert(strings_view(lines@) =~= before.push(listing_row(project_total_cols(pv))));
    assert(start + head + rows + seq![listing_row(project_total_cols(pv))] =~= start + project_block(pv));
}

/// The lines of the listing of sessions: for each project a blank line, a
/// heading with its name and number of sessions, the column names, a line
/// per session (date, title, lines written, edited, replied, in all) and
/// the project's totals; the single line `"No data found."` when there are
/// no projects.
pub fn display_sessions(projects: &[ProjectStats]) -> (lines: Vec<String>)
    requires
        sessions_fit(projects_view(projects@)),
    ensures
        strings_view(lines@) == spec_session_lines(projects_view(projects@)),
{
    let ghost ps = projects_view(projects@);
    let mut lines: Vec<String> = Vec::new();
    if projects.len() == 0 {
        lines.push(String::from_str("No data found."));
        assert(strings_view(lines@) =~= seq!["No data found."@]);
        return lines;
    }
    assert(strings_view(lines@) =~= project_blocks(ps.take(0)));
    let mut i: usize = 0;
    while i < projects.len()
        invariant
            i <= projects@.len(),
            ps == projects_view(projects@),
            sessions_fit(ps),
            strings_view(lines@) == project_blocks(ps.take(i as int)),
        decreases projects.len() - i,
    {
        assert(ps[i as int] == projects@[i as int]@);
        assert(project_fits(ps[i as int]));
        project_lines(&projects[i], &mut lines);
        assert(ps.take(i + 1).drop_last() == ps.take(i as int));
        assert(ps.take(i + 1).last() == ps[i as int]);
        i = i + 1;
    }
    assert(ps.take(ps.len() as int) == ps);
    lines
}


// ---------------------------------------------------------------------------
// Checking the preconditions

/// Whether `s` is at most `limit` display columns wide.
pub fn display_width_within(s: &str, limit: usize) -> (r: bool)
    ensures
        r == (spec_display_width(s@) <= limit),
{
    let cs = chars_of(s);
    let mut w: usize = 0;
    let mut i: usize = 0;
    while i < cs.len()
        invariant
            i <= cs@.len(),
            cs@ == s@,
            w <= limit,
            w == spec_display_width(cs@.take(i as int)),
        decreases cs.len() - i,
    {
        assert(cs@.take(i + 1).drop_last() == cs@.take(i as int));
        let cw: usize = if (cs[i] as u32) > 0x7F { 2 } else { 1 };
        if cw > limit - w {
            proof { lemma_width_prefix(cs@, i + 1); }
            return false;
        }
        w = w + cw;
        i = i + 1;
    }
    assert(cs@.take(cs@.len() as int) == cs@);
    true
}

/// Whether `display_summary` can render these projects: all their lines
/// together, and each name's width with its margins, fit in a `usize`.
pub fn fits_summary(projects: &[ProjectStats]) -> (r: bool)
    ensures
        r == summary_fits(projects_view(projects@)),
{
    let ghost ps = projects_view(projects@);
    let mut total: usize = 0;
    let mut i: usize = 0;
    assert(ps.take(0) =~= Seq::<ProjectStatsView>::empty());
    while i < projects.len()
        invariant
            i <= projects@.len(),
            ps == projects_view(projects@),
            total == total_of(sum_projects(ps.take(i as int))),
            forall|k: int| 0 <= k < i ==> spec_display_width(#[trigger] ps[k].name) + 2 <= usize::MAX,
        decreases projects.len() - i,
    {
        proof {
            lemma_sum_projects_prefix(ps, i + 1);
            assert(ps.take(i + 1).drop_last() == ps.take(i as int));
            assert(ps.take(i + 1).last() == ps[i as int]);
            assert(ps[i as int] == projects@[i as int]@);
        }
        let p = &projects[i];
        if !display_width_within(p.name.as_str(), usize::MAX - 2) {
            assert(ps[i as int].name == p.name@);
            assert(!(spec_display_width(ps[i as int].name) + 2 <= usize::MAX));
            return false;
        }
        let t1 = match total.checked_add(p.stats.write_lines) {
            Some(x) => x,
            None => {
                return false;
            },
        };
        let t2 = match t1.checked_add(p.stats.edit_lines) {
            Some(x) => x,
            None => {
                return false;
            },
        };
        total = match t2.checked_add(p.stats.text_lines) {
            Some(x) => x,
            None => {
                return false;
            },
        };
        i = i + 1;
    }
    assert(ps.take(ps.len() as int) == ps);
    true
}

/// Whether `display_sessions` can render these projects: each project's
/// and each session's total fits in a `usize`.
pub fn fits_sessions(projects: &[ProjectStats]) -> (r: bool)
    ensures
        r == sessions_fit(projects_view(projects@)),
{
    let ghost ps = projects_view(projects@);
    let mut i: usize = 0;
    while i < projects.len()
        invariant
            i <= projects@.len(),
            ps == projects_view(projects@),
            forall|k: int| 0 <= k < i ==> project_fits(#[trigger] ps[k]),
        decreases projects.len() - i,
    {
        let p = &projects[i];
        assert(ps[i as int] == p@);
        if !stats_total_fits(&p.stats) {
            return false;
        }
        let mut j: usize = 0;
        while j < p.sessions.len()
            invariant
                j <= p.sessions@.len(),
                i < projects@.len(),
                ps == projects_view(projects@),
                ps[i as int] == p@,
                forall|k: int| 0 <= k < j ==> total_of(#[trigger] p@.sessions[k].stats) <= usize::MAX,
            decreases p.sessions.len() - j,
        {
            assert(p@.sessions[j as int] == p.sessions@[j as int]@);
            if !stats_total_fits(&p.sessions[j].stats) {
                assert(!(total_of(ps[i as int].sessions[j as int].stats) <= usize::MAX));
                assert(!project_fits(ps[i as int]));
                return false;
            }
            j = j + 1;
        }
        i = i + 1;
    }
    true
}

/// Whether the total of `s` fits in a `usize`.
fn stats_total_fits(s: &Stats) -> (r: bool)
    ensures
        r == (total_of(s@) <= usize::MAX),
{
    match s.write_lines.checked_add(s.edit_lines) {
        Some(x) => x.checked_add(s.text_lines).is_some(),
        None => false,
    }
}

} // verus!
