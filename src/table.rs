//! Text tables: named columns, each computing one cell from a row, laid out
//! with every column as wide as its widest cell.

use vstd::prelude::*;
use crate::text::{push_str, string_from_chars};

verus! {

/// A named column whose cells `select` computes from a row.
pub struct Column<F> {
    pub select: F,
    pub name: String,
}

/// Columns laid out side by side.
pub struct Table<F> {
    pub columns: Vec<Column<F>>,
}

impl<F> Column<F> {
    pub fn new(name: &str, f: F) -> (r: Column<F>)
        ensures
            r.name@ == name@,
            r.select == f,
    {
        Column { select: f, name: name.to_owned() }
    }

    /// The cell of this column for row `x`.
    pub fn select<R>(&self, x: &R) -> (r: String)
        where F: Fn(&R) -> String,
        requires
            call_requires(self.select, (x,)),
        ensures
            call_ensures(self.select, (x,), r),
    {
        (self.select)(x)
    }
}

/// The largest of `w` and the lengths of column `c` of every row.
pub open spec fn column_width(cells: Seq<Seq<String>>, c: int, w: nat) -> nat
    decreases cells.len(),
{
    if cells.len() == 0 {
        w
    } else {
        let rest = column_width(cells.drop_last(), c, w);
        let l = cells.last()[c]@.len();
        if l > rest { l } else { rest }
    }
}

/// `s` padded with spaces on the right to `w` characters.
pub open spec fn padded(s: Seq<char>, w: nat) -> Seq<char> {
    if s.len() >= w { s } else { s + Seq::new((w - s.len()) as nat, |i: int| ' ') }
}

/// The cells padded to their widths, joined by ` | ` between `| ` and ` |`.
pub open spec fn row_line(cells: Seq<Seq<char>>, widths: Seq<nat>) -> Seq<char> {
    seq!['|', ' '] + row_body(cells, widths) + seq![' ', '|']
}

pub open spec fn row_body(cells: Seq<Seq<char>>, widths: Seq<nat>) -> Seq<char>
    decreases cells.len(),
{
    if cells.len() == 0 {
        Seq::empty()
    } else if cells.len() == 1 {
        padded(cells[0], widths[0])
    } else {
        row_body(cells.drop_last(), widths) + seq![' ', '|', ' '] + padded(cells.last(), widths[cells.len() - 1])
    }
}

/// `n` dashes.
pub open spec fn dashes(n: nat) -> Seq<char> {
    Seq::new(n, |i: int| '-')
}

/// The rule under the header: for each column, two more dashes than its
/// width, joined by `+` between `|` and `|`.
pub open spec fn rule_line(widths: Seq<nat>) -> Seq<char> {
    seq!['|'] + rule_body(widths) + seq!['|']
}

pub open spec fn rule_body(widths: Seq<nat>) -> Seq<char>
    decreases widths.len(),
{
    if widths.len() == 0 {
        Seq::empty()
    } else if widths.len() == 1 {
        dashes(widths[0] + 2)
    } else {
        rule_body(widths.drop_last()) + seq!['+'] + dashes(widths.last() + 2)
    }
}

/// The texts of a row of cells.
pub open spec fn texts(row: Seq<String>) -> Seq<Seq<char>> {
    row.map_values(|s: String| s@)
}

/// The width of each column for these cells.
pub open spec fn widths_for<F>(columns: Seq<Column<F>>, cells: Seq<Seq<String>>) -> Seq<nat> {
    Seq::new(columns.len(), |c: int| column_width(cells, c, columns[c].name@.len()))
}

fn push_padded(out: &mut Vec<char>, s: &String, w: usize)
    ensures
        final(out)@ == old(out)@ + padded(s@, w as nat),
{
    push_str(out, s.as_str());
    let n = s.as_str().unicode_len();
    let mut k: usize = n;
    while k < w
        invariant
            n == s@.len(),
            n <= k,
            k < w ==> out@ == old(out)@ + s@ + Seq::new((k - n) as nat, |i: int| ' '),
            k >= w ==> out@ == old(out)@ + padded(s@, w as nat),
        decreases w - k,
    {
        out.push(' ');
        k = k + 1;
        if k >= w {
            assert(out@ =~= old(out)@ + padded(s@, w as nat));
        } else {
            assert(out@ =~= old(out)@ + s@ + Seq::new((k - n) as nat, |i: int| ' '));
        }
    }
    if n >= w {
        assert(out@ =~= old(out)@ + padded(s@, w as nat));
    }
}

/// The line of a row of cells.
fn line_of(cells: &Vec<String>, widths: &Vec<usize>) -> (r: String)
    requires
        cells@.len() <= widths@.len(),
    ensures
        r@ == row_line(cells@.map_values(|s: String| s@), widths@.map_values(|w: usize| w as nat)),
{
    let ghost cs = cells@.map_values(|s: String| s@);
    let ghost ws = widths@.map_values(|w: usize| w as nat);
    let mut out: Vec<char> = Vec::new();
    out.push('|');
    out.push(' ');
    let mut i: usize = 0;
    while i < cells.len()
        invariant
            cells@.len() <= widths@.len(),
            cs == cells@.map_values(|s: String| s@),
            ws == widths@.map_values(|w: usize| w as nat),
            i <= cells@.len(),
            out@ == seq!['|', ' '] + row_body(cs.subrange(0, i as int), ws),
        decreases cells@.len() - i,
    {
        if i > 0 {
            out.push(' ');
            out.push('|');
            out.push(' ');
        }
        push_padded(&mut out, &cells[i], widths[i]);
        proof {
            let p = cs.subrange(0, i as int + 1);
            assert(p.drop_last() =~= cs.subrange(0, i as int));
            assert(p.last() == cells@[i as int]@);
            assert(ws[i as int] == widths@[i as int] as nat);
            if i == 0 {
                assert(row_body(p, ws) == padded(p[0], ws[0]));
            }
            assert(out@ =~= seq!['|', ' '] + row_body(p, ws));
        }
        i = i + 1;
    }
    out.push(' ');
    out.push('|');
    assert(cs.subrange(0, i as int) =~= cs);
    assert(out@ =~= row_line(cs, ws));
    string_from_chars(&out)
}

impl<F> Table<F> {
    pub fn new(columns: Vec<Column<F>>) -> (r: Table<F>)
        ensures
            r.columns == columns,
    {
        Table { columns }
    }

    /// The cells of every row, one per column.
    pub fn select<R>(&self, data: &[R]) -> (r: Vec<Vec<String>>)
        where F: Fn(&R) -> String,
        requires
            forall|c: int, x: &R| 0 <= c < self.columns@.len() ==> #[trigger] call_requires(self.columns@[c].select, (x,)),
        ensures
            r@.len() == data@.len(),
            forall|i: int| 0 <= i < r@.len() ==> (#[trigger] r@[i])@.len() == self.columns@.len(),
            forall|i: int, c: int| 0 <= i < r@.len() && 0 <= c < self.columns@.len() ==>
                call_ensures(self.columns@[c].select, (&data@[i],), #[trigger] r@[i]@[c]),
    {
        let mut rows: Vec<Vec<String>> = Vec::new();
        let mut i: usize = 0;
        while i < data.len()
            invariant
                i <= data@.len(),
                rows@.len() == i,
                forall|c: int, x: &R| 0 <= c < self.columns@.len() ==> #[trigger] call_requires(self.columns@[c].select, (x,)),
                forall|k: int| 0 <= k < i ==> (#[trigger] rows@[k])@.len() == self.columns@.len(),
                forall|k: int, c: int| 0 <= k < i && 0 <= c < self.columns@.len() ==>
                    call_ensures(self.columns@[c].select, (&data@[k],), #[trigger] rows@[k]@[c]),
            decreases data@.len() - i,
        {
            let x = &data[i];
            let mut row: Vec<String> = Vec::new();
            let mut c: usize = 0;
            while c < self.columns.len()
                invariant
                    c <= self.columns@.len(),
                    row@.len() == c,
                    x == &data@[i as int],
                    forall|c2: int, y: &R| 0 <= c2 < self.columns@.len() ==> #[trigger] call_requires(self.columns@[c2].select, (y,)),
                    forall|c2: int| 0 <= c2 < c ==> call_ensures(self.columns@[c2].select, (x,), #[trigger] row@[c2]),
                decreases self.columns@.len() - c,
            {
                let cell = self.columns[c].select(x);
                row.push(cell);
                c = c + 1;
            }
            rows.push(row);
            i = i + 1;
        }
        rows
    }

    /// The width of each column: its widest cell, or its name if wider.
    pub fn calc_widths(&self, s_data: &Vec<Vec<String>>) -> (r: Vec<usize>)
        requires
            forall|i: int| 0 <= i < s_data@.len() ==> (#[trigger] s_data@[i])@.len() == self.columns@.len(),
        ensures
            r@.len() == self.columns@.len(),
            forall|c: int| 0 <= c < r@.len() ==>
                #[trigger] r@[c] as nat == column_width(s_data@.map_values(|row: Vec<String>| row@), c, self.columns@[c].name@.len()),
    {
        let ghost cells = s_data@.map_values(|row: Vec<String>| row@);
        let mut widths: Vec<usize> = Vec::new();
        let mut c: usize = 0;
        while c < self.columns.len()
            invariant
                c <= self.columns@.len(),
                widths@.len() == c,
                cells == s_data@.map_values(|row: Vec<String>| row@),
                forall|i: int| 0 <= i < s_data@.len() ==> (#[trigger] s_data@[i])@.len() == self.columns@.len(),
                forall|c2: int| 0 <= c2 < c ==>
                    #[trigger] widths@[c2] as nat == column_width(cells, c2, self.columns@[c2].name@.len()),
            decreases self.columns@.len() - c,
        {
            let mut w: usize = self.columns[c].name.as_str().unicode_len();
            let mut i: usize = 0;
            while i < s_data.len()
                invariant
                    i <= s_data@.len(),
                    c < self.columns@.len(),
                    cells == s_data@.map_values(|row: Vec<String>| row@),
                    forall|k: int| 0 <= k < s_data@.len() ==> (#[trigger] s_data@[k])@.len() == self.columns@.len(),
                    w as nat == column_width(cells.subrange(0, i as int), c as int, self.columns@[c as int].name@.len()),
                decreases s_data@.len() - i,
            {
                let l = s_data[i][c].as_str().unicode_len();
                assert(cells.subrange(0, i as int + 1).drop_last() =~= cells.subrange(0, i as int));
                assert(cells[i as int][c as int] == s_data@[i as int]@[c as int]);
                if l > w {
                    w = l;
                }
                i = i + 1;
            }
            assert(cells.subrange(0, i as int) =~= cells);
            widths.push(w);
            c = c + 1;
        }
        widths
    }

    /// The lines that show `data`: a header of the column names, a rule,
    /// and one line per row, every column padded to its width.
    pub fn render<R>(&self, data: &[R]) -> (r: Vec<String>)
        where F: Fn(&R) -> String,
        requires
            forall|c: int, x: &R| 0 <= c < self.columns@.len() ==> #[trigger] call_requires(self.columns@[c].select, (x,)),
        ensures
            r@.len() == data@.len() + 2,
            exists|cells: Seq<Seq<String>>| {
                &&& cells.len() == data@.len()
                &&& forall|i: int| 0 <= i < cells.len() ==> (#[trigger] cells[i]).len() == self.columns@.len()
                &&& forall|i: int, c: int| 0 <= i < cells.len() && 0 <= c < self.columns@.len() ==>
                    call_ensures(self.columns@[c].select, (&data@[i],), #[trigger] cells[i][c])
                &&& r@[0]@ == row_line(self.columns@.map_values(|col: Column<F>| col.name@), widths_for(self.columns@, cells))
                &&& r@[1]@ == rule_line(widths_for(self.columns@, cells))
                &&& forall|i: int| 0 <= i < cells.len() ==>
                    (#[trigger] r@[i + 2])@ == row_line(texts(cells[i]), widths_for(self.columns@, cells))
            },
    {
        let s_data = self.select(data);
        let widths = self.calc_widths(&s_data);
        let ghost cells = s_data@.map_values(|row: Vec<String>| row@);
        let ghost ws = widths@.map_values(|w: usize| w as nat);
        assert(ws =~= widths_for(self.columns@, cells));
        let mut names: Vec<String> = Vec::new();
        let mut c: usize = 0;
        while c < self.columns.len()
            invariant
                c <= self.columns@.len(),
                names@.len() == c,
                forall|k: int| 0 <= k < c ==> (#[trigger] names@[k])@ == self.columns@[k].name@,
            decreases self.columns@.len() - c,
        {
            names.push(self.columns[c].name.clone());
            c = c + 1;
        }
        assert(names@.map_values(|s: String| s@) =~= self.columns@.map_values(|col: Column<F>| col.name@));
        let mut lines: Vec<String> = Vec::new();
        lines.push(line_of(&names, &widths));
        let mut rule: Vec<char> = Vec::new();
        rule.push('|');
        let mut k: usize = 0;
        while k < widths.len()
            invariant
                k <= widths@.len(),
                ws == widths@.map_values(|w: usize| w as nat),
                rule@ == seq!['|'] + rule_body(ws.subrange(0, k as int)),
            decreases widths@.len() - k,
        {
            if k > 0 {
                rule.push('+');
            }
            let ghost base = rule@;
            let mut j: usize = 0;
            while j < widths[k]
                invariant
                    k < widths@.len(),
                    j <= widths@[k as int],
                    rule@ == base + dashes(j as nat),
                decreases widths@[k as int] - j,
            {
                rule.push('-');
                assert(rule@ =~= base + dashes(j as nat + 1));
                j = j + 1;
            }
            rule.push('-');
            rule.push('-');
            proof {
                assert(rule@ =~= base + dashes(ws[k as int] + 2));
                let p = ws.subrange(0, k as int + 1);
                assert(p.drop_last() =~= ws.subrange(0, k as int));
                assert(p.last() == ws[k as int]);
                if k == 0 {
                    assert(rule_body(p) == dashes(p[0] + 2));
                }
                assert(rule@ =~= seq!['|'] + rule_body(p));
            }
            k = k + 1;
        }
        rule.push('|');
        assert(ws.subrange(0, k as int) =~= ws);
        assert(rule@ =~= rule_line(ws));
        lines.push(string_from_chars(&rule));
        let mut i: usize = 0;
        while i < s_data.len()
            invariant
                i <= s_data@.len(),
                s_data@.len() == data@.len(),
                widths@.len() == self.columns@.len(),
                cells == s_data@.map_values(|row: Vec<String>| row@),
                ws == widths@.map_values(|w: usize| w as nat),
                forall|k2: int| 0 <= k2 < s_data@.len() ==> (#[trigger] s_data@[k2])@.len() == self.columns@.len(),
                lines@.len() == i + 2,
                lines@[0]@ == row_line(self.columns@.map_values(|col: Column<F>| col.name@), ws),
                lines@[1]@ == rule_line(ws),
                forall|k2: int| 0 <= k2 < i ==> (#[trigger] lines@[k2 + 2])@ == row_line(texts(cells[k2]), ws),
            decreases s_data@.len() - i,
        {
            let line = line_of(&s_data[i], &widths);
            assert(texts(cells[i as int]) =~= s_data@[i as int]@.map_values(|s: String| s@));
            lines.push(line);
            i = i + 1;
        }
        assert(forall|k2: int| 0 <= k2 < cells.len() ==> (#[trigger] cells[k2]) == s_data@[k2]@);
        lines
    }
}

} // verus!
