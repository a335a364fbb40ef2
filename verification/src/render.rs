//! The textual renderer: a fixed-width grid with one column per rod and one
//! row per disk height, each disk drawn as a bracketed run of `=` sized to
//! its identifier, bare rod segments drawn as a vertical bar, and a closing
//! row of base markers.

use crate::hanoi_solver::{lemma_wf_disk_facts, Hanoi};
use crate::text::{append_run, char_run};
use vstd::prelude::*;

verus! {

/// The cell showing a bare rod segment: `n + 1` spaces, a bar, `n + 1`
/// spaces.
pub open spec fn empty_cell(n: u32) -> Seq<char> {
    char_run(' ', (n + 1) as nat) + seq!['|'] + char_run(' ', (n + 1) as nat)
}

/// The cell showing disk `d` on a board of `n` disks: a run of `2d + 1`
/// equals signs between brackets, centred by `n - d` spaces on either side.
pub open spec fn disk_cell(d: u32, n: u32) -> Seq<char> {
    char_run(' ', (n - d) as nat) + seq!['['] + char_run('=', (2 * d + 1) as nat) + seq![']']
        + char_run(' ', (n - d) as nat)
}

/// One rod's cell at height `level`: its disk there, or a bare segment.
pub open spec fn rod_cell(rod: Seq<u32>, level: int, n: u32) -> Seq<char> {
    if 0 <= level < rod.len() {
        disk_cell(rod[level], n)
    } else {
        empty_cell(n)
    }
}

/// One row of the grid: the three rods' cells at height `level`,
/// tab-separated, closed by a newline.
pub open spec fn grid_row(rods: Seq<Seq<u32>>, level: int, n: u32) -> Seq<char> {
    rod_cell(rods[0], level, n) + seq!['\t'] + rod_cell(rods[1], level, n) + seq!['\t'] + rod_cell(
        rods[2],
        level,
        n,
    ) + seq!['\n']
}

/// The rows for heights `hi - 1` down to `lo`, highest first.
pub open spec fn grid_rows(rods: Seq<Seq<u32>>, hi: int, lo: int, n: u32) -> Seq<char>
    decreases hi - lo,
{
    if hi <= lo {
        Seq::<char>::empty()
    } else {
        grid_row(rods, hi - 1, n) + grid_rows(rods, hi - 1, lo, n)
    }
}

/// The header: a newline, then a row of bare segments over all three rods.
pub open spec fn grid_header(n: u32) -> Seq<char> {
    seq!['\n'] + empty_cell(n) + seq!['\t'] + empty_cell(n) + seq!['\t'] + empty_cell(n)
        + seq!['\n']
}

/// One rod's base marker: `n + 1` dashes, a plus, `n + 1` dashes.
pub open spec fn base_cell(n: u32) -> Seq<char> {
    char_run('-', (n + 1) as nat) + seq!['+'] + char_run('-', (n + 1) as nat)
}

/// The footer: the three base markers, tab-separated, with no final newline.
pub open spec fn grid_footer(n: u32) -> Seq<char> {
    base_cell(n) + seq!['\t'] + base_cell(n) + seq!['\t'] + base_cell(n)
}

/// The full grid for a board of `n` disks in state `rods`: header, one row
/// per height from `n - 1` down to `0`, footer.
pub open spec fn rendered_board(rods: Seq<Seq<u32>>, n: u32) -> Seq<char> {
    grid_header(n) + grid_rows(rods, n as int, 0, n) + grid_footer(n)
}

/// Extending a block of rows downwards by the row below it.
proof fn lemma_grid_rows_extend(rods: Seq<Seq<u32>>, hi: int, lo: int, n: u32)
    requires
        lo < hi,
    ensures
        grid_rows(rods, hi, lo + 1, n) + grid_row(rods, lo, n) == grid_rows(rods, hi, lo, n),
    decreases hi - lo,
{
    if hi == lo + 1 {
        assert(grid_rows(rods, lo, lo, n) == Seq::<char>::empty());
        assert(grid_rows(rods, hi, lo + 1, n) == Seq::<char>::empty());
        assert(grid_rows(rods, hi, lo, n) == grid_row(rods, lo, n) + grid_rows(rods, lo, lo, n));
        assert(grid_rows(rods, hi, lo + 1, n) + grid_row(rods, lo, n) =~= grid_rows(
            rods,
            hi,
            lo,
            n,
        ));
    } else {
        lemma_grid_rows_extend(rods, hi - 1, lo, n);
        assert(grid_rows(rods, hi, lo + 1, n) == grid_row(rods, hi - 1, n) + grid_rows(
            rods,
            hi - 1,
            lo + 1,
            n,
        ));
        assert(grid_rows(rods, hi, lo, n) == grid_row(rods, hi - 1, n) + grid_rows(
            rods,
            hi - 1,
            lo,
            n,
        ));
        assert(grid_rows(rods, hi, lo + 1, n) + grid_row(rods, lo, n) =~= grid_rows(
            rods,
            hi,
            lo,
            n,
        ));
    }
}

/// Appends a bare rod segment cell.
fn append_empty_cell(out: &mut String, n: u32)
    ensures
        final(out)@ == old(out)@ + empty_cell(n),
{
    proof {
        reveal_strlit(" ");
        reveal_strlit("|");
    }
    append_run(out, " ", n as u64 + 1);
    out.append("|");
    append_run(out, " ", n as u64 + 1);
    proof {
        assert(out@ =~= old(out)@ + empty_cell(n));
    }
}

/// Appends the cell of disk `d`.
fn append_disk_cell(out: &mut String, d: u32, n: u32)
    requires
        d < n,
    ensures
        final(out)@ == old(out)@ + disk_cell(d, n),
{
    proof {
        reveal_strlit(" ");
        reveal_strlit("[");
        reveal_strlit("=");
        reveal_strlit("]");
    }
    append_run(out, " ", (n - d) as u64);
    out.append("[");
    append_run(out, "=", 2 * (d as u64) + 1);
    out.append("]");
    append_run(out, " ", (n - d) as u64);
    proof {
        assert(out@ =~= old(out)@ + disk_cell(d, n));
    }
}

/// Appends one rod's cell at height `level`.
fn append_rod_cell(out: &mut String, rod: &Vec<u32>, level: u32, n: u32)
    requires
        forall|i: int| 0 <= i < rod@.len() ==> rod@[i] < n,
    ensures
        final(out)@ == old(out)@ + rod_cell(rod@, level as int, n),
{
    if (level as usize) < rod.len() {
        append_disk_cell(out, rod[level as usize], n);
    } else {
        append_empty_cell(out, n);
    }
}

/// Appends one base marker cell.
fn append_base_cell(out: &mut String, n: u32)
    ensures
        final(out)@ == old(out)@ + base_cell(n),
{
    proof {
        reveal_strlit("-");
        reveal_strlit("+");
    }
    append_run(out, "-", n as u64 + 1);
    out.append("+");
    append_run(out, "-", n as u64 + 1);
    proof {
        assert(out@ =~= old(out)@ + base_cell(n));
    }
}

impl Hanoi {
    /// Renders the board as its fixed-width textual grid. The output is a
    /// pure function of the board state: the exact sequence of characters is
    /// given by `rendered_board`.
    pub fn render(&self) -> (text: String)
        requires
            self.wf(),
        ensures
            text@ == rendered_board(self.rods(), self.disk_count()),
    {
        proof {
            lemma_wf_disk_facts(self.rods(), self.disk_count());
            reveal_strlit("\n");
            reveal_strlit("\t");
        }
        let n = self.disk_amount();
        let mut out = String::new();
        out.append("\n");
        append_empty_cell(&mut out, n);
        out.append("\t");
        append_empty_cell(&mut out, n);
        out.append("\t");
        append_empty_cell(&mut out, n);
        out.append("\n");
        proof {
            assert(out@ =~= grid_header(n));
            assert(grid_rows(self.rods(), n as int, n as int, n) =~= Seq::<char>::empty());
            assert(out@ =~= grid_header(n) + grid_rows(self.rods(), n as int, n as int, n));
        }
        let mut level = n;
        while level > 0
            invariant
                level <= n,
                self.wf(),
                n == self.disk_count(),
                forall|k: int, i: int|
                    0 <= k < 3 && 0 <= i < self.rods()[k].len() ==> #[trigger] self.rods()[k][i]
                        < n,
                out@ == grid_header(n) + grid_rows(self.rods(), n as int, level as int, n),
            decreases level,
        {
            level = level - 1;
            let ghost pre = out@;
            append_rod_cell(&mut out, self.rod(0), level, n);
            out.append("\t");
            append_rod_cell(&mut out, self.rod(1), level, n);
            out.append("\t");
            append_rod_cell(&mut out, self.rod(2), level, n);
            out.append("\n");
            proof {
                let rods = self.rods();
                let c0 = rod_cell(rods[0], level as int, n);
                let c1 = rod_cell(rods[1], level as int, n);
                let c2 = rod_cell(rods[2], level as int, n);
                reveal_strlit("\t");
                reveal_strlit("\n");
                assert("\t"@ =~= seq!['\t']);
                assert("\n"@ =~= seq!['\n']);
                assert(out@ == pre + c0 + "\t"@ + c1 + "\t"@ + c2 + "\n"@);
                assert(grid_row(rods, level as int, n) == c0 + seq!['\t'] + c1 + seq!['\t'] + c2
                    + seq!['\n']);
                assert(out@ =~= pre + grid_row(rods, level as int, n));
                lemma_grid_rows_extend(rods, n as int, level as int, n);
                assert(out@ =~= grid_header(n) + (grid_rows(rods, n as int, level + 1, n)
                    + grid_row(rods, level as int, n)));
            }
        }
        append_base_cell(&mut out, n);
        out.append("\t");
        append_base_cell(&mut out, n);
        out.append("\t");
        append_base_cell(&mut out, n);
        proof {
            assert(out@ =~= rendered_board(self.rods(), self.disk_count()));
        }
        out
    }
}

} // verus!
