//! The Tower of Hanoi board and solver.
//!
//! A board holds three rods; each rod is a stack of disks, stored bottom to
//! top, so the last element of a rod is its top disk. A disk is identified by
//! a `u32`, and a larger identifier denotes a larger physical disk. At all
//! times every rod is strictly decreasing from bottom to top (no disk ever
//! rests on a smaller disk) and the disks across the three rods are exactly
//! `{0, ..., n-1}` for the disk count `n` fixed at construction.

use vstd::multiset::Multiset;
use vstd::prelude::*;
use vstd::seq_lib::group_to_multiset_ensures;

verus! {

/// A rod is strictly decreasing from bottom (first element) to top (last
/// element): no disk rests on a smaller disk.
pub open spec fn rod_descending(rod: Seq<u32>) -> bool {
    forall|i: int, j: int| 0 <= i < j < rod.len() ==> rod[i] > rod[j]
}

/// The full stack `[n-1, n-2, ..., 0]`: all `n` disks on one rod, largest at
/// the bottom, smallest (disk `0`) on top.
pub open spec fn initial_stack(n: u32) -> Seq<u32> {
    Seq::new(n as nat, |i: int| (n - 1 - i) as u32)
}

/// All disks found on the three rods together, as a multiset.
pub open spec fn all_disks(rods: Seq<Seq<u32>>) -> Multiset<u32> {
    rods[0].to_multiset().add(rods[1].to_multiset()).add(rods[2].to_multiset())
}

/// Well-formedness of a board with disk count `n`: three rods, each ordered,
/// together holding exactly the disks `{0, ..., n-1}`.
pub open spec fn rods_wf(rods: Seq<Seq<u32>>, n: u32) -> bool {
    &&& rods.len() == 3
    &&& forall|k: int| 0 <= k < 3 ==> rod_descending(#[trigger] rods[k])
    &&& all_disks(rods) == initial_stack(n).to_multiset()
}

/// Why a requested move was rejected. The board is left unchanged whenever a
/// move is rejected.
#[derive(Clone, Copy, Debug, PartialEq, Eq, Structural)]
pub enum MoveError {
    /// The source rod holds no disk; `rod` is its index.
    EmptySource { rod: usize },
    /// The move would place `disk` onto the smaller disk `top`.
    IllegalPlacement { disk: u32, top: u32 },
}

/// The error text shown to the user: it names the empty source rod, or the
/// two disks of a rejected placement.
pub open spec fn error_text(error: MoveError) -> Seq<char> {
    match error {
        MoveError::EmptySource { rod } => "No disk to move from tower "@ + crate::text::decimal_digits(rod as nat),
        MoveError::IllegalPlacement { disk, top } => "Disk "@ + crate::text::decimal_digits(
            disk as nat,
        ) + " is bigger than disk "@ + crate::text::decimal_digits(top as nat),
    }
}

impl MoveError {
    /// Renders the error as the text given by `error_text`.
    pub fn message(&self) -> (text: String)
        ensures
            text@ == error_text(*self),
    {
        match *self {
            MoveError::EmptySource { rod } => {
                let mut text = String::from_str("No disk to move from tower ");
                let numeral = crate::text::u64_to_decimal(rod as u64);
                text.append(numeral.as_str());
                proof {
                    assert(text@ =~= error_text(*self));
                }
                text
            },
            MoveError::IllegalPlacement { disk, top } => {
                let mut text = String::from_str("Disk ");
                let moved = crate::text::u64_to_decimal(disk as u64);
                text.append(moved.as_str());
                text.append(" is bigger than disk ");
                let blocking = crate::text::u64_to_decimal(top as u64);
                text.append(blocking.as_str());
                proof {
                    assert(text@ =~= error_text(*self));
                }
                text
            },
        }
    }
}

/// A Tower of Hanoi board: three rods and the disk count fixed at
/// construction. The strictly-decreasing ordering of every rod and the
/// conservation of the disks are maintained by every operation.
pub struct Hanoi {
    rod0: Vec<u32>,
    rod1: Vec<u32>,
    rod2: Vec<u32>,
    disks_amount: u32,
    moves: Ghost<nat>,
}

impl Hanoi {
    /// The three rods, bottom-to-top, as mathematical sequences.
    pub closed spec fn rods(&self) -> Seq<Seq<u32>> {
        seq![self.rod0@, self.rod1@, self.rod2@]
    }

    /// The disk count fixed at construction.
    pub closed spec fn disk_count(&self) -> u32 {
        self.disks_amount
    }

    /// How many successful single-disk moves have been applied to this board.
    pub closed spec fn moves_made(&self) -> nat {
        self.moves@
    }

    /// The board invariant: ordered rods holding exactly `{0, ..., n-1}`.
    pub open spec fn wf(&self) -> bool {
        rods_wf(self.rods(), self.disk_count())
    }

    /// The state a board is constructed in: every disk on rod 0, rods 1 and 2
    /// empty.
    pub open spec fn is_initial(&self) -> bool {
        self.rods() == seq![
            initial_stack(self.disk_count()),
            Seq::<u32>::empty(),
            Seq::<u32>::empty(),
        ]
    }

    /// Creates a board with `disks` disks, all stacked on rod 0 in decreasing
    /// size: identifiers `disks - 1` (bottom) down to `0` (top).
    pub fn new(disks: u32) -> (board: Self)
        ensures
            board.rods() == seq![initial_stack(disks), Seq::<u32>::empty(), Seq::<u32>::empty()],
            board.disk_count() == disks,
            board.moves_made() == 0,
            board.wf(),
    {
        let mut rod0: Vec<u32> = Vec::with_capacity(disks as usize);
        let mut remaining: u32 = disks;
        while remaining > 0
            invariant
                remaining <= disks,
                rod0@ == initial_stack(disks).take(disks - remaining),
            decreases remaining,
        {
            proof {
                assert(initial_stack(disks).take(disks - remaining + 1)
                    =~= initial_stack(disks).take(disks - remaining).push(
                    (remaining - 1) as u32,
                ));
            }
            rod0.push(remaining - 1);
            remaining = remaining - 1;
        }
        let board = Hanoi {
            rod0,
            rod1: Vec::with_capacity(disks as usize),
            rod2: Vec::with_capacity(disks as usize),
            disks_amount: disks,
            moves: Ghost(0),
        };
        proof {
            assert(initial_stack(disks).take(disks - 0) =~= initial_stack(disks));
            lemma_initial_board_wf(board.rods(), disks);
        }
        board
    }

    /// The disk count the board was constructed with.
    pub fn disk_amount(&self) -> (n: u32)
        ensures
            n == self.disk_count(),
    {
        self.disks_amount
    }

    /// Read access to one rod; `index` must be 0, 1 or 2.
    pub fn rod(&self, index: usize) -> (rod: &Vec<u32>)
        requires
            index < 3,
        ensures
            rod@ == self.rods()[index as int],
    {
        match index {
            0 => &self.rod0,
            1 => &self.rod1,
            _ => &self.rod2,
        }
    }

    /// Mutable access to one rod; `index` must be 0, 1 or 2. The other rods,
    /// the disk count and the move count are untouched.
    fn rod_mut(&mut self, index: usize) -> (rod: &mut Vec<u32>)
        requires
            index < 3,
        ensures
            (*rod)@ == old(self).rods()[index as int],
            final(self).rods().len() == 3,
            final(self).rods()[index as int] == final(rod)@,
            forall|j: int| 0 <= j < 3 && j != index ==> final(self).rods()[j] == old(
                self,
            ).rods()[j],
            final(self).disk_count() == old(self).disk_count(),
            final(self).moves_made() == old(self).moves_made(),
    {
        match index {
            0 => &mut self.rod0,
            1 => &mut self.rod1,
            _ => &mut self.rod2,
        }
    }
}

/// The validation outcome of a single-disk move on a board in state `rods`:
/// `EmptySource` when the source rod holds no disk, `IllegalPlacement` when
/// the top disk of the source is larger than the top disk of the destination,
/// `Ok` otherwise. A move back onto the source rod itself is a legal no-op.
pub open spec fn move_check(rods: Seq<Seq<u32>>, from: usize, to: usize) -> Result<(), MoveError> {
    if rods[from as int].len() == 0 {
        Err(MoveError::EmptySource { rod: from })
    } else if from != to && rods[to as int].len() > 0 && rods[from as int].last()
        > rods[to as int].last() {
        Err(
            MoveError::IllegalPlacement {
                disk: rods[from as int].last(),
                top: rods[to as int].last(),
            },
        )
    } else {
        Ok(())
    }
}

/// The board state after requesting a move from rod `from` to rod `to`: on a
/// legal move between two different rods the source loses its top disk and the
/// destination gains it as its new top; otherwise the board is unchanged.
pub open spec fn rods_after_move(rods: Seq<Seq<u32>>, from: usize, to: usize) -> Seq<Seq<u32>> {
    if move_check(rods, from, to) is Ok && from != to {
        rods.update(from as int, rods[from as int].drop_last()).update(
            to as int,
            rods[to as int].push(rods[from as int].last()),
        )
    } else {
        rods
    }
}

impl Hanoi {
    /// Moves the top disk of rod `from` onto rod `to` if the puzzle rule
    /// allows it, and otherwise rejects the move and leaves every rod exactly
    /// as it was. A move whose destination equals its (non-empty) source is
    /// accepted as a no-op.
    pub fn move_disk(&mut self, from: usize, to: usize) -> (result: Result<(), MoveError>)
        requires
            old(self).wf(),
            from < 3,
            to < 3,
        ensures
            result == move_check(old(self).rods(), from, to),
            final(self).rods() == rods_after_move(old(self).rods(), from, to),
            final(self).disk_count() == old(self).disk_count(),
            final(self).moves_made() == old(self).moves_made() + (
            if result is Ok {
                1nat
            } else {
                0nat
            }),
            final(self).wf(),
    {
        proof {
            lemma_move_preserves_wf(old(self).rods(), old(self).disk_count(), from, to);
        }
        let source_len = self.rod(from).len();
        if source_len == 0 {
            return Err(MoveError::EmptySource { rod: from });
        }
        if from == to {
            proof {
                self.moves@ = self.moves@ + 1;
            }
            return Ok(());
        }
        let source = self.rod(from);
        let disk = source[source.len() - 1];
        let destination = self.rod(to);
        if destination.len() > 0 {
            let top = destination[destination.len() - 1];
            if disk > top {
                return Err(MoveError::IllegalPlacement { disk, top });
            }
        }
        let source = self.rod_mut(from);
        let moved = source.pop().unwrap();
        let destination = self.rod_mut(to);
        destination.push(moved);
        proof {
            self.moves@ = self.moves@ + 1;
            assert(old(self).rods()[from as int].drop_last() =~= old(self).rods()[from as int]
                .subrange(0, old(self).rods()[from as int].len() - 1));
            assert(self.rods() =~= rods_after_move(old(self).rods(), from, to));
        }
        Ok(())
    }
}

/// Every disk on a well-formed board is one of `{0, ..., n-1}`, and no two
/// rods (nor two positions of one rod) hold the same disk.
pub proof fn lemma_wf_disk_facts(rods: Seq<Seq<u32>>, n: u32)
    requires
        rods_wf(rods, n),
    ensures
        forall|x: u32| all_disks(rods).count(x) <= 1,
        forall|k: int, i: int|
            0 <= k < 3 && 0 <= i < rods[k].len() ==> all_disks(rods).count(#[trigger] rods[k][i])
                >= 1,
        forall|k: int, i: int| 0 <= k < 3 && 0 <= i < rods[k].len() ==> #[trigger] rods[k][i] < n,
{
    broadcast use group_to_multiset_ensures;

    let stack = initial_stack(n);
    assert(stack.no_duplicates()) by {
        assert(forall|i: int, j: int|
            0 <= i < j < stack.len() ==> #[trigger] stack[i] != #[trigger] stack[j]);
    }
    stack.lemma_multiset_has_no_duplicates();
    assert forall|x: u32| all_disks(rods).count(x) <= 1 by {
        if stack.to_multiset().count(x) > 0 {
            assert(stack.to_multiset().count(x) == 1);
        }
    }
    assert forall|k: int, i: int| 0 <= k < 3 && 0 <= i < rods[k].len() implies all_disks(
        rods,
    ).count(#[trigger] rods[k][i]) >= 1 by {
        assert(rods[k].contains(rods[k][i]));
        assert(rods[k].to_multiset().count(rods[k][i]) > 0);
    }
    assert forall|k: int, i: int| 0 <= k < 3 && 0 <= i < rods[k].len() implies #[trigger] rods[k][i]
        < n by {
        assert(rods[k].contains(rods[k][i]));
        assert(rods[k].to_multiset().count(rods[k][i]) > 0);
        assert(stack.to_multiset().count(rods[k][i]) > 0);
        assert(stack.contains(rods[k][i]));
        let w = choose|w: int| 0 <= w < stack.len() && stack[w] == rods[k][i];
        assert(stack[w] < n);
    }
}

/// A requested move never breaks the board invariant: a rejected move leaves
/// the board unchanged, and a legal move keeps every rod ordered and the disk
/// population intact.
pub proof fn lemma_move_preserves_wf(rods: Seq<Seq<u32>>, n: u32, from: usize, to: usize)
    requires
        rods_wf(rods, n),
        from < 3,
        to < 3,
    ensures
        rods_wf(rods_after_move(rods, from, to), n),
{
    broadcast use group_to_multiset_ensures;

    if move_check(rods, from, to) is Ok && from != to {
        lemma_wf_disk_facts(rods, n);
        let src = rods[from as int];
        let dst = rods[to as int];
        let disk = src.last();
        let after = rods_after_move(rods, from, to);
        // The shortened source rod stays ordered.
        assert(rod_descending(src.drop_last()));
        // The moved disk is strictly smaller than every disk of the
        // destination rod, so the grown destination rod stays ordered.
        if dst.len() > 0 {
            // Tops differ because each disk exists only once on the board.
            assert(src.to_multiset().count(disk) > 0) by {
                assert(src.contains(disk));
            }
            assert(dst.to_multiset().count(dst.last()) > 0) by {
                assert(dst.contains(dst.last()));
            }
            assert(disk != dst.last()) by {
                if disk == dst.last() {
                    assert(all_disks(rods).count(disk) >= 2);
                }
            }
            assert(disk < dst.last());
            assert(forall|j: int| 0 <= j < dst.len() ==> disk < #[trigger] dst[j]);
        }
        assert(rod_descending(dst.push(disk)));
        // The disks on the board are unchanged as a multiset: the source
        // lost one copy of `disk` and the destination gained one.
        assert(src =~= src.drop_last().push(disk));
        assert(src.to_multiset() =~= src.drop_last().to_multiset().insert(disk));
        assert(dst.push(disk).to_multiset() =~= dst.to_multiset().insert(disk));
        assert(all_disks(after) =~= all_disks(rods));
    }
}

/// Every disk of `lo` is strictly smaller than every disk of `hi`.
pub open spec fn all_below(lo: Seq<u32>, hi: Seq<u32>) -> bool {
    forall|i: int, j: int| 0 <= i < lo.len() && 0 <= j < hi.len() ==> lo[i] < hi[j]
}

/// The top `count` disks of rod `source`, bottom-to-top: the disks the solver
/// is asked to relocate.
pub open spec fn moving_stack(rods: Seq<Seq<u32>>, count: u32, source: usize) -> Seq<u32> {
    rods[source as int].skip(rods[source as int].len() - count)
}

/// The configurations on which the recursive solver is guaranteed to succeed:
/// rod `source` holds at least `count` disks, and its top `count` disks are
/// all smaller than every disk on the destination and auxiliary rods, so that
/// each of them may come to rest on either rod at any point.
pub open spec fn solvable_config(
    rods: Seq<Seq<u32>>,
    count: u32,
    source: usize,
    destination: usize,
    auxiliary: usize,
) -> bool {
    &&& count <= rods[source as int].len()
    &&& all_below(moving_stack(rods, count, source), rods[destination as int])
    &&& all_below(moving_stack(rods, count, source), rods[auxiliary as int])
}

/// The board state after relocating the top `count` disks of rod `source`
/// onto rod `destination` in order: the source keeps only its lower part and
/// the destination gains the moved disks, stacked exactly as they were.
pub open spec fn rods_after_transfer(
    rods: Seq<Seq<u32>>,
    count: u32,
    source: usize,
    destination: usize,
) -> Seq<Seq<u32>> {
    rods.update(source as int, rods[source as int].take(rods[source as int].len() - count)).update(
        destination as int,
        rods[destination as int] + moving_stack(rods, count, source),
    )
}

/// The number of single-disk moves the recursive strategy performs for
/// `count` disks: none for an empty stack, and twice the sub-stack count plus
/// the one move of the largest disk otherwise.
pub open spec fn optimal_moves(count: nat) -> nat
    decreases count,
{
    if count == 0 {
        0
    } else {
        2 * optimal_moves((count - 1) as nat) + 1
    }
}

/// The closed form of the solver's move count: relocating `count` disks takes
/// exactly `2^count - 1` single-disk moves.
pub proof fn lemma_optimal_moves_closed_form(count: nat)
    ensures
        optimal_moves(count) == vstd::arithmetic::power2::pow2(count) - 1,
    decreases count,
{
    if count == 0 {
        vstd::arithmetic::power::lemma_pow0(2);
    } else {
        vstd::arithmetic::power2::lemma_pow2_unfold(count);
        lemma_optimal_moves_closed_form((count - 1) as nat);
        vstd::arithmetic::power2::lemma_pow2_pos((count - 1) as nat);
    }
}

/// A move from an empty rod always fails with `EmptySource` naming that rod,
/// and leaves every rod unchanged.
pub proof fn lemma_move_from_empty_rod(rods: Seq<Seq<u32>>, from: usize, to: usize)
    requires
        rods.len() == 3,
        from < 3,
        to < 3,
        rods[from as int].len() == 0,
    ensures
        move_check(rods, from, to) == Err::<(), MoveError>(MoveError::EmptySource { rod: from }),
        rods_after_move(rods, from, to) == rods,
{
}

/// A move that would place a disk onto a smaller top disk always fails with
/// `IllegalPlacement` naming both disks, and leaves every rod — in particular
/// the source rod — unchanged.
pub proof fn lemma_illegal_placement_rejected(rods: Seq<Seq<u32>>, from: usize, to: usize)
    requires
        rods.len() == 3,
        from < 3,
        to < 3,
        from != to,
        rods[from as int].len() > 0,
        rods[to as int].len() > 0,
        rods[to as int].last() < rods[from as int].last(),
    ensures
        move_check(rods, from, to) == Err::<(), MoveError>(
            MoveError::IllegalPlacement {
                disk: rods[from as int].last(),
                top: rods[to as int].last(),
            },
        ),
        rods_after_move(rods, from, to) == rods,
{
}

/// A legal move between two different rods removes exactly the top disk of
/// the source rod, places it as the new top of the destination rod, leaves
/// the third rod alone, and keeps the board well-formed.
pub proof fn lemma_legal_move(rods: Seq<Seq<u32>>, n: u32, from: usize, to: usize)
    requires
        rods_wf(rods, n),
        from < 3,
        to < 3,
        from != to,
        rods[from as int].len() > 0,
        rods[to as int].len() == 0 || rods[from as int].last() < rods[to as int].last(),
    ensures
        move_check(rods, from, to) == Ok::<(), MoveError>(()),
        rods_after_move(rods, from, to)[from as int] == rods[from as int].drop_last(),
        rods_after_move(rods, from, to)[to as int] == rods[to as int].push(
            rods[from as int].last(),
        ),
        forall|k: int|
            0 <= k < 3 && k != from && k != to ==> rods_after_move(rods, from, to)[k] == rods[k],
        rods_wf(rods_after_move(rods, from, to), n),
{
    lemma_move_preserves_wf(rods, n, from, to);
}

/// Attempting the same rejected move twice produces the identical error and
/// the identical, unchanged board both times.
pub proof fn lemma_rejected_move_repeats(rods: Seq<Seq<u32>>, from: usize, to: usize)
    requires
        rods.len() == 3,
        from < 3,
        to < 3,
        move_check(rods, from, to) is Err,
    ensures
        rods_after_move(rods, from, to) == rods,
        move_check(rods_after_move(rods, from, to), from, to) == move_check(rods, from, to),
{
}

impl Hanoi {
    /// The number of single-disk moves that solving a freshly constructed
    /// board of `disks` disks performs, `2^disks - 1`, or `None` when that
    /// count does not fit in a `u64`.
    pub fn optimal_move_count(disks: u32) -> (count: Option<u64>)
        ensures
            count is Some <==> disks < 64,
            count matches Some(c) ==> c as nat == optimal_moves(disks as nat),
    {
        if disks >= 64 {
            return None;
        }
        proof {
            vstd::arithmetic::power::lemma_pow0(2);
        }
        let mut done: u32 = 0;
        let mut total: u64 = 0;
        while done < disks
            invariant
                done <= disks < 64,
                total as nat == optimal_moves(done as nat),
                total as nat == vstd::arithmetic::power2::pow2(done as nat) - 1,
            decreases disks - done,
        {
            proof {
                lemma_optimal_moves_closed_form((done + 1) as nat);
                vstd::arithmetic::power2::lemma_pow2_unfold((done + 1) as nat);
                vstd::arithmetic::power2::lemma2_to64();
                if done + 1 < 64 {
                    vstd::arithmetic::power2::lemma_pow2_strictly_increases(
                        (done + 1) as nat,
                        64,
                    );
                }
            }
            total = 2 * total + 1;
            done = done + 1;
        }
        Some(total)
    }
}

/// The inductive step of the solver's correctness argument. From a solvable
/// configuration of `count > 0` disks: the sub-stack of `count - 1` disks can
/// be parked on the auxiliary rod; after that the largest moving disk passes
/// the move validation towards the destination; the parked sub-stack is then
/// solvable onto the destination; and the three stages together amount to one
/// transfer of all `count` disks.
#[verifier::rlimit(60)]
#[verifier::spinoff_prover]
proof fn lemma_solve_step(rods: Seq<Seq<u32>>, n: u32, count: u32, s: usize, d: usize, a: usize)
    requires
        rods_wf(rods, n),
        s < 3,
        d < 3,
        a < 3,
        s != d,
        s != a,
        d != a,
        count > 0,
        solvable_config(rods, count, s, d, a),
    ensures
        solvable_config(rods, (count - 1) as u32, s, a, d),
        ({
            let mid = rods_after_transfer(rods, (count - 1) as u32, s, a);
            &&& move_check(mid, s, d) == Ok::<(), MoveError>(())
            &&& ({
                let parked = rods_after_move(mid, s, d);
                &&& solvable_config(parked, (count - 1) as u32, a, d, s)
                &&& rods_after_transfer(parked, (count - 1) as u32, a, d) == rods_after_transfer(
                    rods,
                    count,
                    s,
                    d,
                )
            })
        }),
{
    let src = rods[s as int];
    let dst = rods[d as int];
    let aux = rods[a as int];
    let len = src.len() as int;
    let c = count as int;
    let mov = moving_stack(rods, count, s);
    let sub = moving_stack(rods, (count - 1) as u32, s);
    let big = src[len - c];
    assert(forall|i: int| 0 <= i < c - 1 ==> #[trigger] sub[i] == mov[i + 1]);
    // The smaller sub-stack is dominated wherever the full stack was, so it
    // may be parked on the auxiliary rod.
    assert forall|i: int, j: int| 0 <= i < sub.len() && 0 <= j < aux.len() implies sub[i]
        < aux[j] by {
        assert(sub[i] == mov[i + 1]);
    }
    assert forall|i: int, j: int| 0 <= i < sub.len() && 0 <= j < dst.len() implies sub[i]
        < dst[j] by {
        assert(sub[i] == mov[i + 1]);
    }
    assert(solvable_config(rods, (count - 1) as u32, s, a, d));

    let mid = rods_after_transfer(rods, (count - 1) as u32, s, a);
    assert(mid[s as int] == src.take(len - (c - 1)));
    assert(mid[d as int] == dst);
    assert(mid[a as int] == aux + sub);
    // The largest moving disk sits on top of the shortened source rod and is
    // smaller than every disk of the destination rod.
    assert(mid[s as int].len() == len - c + 1);
    assert(mid[s as int].last() == big);
    assert(mov[0] == big);
    if dst.len() > 0 {
        assert(big < dst.last());
    }
    assert(move_check(mid, s, d) == Ok::<(), MoveError>(()));

    let parked = rods_after_move(mid, s, d);
    assert(parked[s as int] == mid[s as int].drop_last());
    assert(parked[s as int] =~= src.take(len - c));
    assert(parked[d as int] == dst.push(big));
    assert(parked[a as int] == aux + sub);

    // The parked sub-stack is exactly the top of the auxiliary rod now.
    let mov2 = moving_stack(parked, (count - 1) as u32, a);
    assert(mov2 =~= sub);
    // It is dominated by the new destination rod (its disks are smaller than
    // `big` and than everything that was there) and by what remains on the
    // old source rod.
    assert forall|i: int, j: int|
        0 <= i < mov2.len() && 0 <= j < parked[d as int].len() implies mov2[i] < parked[d as
        int][j] by {
        assert(mov2[i] == mov[i + 1]);
        assert(mov[i + 1] == src[len - c + i + 1]);
        if j < dst.len() {
            assert(parked[d as int][j] == dst[j]);
        } else {
            assert(parked[d as int][j] == big);
            assert(src[len - c] > src[len - c + i + 1]);
        }
    }
    assert forall|i: int, j: int|
        0 <= i < mov2.len() && 0 <= j < parked[s as int].len() implies mov2[i] < parked[s as
        int][j] by {
        assert(mov2[i] == src[len - c + i + 1]);
        assert(parked[s as int][j] == src[j]);
        assert(src[j] > src[len - c + i + 1]);
    }
    assert(solvable_config(parked, (count - 1) as u32, a, d, s));

    // Undoing the bookkeeping: transferring the parked sub-stack onto the
    // destination yields exactly the transfer of all `count` disks.
    let done = rods_after_transfer(parked, (count - 1) as u32, a, d);
    assert(done[a as int] =~= aux);
    assert(done[s as int] == src.take(len - c));
    assert(done[d as int] =~= dst + mov) by {
        assert(done[d as int] == dst.push(big) + mov2);
        assert(dst.push(big).len() == dst.len() + 1);
        assert forall|j: int| 0 <= j < dst.len() + c implies (dst.push(big) + mov2)[j] == (dst
            + mov)[j] by {
            if j < dst.len() {
            } else if j == dst.len() {
                assert((dst.push(big) + mov2)[j] == big);
                assert((dst + mov)[j] == mov[0]);
            } else {
                assert((dst.push(big) + mov2)[j] == mov2[j - dst.len() - 1]);
                assert(mov2[j - dst.len() - 1] == mov[j - dst.len()]);
            }
        }
    }
    let whole = rods_after_transfer(rods, count, s, d);
    assert(whole[s as int] == src.take(len - c));
    assert(whole[d as int] == dst + mov);
    assert(whole[a as int] == aux);
    assert(done =~= whole);
}

/// Transferring no disks leaves the board as it is.
proof fn lemma_transfer_nothing(rods: Seq<Seq<u32>>, s: usize, d: usize)
    requires
        rods.len() == 3,
        s < 3,
        d < 3,
        s != d,
    ensures
        rods_after_transfer(rods, 0, s, d) == rods,
{
    assert(rods[s as int].take(rods[s as int].len() - 0) =~= rods[s as int]);
    assert(moving_stack(rods, 0, s) =~= Seq::<u32>::empty());
    assert(rods[d as int] + moving_stack(rods, 0, s) =~= rods[d as int]);
    assert(rods_after_transfer(rods, 0, s, d) =~= rods);
}

impl Hanoi {
    /// Relocates the top `number_of_disks` disks of the source rod onto the
    /// destination rod through validated single-disk moves, using the
    /// auxiliary rod as temporary space: the sub-stack above the largest
    /// moving disk is parked on the auxiliary rod, the largest moving disk is
    /// moved to the destination, and the sub-stack is brought after it.
    ///
    /// On every configuration in which the moving disks are smaller than all
    /// disks of the other two rods — in particular on a freshly constructed
    /// board — every proposed move passes validation, so the transfer
    /// succeeds and performs exactly `optimal_moves(number_of_disks)` moves.
    /// The first rejected move, if any, aborts the transfer and is returned
    /// unchanged; moves already applied remain applied.
    pub fn solve_recursive(
        &mut self,
        number_of_disks: u32,
        source_rod_index: usize,
        destination_rod_index: usize,
        auxiliary_rod_index: usize,
    ) -> (result: Result<(), MoveError>)
        requires
            old(self).wf(),
            source_rod_index < 3,
            destination_rod_index < 3,
            auxiliary_rod_index < 3,
            source_rod_index != destination_rod_index,
            source_rod_index != auxiliary_rod_index,
            destination_rod_index != auxiliary_rod_index,
        ensures
            final(self).wf(),
            final(self).disk_count() == old(self).disk_count(),
            solvable_config(
                old(self).rods(),
                number_of_disks,
                source_rod_index,
                destination_rod_index,
                auxiliary_rod_index,
            ) ==> {
                &&& result == Ok::<(), MoveError>(())
                &&& final(self).rods() == rods_after_transfer(
                    old(self).rods(),
                    number_of_disks,
                    source_rod_index,
                    destination_rod_index,
                )
                &&& final(self).moves_made() == old(self).moves_made() + optimal_moves(
                    number_of_disks as nat,
                )
            },
        decreases number_of_disks,
    {
        let ghost rods0 = self.rods();
        let ghost solvable0 = solvable_config(
            rods0,
            number_of_disks,
            source_rod_index,
            destination_rod_index,
            auxiliary_rod_index,
        );
        if number_of_disks == 0 {
            proof {
                lemma_transfer_nothing(rods0, source_rod_index, destination_rod_index);
            }
            return Ok(());
        }
        proof {
            if solvable0 {
                lemma_solve_step(
                    rods0,
                    self.disk_count(),
                    number_of_disks,
                    source_rod_index,
                    destination_rod_index,
                    auxiliary_rod_index,
                );
            }
        }
        let parked = self.solve_recursive(
            number_of_disks - 1,
            source_rod_index,
            auxiliary_rod_index,
            destination_rod_index,
        );
        if let Err(error) = parked {
            return Err(error);
        }
        let lowered = self.move_disk(source_rod_index, destination_rod_index);
        if let Err(error) = lowered {
            return Err(error);
        }
        let finished = self.solve_recursive(
            number_of_disks - 1,
            auxiliary_rod_index,
            destination_rod_index,
            source_rod_index,
        );
        if let Err(error) = finished {
            return Err(error);
        }
        Ok(())
    }
}

/// The state a fully solved board is in: rods 0 and 1 empty, every disk on
/// rod 2 in decreasing size.
pub open spec fn solved_rods(n: u32) -> Seq<Seq<u32>> {
    seq![Seq::<u32>::empty(), Seq::<u32>::empty(), initial_stack(n)]
}

/// Something that can solve its puzzle in place. `solve_pre` and `solve_post`
/// are the solver's contract, chosen by each implementation.
pub trait HanoiSolver {
    /// What the solver assumes of the state it is started on.
    spec fn solve_pre(&self) -> bool;

    /// How the state after solving and the returned result relate to the
    /// state the solver was started on (`self`).
    spec fn solve_post(&self, post: &Self, result: Result<(), MoveError>) -> bool;

    /// Runs the solver to completion or to the first rejected move.
    fn solve(&mut self) -> (result: Result<(), MoveError>)
        requires
            old(self).solve_pre(),
        ensures
            old(self).solve_post(final(self), result),
    ;
}

impl HanoiSolver for Hanoi {
    /// The board must be well-formed.
    open spec fn solve_pre(&self) -> bool {
        self.wf()
    }

    /// Solving preserves well-formedness and the disk count; started on a
    /// freshly constructed board it succeeds, moves every disk to rod 2, and
    /// performs exactly `optimal_moves(n)` single-disk moves.
    open spec fn solve_post(&self, post: &Self, result: Result<(), MoveError>) -> bool {
        &&& post.wf()
        &&& post.disk_count() == self.disk_count()
        &&& self.is_initial() ==> {
            &&& result == Ok::<(), MoveError>(())
            &&& post.rods() == solved_rods(self.disk_count())
            &&& post.moves_made() == self.moves_made() + optimal_moves(self.disk_count() as nat)
        }
    }

    /// Relocates all disks from rod 0 to rod 2, using rod 1 as auxiliary
    /// space, and reports the first rejected move if any move is rejected.
    fn solve(&mut self) -> (result: Result<(), MoveError>) {
        let ghost rods0 = self.rods();
        let ghost n = self.disk_count();
        proof {
            if old(self).is_initial() {
                lemma_initial_solvable(rods0, n);
            }
        }
        let disks = self.disks_amount;
        self.solve_recursive(disks, 0, 2, 1)
    }
}

/// On a freshly constructed board the whole stack of rod 0 is solvable onto
/// rod 2, and that transfer yields exactly the solved board.
proof fn lemma_initial_solvable(rods: Seq<Seq<u32>>, n: u32)
    requires
        rods == seq![initial_stack(n), Seq::<u32>::empty(), Seq::<u32>::empty()],
    ensures
        solvable_config(rods, n, 0, 2, 1),
        rods_after_transfer(rods, n, 0, 2) == solved_rods(n),
{
    assert(rods[0].len() == n);
    assert(moving_stack(rods, n, 0) =~= initial_stack(n));
    assert(rods[0].take(0) =~= Seq::<u32>::empty());
    assert(Seq::<u32>::empty() + moving_stack(rods, n, 0) =~= initial_stack(n));
    assert(rods_after_transfer(rods, n, 0, 2) =~= solved_rods(n));
}

/// A freshly stacked board is well-formed: the single full rod is ordered and
/// holds every disk exactly once.
proof fn lemma_initial_board_wf(rods: Seq<Seq<u32>>, n: u32)
    requires
        rods == seq![initial_stack(n), Seq::<u32>::empty(), Seq::<u32>::empty()],
    ensures
        rods_wf(rods, n),
{
    broadcast use group_to_multiset_ensures;

    assert(rod_descending(initial_stack(n)));
    assert(rod_descending(Seq::<u32>::empty()));
    assert(Seq::<u32>::empty().to_multiset() =~= Multiset::<u32>::empty());
    assert(all_disks(rods) =~= initial_stack(n).to_multiset());
}

} // verus!
