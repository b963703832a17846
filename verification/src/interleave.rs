//! Interleaving: one item from each of several sequences in turn.

use vstd::prelude::*;
use vstd::arithmetic::div_mod::lemma_fundamental_div_mod;
use vstd::arithmetic::div_mod::lemma_fundamental_div_mod_converse;
use vstd::arithmetic::div_mod::lemma_div_pos_is_pos;
use vstd::arithmetic::div_mod::lemma_mod_pos_bound;
use crate::sequence::fused;
use crate::sequence::lemma_remaining;
use crate::sequence::lemma_run_is;
use crate::sequence::remaining;
use crate::sequence::Sequence;

verus! {

/// The row that has its turn after `cursor`, among `count` rows.
pub open spec fn turn_after(cursor: int, count: int) -> int {
    if cursor + 1 >= count {
        0
    } else {
        cursor + 1
    }
}

/// The pulls that the sequences in `rows` need together to reach their
/// horizons.
pub open spec fn total_horizon<I: Sequence>(rows: Seq<I>) -> nat
    decreases rows.len(),
{
    if rows.len() == 0 {
        0
    } else {
        total_horizon(rows.drop_last()) + rows.last().horizon()
    }
}

/// No sequence needs more pulls than all of them together.
pub proof fn lemma_total_horizon_bounds<I: Sequence>(rows: Seq<I>, at: int)
    requires
        0 <= at < rows.len(),
    ensures
        rows[at].horizon() <= total_horizon(rows),
    decreases rows.len(),
{
    if at < rows.len() - 1 {
        lemma_total_horizon_bounds(rows.drop_last(), at);
    }
}

/// How quotient and remainder by `n` move from `k` to `k + 1`.
pub proof fn lemma_next_turn(k: int, n: int)
    requires
        k >= 0,
        n > 0,
    ensures
        0 <= k % n < n,
        0 <= k / n,
        k % n + 1 < n ==> (k + 1) % n == k % n + 1 && (k + 1) / n == k / n,
        k % n + 1 == n ==> (k + 1) % n == 0 && (k + 1) / n == k / n + 1,
{
    lemma_fundamental_div_mod(k, n);
    lemma_mod_pos_bound(k, n);
    lemma_div_pos_is_pos(k, n);
    let q = k / n;
    let r = k % n;
    assert(n * q == q * n) by (nonlinear_arith);
    if r + 1 < n {
        lemma_fundamental_div_mod_converse(k + 1, n, q, r + 1);
    } else {
        assert((q + 1) * n + 0 == q * n + n) by (nonlinear_arith);
        lemma_fundamental_div_mod_converse(k + 1, n, q + 1, 0);
    }
}

/// Whose turn pull number `k` is, in a round-robin of `n` that starts with
/// row `cursor`: a row of the round-robin, and the row `cursor` itself
/// exactly at every `n`-th pull.
pub proof fn lemma_turn(cursor: int, k: int, n: int)
    requires
        0 <= cursor < n,
        k >= 0,
    ensures
        0 <= (cursor + k) % n < n,
        (cursor + k) % n == cursor <==> k % n == 0,
        (turn_after(cursor, n) + k) % n == (cursor + k + 1) % n,
{
    lemma_fundamental_div_mod(k, n);
    lemma_mod_pos_bound(k, n);
    lemma_mod_pos_bound(cursor + k, n);
    let q = k / n;
    let r = k % n;
    assert(n * q == q * n) by (nonlinear_arith);
    if cursor + r < n {
        lemma_fundamental_div_mod_converse(cursor + k, n, q, cursor + r);
    } else {
        assert((q + 1) * n == q * n + n) by (nonlinear_arith);
        lemma_fundamental_div_mod_converse(cursor + k, n, q + 1, cursor + r - n);
    }
    if cursor + 1 >= n {
        lemma_mod_pos_bound(cursor + k + 1, n);
        let r1 = (cursor + k + 1) % n;
        let q1 = (cursor + k + 1) / n;
        lemma_fundamental_div_mod(cursor + k + 1, n);
        assert(n * q1 == q1 * n) by (nonlinear_arith);
        assert((q1 - 1) * n == q1 * n - n) by (nonlinear_arith);
        lemma_fundamental_div_mod_converse(k, n, q1 - 1, r1);
    }
}

/// The state of an interleaving: the sequences, in their order, and the
/// cursor that says whose turn it is.
pub struct Interleave<I: Sequence> {
    inner: Vec<I>,
    index: usize,
}

impl<I: Sequence> Interleave<I> {
    /// The sequences that take turns, in their order.
    pub closed spec fn rows(&self) -> Seq<I> {
        self.inner@
    }

    /// The index of the sequence that is pulled next.
    pub closed spec fn cursor(&self) -> int {
        self.index as int
    }

    /// What each of the sequences hands out before its next absence.
    pub open spec fn pending(&self) -> Seq<Seq<I::Item>> {
        self.rows().map_values(|row: I| remaining(row))
    }

    /// Starts a round-robin over `rows` with the first of them.
    pub fn new(rows: Vec<I>) -> (interleave: Interleave<I>)
        requires
            rows@.len() > 0,
        ensures
            interleave.rows() == rows@,
            interleave.cursor() == 0,
    {
        Interleave { inner: rows, index: 0 }
    }

    /// The number of sequences that take turns.
    pub fn width(&self) -> (count: usize)
        ensures
            count == self.rows().len(),
    {
        self.inner.len()
    }
}

impl<I: Sequence> Sequence for Interleave<I> {
    type Item = I::Item;

    open spec fn inv(&self) -> bool {
        &&& 0 <= self.cursor() < self.rows().len()
        &&& forall|i: int| 0 <= i < self.rows().len() ==> (#[trigger] self.rows()[i]).inv()
    }

    /// Pull number `k` is the turn of the sequence `k` places after the
    /// cursor, counted round the sequences, and is that sequence's pull
    /// number `k / n`, where `n` is the number of sequences.
    open spec fn at(&self, k: int) -> Option<I::Item> {
        self.rows()[(self.cursor() + k) % (self.rows().len() as int)].at(
            k / (self.rows().len() as int),
        )
    }

    open spec fn horizon(&self) -> nat {
        self.rows().len() * total_horizon(self.rows())
    }

    proof fn lemma_horizon(&self, k: int) {
        let n = self.rows().len() as int;
        let total = total_horizon(self.rows()) as int;
        lemma_turn(self.cursor(), k, n);
        let row = (self.cursor() + k) % n;
        lemma_total_horizon_bounds(self.rows(), row);
        assert(k / n >= total) by (nonlinear_arith)
            requires
                k >= n * total,
                n > 0,
                total >= 0,
        ;
        self.rows()[row].lemma_horizon(k / n);
    }

    /// Pulls the sequence at the cursor, moves the cursor on by one, wrapping
    /// at the end, and hands out what was pulled: an item, or the absence of
    /// one where that sequence has none to give. No sequence is skipped.
    fn next(&mut self) -> (item: Option<I::Item>)
        ensures
            item == old(self).rows()[old(self).cursor()].at(0),
            final(self).rows().len() == old(self).rows().len(),
            final(self).cursor() == turn_after(old(self).cursor(), old(self).rows().len() as int),
            forall|i: int|
                0 <= i < old(self).rows().len() && i != old(self).cursor()
                    ==> final(self).rows()[i] == old(self).rows()[i],
            forall|k: int|
                k >= 0 ==> #[trigger] final(self).rows()[old(self).cursor()].at(k)
                    == old(self).rows()[old(self).cursor()].at(k + 1),
    {
        let ghost rows = self.inner@;
        let ghost at = self.index as int;
        let count = self.inner.len();
        let result = self.inner[self.index].next();
        proof {
            if at + 1 < count {
                vstd::arithmetic::div_mod::lemma_small_mod((at + 1) as nat, count as nat);
            } else {
                vstd::arithmetic::div_mod::lemma_mod_self_0(count as int);
            }
        }
        self.index = (self.index + 1) % count;
        proof {
            let n = count as int;
            let pulled = self.inner@[at];
            assert(self.inner@ =~= rows.update(at, pulled));
            lemma_turn(at, 0, n);
            lemma_fundamental_div_mod_converse(0, n, 0, 0);
            assert forall|k: int| k >= 0 implies #[trigger] self.at(k) == old(self).at(k + 1) by {
                lemma_turn(at, k, n);
                lemma_turn(at, k + 1, n);
                lemma_next_turn(k, n);
                let row = (at + k + 1) % n;
                if row == at {
                    assert(pulled.at(k / n) == rows[at].at(k / n + 1));
                } else {
                    assert(self.inner@[row] == rows[row]);
                }
            }
        }
        result
    }
}

/// Rows of one length read column by column: item `k` is item `k / n` of row
/// `k % n`, where `n` is the number of rows.
pub open spec fn transposed<T>(rows: Seq<Seq<T>>, height: nat) -> Seq<T> {
    Seq::new(
        rows.len() * height,
        |k: int| rows[k % (rows.len() as int)][k / (rows.len() as int)],
    )
}

/// The columns of rows of one length: column `i` holds item `i` of every
/// row, in the order of the rows.
pub open spec fn columns<T>(rows: Seq<Seq<T>>, height: nat) -> Seq<Seq<T>> {
    Seq::new(height, |i: int| Seq::new(rows.len(), |m: int| rows[m][i]))
}

/// An interleaving that starts with the first of its sequences, all fused
/// and with the same number of items left, yields those items column by
/// column and then nothing more.
pub proof fn lemma_interleave_of_equal_rows<I: Sequence>(interleave: Interleave<I>, height: nat)
    requires
        interleave.inv(),
        interleave.cursor() == 0,
        forall|j: int|
            0 <= j < interleave.rows().len() ==> fused(#[trigger] interleave.rows()[j])
                && remaining(interleave.rows()[j]).len() == height,
    ensures
        remaining(interleave) == transposed(interleave.pending(), height),
        remaining(interleave).len() == interleave.rows().len() * height,
        fused(interleave),
{
    let rows = interleave.rows();
    let n = rows.len() as int;
    let h = height as int;
    let all = transposed(interleave.pending(), height);
    assert forall|k: int| 0 <= k implies (if k < n * h {
        interleave.at(k) == Some(all[k])
    } else {
        interleave.at(k) is None
    }) by {
        lemma_turn(0, k, n);
        lemma_next_turn(k, n);
        let row = k % n;
        assert(fused(rows[row]));
        lemma_remaining(rows[row]);
        if k < n * h {
            assert(k / n < h) by (nonlinear_arith)
                requires
                    0 <= k < n * h,
                    n > 0,
            ;
            assert(rows[row].at(k / n) == Some(remaining(rows[row])[k / n]));
        } else {
            assert(k / n >= h) by (nonlinear_arith)
                requires
                    k >= n * h,
                    n > 0,
                    h >= 0,
            ;
        }
    }
    assert(n * h >= 0) by (nonlinear_arith)
        requires
            n > 0,
            h >= 0,
    ;
    assert forall|i: int| 0 <= i < all.len() implies interleave.at(0 + i) == Some(
        #[trigger] all[i],
    ) by {}
    lemma_run_is(interleave, 0, all);
}

} // verus!
