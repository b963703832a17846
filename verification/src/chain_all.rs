//! Flattening: a sequence of sequences read as one sequence.

use vstd::prelude::*;
use crate::sequence::answer;
use crate::sequence::extent;
use crate::sequence::fused;
use crate::sequence::lemma_extent_pulled;
use crate::sequence::lemma_pulled;
use crate::sequence::lemma_remaining;
use crate::sequence::lemma_run_is;
use crate::sequence::present;
use crate::sequence::remaining;
use crate::sequence::Sequence;

verus! {

/// What the sequences in `rows` yield when each is read to its next absence,
/// one after the other.
pub open spec fn chained<S: Sequence>(rows: Seq<S>) -> Seq<S::Item> {
    rows.map_values(|row: S| remaining(row)).flatten()
}

/// What a sequence that may not have been started yet has left.
pub open spec fn started<S: Sequence>(current: Option<S>) -> Seq<S::Item> {
    match current {
        Some(row) => remaining(row),
        None => Seq::empty(),
    }
}

/// What an answer of the outer sequence adds to the chain: the items of the
/// sequence it hands out, up to that sequence's next absence, or a single
/// absence where it hands out none.
pub open spec fn entry<S: Sequence>(row: Option<S>) -> Seq<Option<S::Item>> {
    match row {
        Some(row) => present(remaining(row)),
        None => seq![None],
    }
}

/// What the answers of the outer sequence from number `from` on add to the
/// chain, one after the other.
pub open spec fn upcoming<O: Sequence>(outer: O, from: int) -> Seq<
    Option<<O::Item as Sequence>::Item>,
> where O::Item: Sequence
    decreases outer.horizon() - from,
{
    if from < 0 || from >= outer.horizon() {
        Seq::empty()
    } else {
        entry(outer.at(from)) + upcoming(outer, from + 1)
    }
}

/// Whether a sequence is being read that has an item to give at once.
pub open spec fn has_item<S: Sequence>(current: Option<S>) -> bool {
    match current {
        Some(row) => row.at(0) is Some,
        None => false,
    }
}

/// Whether `after` is the sequence `before` one pull on.
pub open spec fn one_pull_on<S: Sequence>(after: Option<S>, before: S) -> bool {
    match after {
        Some(rest) => forall|k: int| k >= 0 ==> #[trigger] rest.at(k) == before.at(k + 1),
        None => false,
    }
}

/// The number of the first answer of the outer sequence, from number `from`
/// on, that a chain stops at: an absence, or a sequence that has an item to
/// give. Sequences that give nothing are passed over.
pub open spec fn first_giving<O: Sequence>(outer: O, from: int) -> int where O::Item: Sequence
    decreases outer.horizon() - from,
{
    if from < 0 || from >= outer.horizon() {
        from
    } else {
        match outer.at(from) {
            Some(row) => if row.at(0) is None {
                first_giving(outer, from + 1)
            } else {
                from
            },
            None => from,
        }
    }
}

/// A chain passes over no more sequences than the outer sequence hands out
/// before its next absence: it stops there at the latest.
pub proof fn lemma_first_giving_bound<O: Sequence>(outer: O, from: int) where O::Item: Sequence
    requires
        outer.inv(),
        0 <= from <= remaining(outer).len(),
    ensures
        from <= first_giving(outer, from) <= remaining(outer).len(),
    decreases remaining(outer).len() - from,
{
    lemma_remaining(outer);
    if from < remaining(outer).len() {
        assert(outer.at(from) == Some(remaining(outer)[from]));
        lemma_first_giving_bound(outer, from + 1);
    }
}

/// The first of `rows` comes first in what they yield together.
pub proof fn lemma_chained_first<S: Sequence>(rows: Seq<S>)
    requires
        rows.len() > 0,
    ensures
        chained(rows) == remaining(rows.first()) + chained(rows.drop_first()),
{
    let each = rows.map_values(|row: S| remaining(row));
    assert(each.drop_first() =~= rows.drop_first().map_values(|row: S| remaining(row)));
}

/// The last of `rows` comes last in what they yield together.
pub proof fn lemma_chained_last<S: Sequence>(rows: Seq<S>)
    requires
        rows.len() > 0,
    ensures
        chained(rows) == chained(rows.drop_last()) + remaining(rows.last()),
{
    let each = rows.map_values(|row: S| remaining(row));
    let before = rows.drop_last().map_values(|row: S| remaining(row));
    assert(each =~= before.push(remaining(rows.last())));
    before.lemma_flatten_push(remaining(rows.last()));
}

/// Where the outer sequence hands out nothing any more, nothing is added to
/// the chain but absences.
pub proof fn lemma_upcoming_absent<O: Sequence>(outer: O, from: int, k: int) where
    O::Item: Sequence,

    requires
        from >= 0,
        forall|j: int| j >= from ==> (#[trigger] outer.at(j)) is None,
    ensures
        answer(upcoming(outer, from), k) is None,
    decreases outer.horizon() - from,
{
    if from < outer.horizon() {
        assert(outer.at(from) is None);
        lemma_upcoming_absent(outer, from + 1, k - 1);
    }
}

/// An outer sequence that hands out what another does `shift` pulls later
/// adds to the chain what the other adds `shift` pulls later.
pub proof fn lemma_upcoming_shifted<O: Sequence>(ahead: O, outer: O, shift: int, from: int, k: int) where
    O::Item: Sequence,

    requires
        ahead.inv(),
        outer.inv(),
        from >= 0,
        shift >= 0,
        forall|j: int| j >= 0 ==> #[trigger] ahead.at(j) == outer.at(j + shift),
    ensures
        answer(upcoming(ahead, from), k) == answer(upcoming(outer, from + shift), k),
    decreases
            (if from < ahead.horizon() {
                ahead.horizon() - from
            } else {
                0
            }) + (if from + shift < outer.horizon() {
                outer.horizon() - from - shift
            } else {
                0
            }),
{
    if from >= ahead.horizon() {
        assert forall|j: int| j >= from + shift implies (#[trigger] outer.at(j)) is None by {
            ahead.lemma_horizon(j - shift);
            assert(ahead.at(j - shift) == outer.at(j - shift + shift));
        }
        lemma_upcoming_absent(outer, from + shift, k);
    } else if from + shift >= outer.horizon() {
        assert forall|j: int| j >= from implies (#[trigger] ahead.at(j)) is None by {
            outer.lemma_horizon(j + shift);
        }
        lemma_upcoming_absent(ahead, from, k);
    } else {
        assert(ahead.at(from) == outer.at(from + shift));
        let first = entry(ahead.at(from));
        lemma_upcoming_shifted(ahead, outer, shift, from + 1, k - first.len());
    }
}

/// The state of a flattening: the sequence of sequences, and the sequence
/// that is being read, if one is.
pub struct ChainAll<I: Sequence> where I::Item: Sequence {
    current: Option<I::Item>,
    all: I,
}

impl<I: Sequence> ChainAll<I> where I::Item: Sequence {
    /// The sequence being read; `None` before the first pull and after the
    /// outer sequence has handed out nothing.
    pub closed spec fn current(&self) -> Option<I::Item> {
        self.current
    }

    /// The outer sequence, which hands out the sequences still to be read.
    pub closed spec fn outer(&self) -> I {
        self.all
    }

    /// The answers of the chain from now on: the items left of the sequence
    /// being read, and then what the answers of the outer sequence add.
    pub open spec fn script(&self) -> Seq<Option<<I::Item as Sequence>::Item>> {
        present(started(self.current())) + upcoming(self.outer(), 0)
    }

    /// Wraps `all`; nothing is pulled until the first item is asked for.
    pub fn new(all: I) -> (chain: ChainAll<I>)
        ensures
            chain.current() is None,
            chain.outer() == all,
    {
        ChainAll { current: None, all }
    }
}

impl<I: Sequence> Sequence for ChainAll<I> where I::Item: Sequence {
    type Item = <I::Item as Sequence>::Item;

    /// The outer sequence, every sequence it hands out and the sequence
    /// being read can be pulled.
    open spec fn inv(&self) -> bool {
        &&& self.outer().inv()
        &&& forall|j: int|
            j >= 0 ==> ((#[trigger] self.outer().at(j)) matches Some(row) ==> row.inv())
        &&& self.current() matches Some(row) ==> row.inv()
    }

    open spec fn at(&self, k: int) -> Option<Self::Item> {
        answer(self.script(), k)
    }

    open spec fn horizon(&self) -> nat {
        self.script().len()
    }

    proof fn lemma_horizon(&self, k: int) {
    }

    /// Pulls the sequence being read. Where it hands out an item, the outer
    /// sequence is left as it is. Where it hands out nothing, or none has
    /// been started, the outer sequence is advanced, again and again past
    /// sequences that hand out nothing, until one hands out an item or the
    /// outer sequence itself hands out nothing: by one pull more than there are
    /// sequences passed over. The sequence that gave the item is read on at
    /// the next pull.
    fn next(&mut self) -> (item: Option<Self::Item>)
        ensures
            has_item(old(self).current()) ==> {
                &&& final(self).outer() == old(self).outer()
                &&& one_pull_on(final(self).current(), old(self).current()->0)
            },
            !has_item(old(self).current()) ==> {
                &&& forall|j: int|
                    j >= 0 ==> #[trigger] final(self).outer().at(j) == old(self).outer().at(
                        j + first_giving(old(self).outer(), 0) + 1,
                    )
                &&& match old(self).outer().at(first_giving(old(self).outer(), 0)) {
                    Some(row) => item == row.at(0) && one_pull_on(final(self).current(), row),
                    None => item is None && final(self).current() is None,
                }
            },
    {
        let ghost whole = self.script();
        let ghost mut pulled: int = 0;
        let mut bump = self.current.is_none();
        loop
            invariant
                old(self).all.inv(),
                pulled >= 0,
                forall|j: int| j >= 0 ==> #[trigger] self.all.at(j) == old(self).all.at(j + pulled),
                bump ==> first_giving(old(self).all, 0) == first_giving(old(self).all, pulled)
                    && !has_item(old(self).current),
                !bump ==> pulled == 0 && self.current == old(self).current && self.all == old(
                    self,
                ).all,
                self.all.inv(),
                forall|j: int|
                    j >= 0 ==> ((#[trigger] self.all.at(j)) matches Some(row) ==> row.inv()),
                whole == old(self).script(),
                bump ==> forall|k: int|
                    answer(whole, k) == #[trigger] answer(upcoming(self.all, 0), k),
                !bump ==> self.current is Some && self.current->0.inv() && whole == present(
                    started(self.current),
                ) + upcoming(self.all, 0),
            decreases extent(self.all), (if bump { 0int } else { 1int }),
        {
            let ghost rest = upcoming(self.all, 0);
            if bump {
                let ghost before = self.all;
                self.current = self.all.next();
                proof {
                    lemma_extent_pulled(before, self.all);
                    let ahead = upcoming(self.all, 0);
                    let behind = upcoming(before, 1);
                    assert forall|k: int| answer(ahead, k) == answer(behind, k) by {
                        lemma_upcoming_shifted(self.all, before, 1, 0, k);
                    }
                    assert forall|j: int| j >= 0 implies ((#[trigger] self.all.at(j)) matches Some(
                        row,
                    ) ==> row.inv()) by {
                        assert(self.all.at(j) == before.at(j + 1));
                    }
                    if before.horizon() == 0 {
                        before.lemma_horizon(0);
                    }
                    let first = entry(before.at(0));
                    assert forall|k: int| k >= 0 implies answer(whole, k) == answer(
                        first + ahead,
                        k,
                    ) by {
                        assert(answer(whole, k) == answer(upcoming(before, 0), k));
                        assert(answer(ahead, k - first.len()) == answer(behind, k - first.len()));
                    }
                    assert(before.at(0) == old(self).all.at(0 + pulled));
                    assert forall|j: int| j >= 0 implies #[trigger] self.all.at(j) == old(
                        self,
                    ).all.at(j + (pulled + 1)) by {
                        assert(before.at(j + 1) == old(self).all.at(j + 1 + pulled));
                    }
                    if pulled >= old(self).all.horizon() {
                        old(self).all.lemma_horizon(pulled);
                    }
                    pulled = pulled + 1;
                }
            }
            assert(bump ==> self.current == old(self).all.at(pulled - 1));
            match &mut self.current {
                Some(current) => {
                    let ghost row = *current;
                    let ghost after = upcoming(self.all, 0);
                    assert(forall|k: int|
                        k >= 0 ==> answer(whole, k) == answer(present(remaining(row)) + after, k));
                    if let Some(result) = current.next() {
                        proof {
                            lemma_pulled(row, *current);
                            let head = present(remaining(row));
                            let tail = present(remaining(*current));
                            assert(head =~= seq![Some(result)] + tail);
                            assert forall|k: int| k >= 0 implies answer(tail + after, k)
                                == answer(whole, k + 1) by {
                                assert(answer(whole, k + 1) == answer(head + after, k + 1));
                            }
                            assert(answer(whole, 0) == answer(head + after, 0));
                        }
                        return Some(result);
                    } else {
                        proof {
                            lemma_pulled(row, *current);
                            assert(present(remaining(row)) + after =~= after);
                        }
                        bump = true;
                    }
                },
                None => {
                    proof {
                        let after = upcoming(self.all, 0);
                        assert(present(started(self.current)) + after =~= after);
                        assert forall|k: int| k >= 0 implies answer(after, k) == answer(
                            whole,
                            k + 1,
                        ) by {
                            assert(answer(whole, k + 1) == answer(seq![None] + after, k + 1));
                        }
                        assert(answer(whole, 0) == answer(seq![None] + after, 0));
                    }
                    return None;
                },
            }
        }
    }
}

/// The answers that a fused outer sequence adds to the chain from number
/// `from` on are the items of the sequences it has left from that number
/// on, and then absences.
proof fn lemma_upcoming_of_fused<O: Sequence>(outer: O, from: int, k: int) where O::Item: Sequence
    requires
        outer.inv(),
        fused(outer),
        0 <= from <= remaining(outer).len(),
    ensures
        answer(upcoming(outer, from), k) == answer(
            present(chained(remaining(outer).skip(from))),
            k,
        ),
    decreases remaining(outer).len() - from,
{
    let rows = remaining(outer);
    lemma_remaining(outer);
    if from == rows.len() {
        lemma_upcoming_absent(outer, from, k);
        assert(chained(rows.skip(from)) =~= Seq::<<O::Item as Sequence>::Item>::empty());
    } else {
        assert(outer.at(from) == Some(rows[from]));
        if from >= outer.horizon() {
            outer.lemma_horizon(from);
        }
        let first = remaining(rows[from]);
        lemma_chained_first(rows.skip(from));
        assert(rows.skip(from).drop_first() =~= rows.skip(from + 1));
        let rest = chained(rows.skip(from + 1));
        assert(present(first + rest) =~= present(first) + present(rest));
        lemma_upcoming_of_fused(outer, from + 1, k - first.len());
    }
}

/// A chain over a fused outer sequence yields what is left of the sequence
/// being read and then the items of the sequences that the outer sequence
/// has left, and then nothing more.
pub proof fn lemma_chain_remaining<I: Sequence>(chain: ChainAll<I>) where I::Item: Sequence
    requires
        chain.inv(),
        fused(chain.outer()),
    ensures
        remaining(chain) == started(chain.current()) + chained(remaining(chain.outer())),
        fused(chain),
{
    let rows = remaining(chain.outer());
    let all = started(chain.current()) + chained(rows);
    assert(rows.skip(0) =~= rows);
    assert forall|k: int| k >= 0 implies chain.at(k) == answer(present(all), k) by {
        lemma_upcoming_of_fused(chain.outer(), 0, k - started(chain.current()).len());
    }
    assert forall|i: int| 0 <= i < all.len() implies chain.at(0 + i) == Some(#[trigger] all[i]) by {
        assert(chain.at(i) == answer(present(all), i));
    }
    assert(chain.at(0 + all.len() as int) is None) by {
        assert(chain.at(all.len() as int) == answer(present(all), all.len() as int));
    }
    lemma_run_is(chain, 0, all);
    assert forall|k: int| k >= all.len() implies (#[trigger] chain.at(k)) is None by {
        assert(chain.at(k) == answer(present(all), k));
    }
}

/// Sequences that are empty add nothing to a chain: the chain yields an
/// item exactly when one of the sequences has one.
pub proof fn lemma_chained_skips_empty<S: Sequence>(rows: Seq<S>)
    ensures
        chained(rows).len() == 0 <==> forall|i: int|
            0 <= i < rows.len() ==> remaining(#[trigger] rows[i]).len() == 0,
        chained(rows) == chained(rows.filter(|row: S| remaining(row).len() > 0)),
    decreases rows.len(),
{
    let keep = |row: S| remaining(row).len() > 0;
    reveal(Seq::filter);
    if rows.len() == 0 {
        assert(chained(rows) =~= Seq::<S::Item>::empty());
    } else {
        let before = rows.drop_last();
        lemma_chained_last(rows);
        lemma_chained_skips_empty(before);
        if keep(rows.last()) {
            let kept = before.filter(keep).push(rows.last());
            lemma_chained_last(kept);
            assert(kept.drop_last() =~= before.filter(keep));
            assert(rows.last() == rows[rows.len() - 1]);
        } else {
            assert(chained(before) + remaining(rows.last()) =~= chained(before));
            assert forall|i: int| 0 <= i < rows.len() && chained(rows).len() == 0 implies remaining(
                #[trigger] rows[i],
            ).len() == 0 by {
                if i < rows.len() - 1 {
                    assert(rows[i] == before[i]);
                }
            }
        }
        if forall|i: int| 0 <= i < rows.len() ==> remaining(#[trigger] rows[i]).len() == 0 {
            assert forall|i: int| 0 <= i < before.len() implies remaining(#[trigger] before[i]).len()
                == 0 by {
                assert(before[i] == rows[i]);
            }
        }
    }
}

/// Changing every item of rows laid end to end is changing every item of
/// every row and then laying the rows end to end.
pub proof fn lemma_flatten_map<T, U>(rows: Seq<Seq<T>>, change: spec_fn(T) -> U)
    ensures
        rows.flatten().map_values(change) == rows.map_values(
            |row: Seq<T>| row.map_values(change),
        ).flatten(),
    decreases rows.len(),
{
    let each = |row: Seq<T>| row.map_values(change);
    if rows.len() == 0 {
        assert(rows.flatten().map_values(change) =~= rows.map_values(each).flatten());
    } else {
        let before = rows.drop_last();
        lemma_flatten_map(before, change);
        before.lemma_flatten_push(rows.last());
        assert(rows =~= before.push(rows.last()));
        assert(rows.map_values(each) =~= before.map_values(each).push(each(rows.last())));
        before.map_values(each).lemma_flatten_push(each(rows.last()));
        assert((before.flatten() + rows.last()).map_values(change) =~= before.flatten().map_values(
            change,
        ) + rows.last().map_values(change));
    }
}

} // verus!
