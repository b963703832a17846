//! Pull-based sequences: the capability every combinator is written against.

use vstd::prelude::*;

verus! {

/// An ordered, pull-based source of values.
///
/// A sequence is described by what its pulls hand out from now on: `at(k)` is
/// the answer of pull number `k`, the next pull being number 0. An answer is
/// an item or the absence of one. An absence need not be final: a sequence may
/// hand out items again after it. From its `horizon` on, though, a sequence
/// hands out nothing any more.
pub trait Sequence: Sized {
    type Item;

    /// The representation invariant: what `next` needs in order to run.
    spec fn inv(&self) -> bool;

    /// What pull number `k` from now hands out.
    spec fn at(&self, k: int) -> Option<Self::Item>;

    /// A number of pulls from which on every answer is an absence.
    spec fn horizon(&self) -> nat;

    /// From the horizon on, every answer is an absence.
    proof fn lemma_horizon(&self, k: int)
        requires
            self.inv(),
            k >= self.horizon(),
        ensures
            self.at(k) is None,
    ;

    /// Pulls once: hands out answer number 0 and moves every later answer
    /// one pull closer.
    fn next(&mut self) -> (item: Option<Self::Item>)
        requires
            old(self).inv(),
        ensures
            final(self).inv(),
            item == old(self).at(0),
            forall|k: int| k >= 0 ==> #[trigger] final(self).at(k) == old(self).at(k + 1),
    ;
}

/// The items that the pulls from number `from` on hand out before the next
/// absence.
pub open spec fn run_from<S: Sequence>(sequence: S, from: int) -> Seq<S::Item>
    decreases sequence.horizon() - from,
{
    if from < 0 || from >= sequence.horizon() {
        Seq::empty()
    } else {
        match sequence.at(from) {
            Some(item) => seq![item] + run_from(sequence, from + 1),
            None => Seq::empty(),
        }
    }
}

/// The items that successive pulls hand out before the next absence.
pub open spec fn remaining<S: Sequence>(sequence: S) -> Seq<S::Item> {
    run_from(sequence, 0)
}

/// Whether the next absence is final: after the remaining items nothing is
/// handed out any more.
pub open spec fn fused<S: Sequence>(sequence: S) -> bool {
    forall|k: int| k >= remaining(sequence).len() ==> (#[trigger] sequence.at(k)) is None
}

/// The pulls of a run hand out its items, and the pull after them nothing.
pub proof fn lemma_run_from<S: Sequence>(sequence: S, from: int)
    requires
        sequence.inv(),
        from >= 0,
    ensures
        forall|i: int|
            0 <= i < run_from(sequence, from).len() ==> sequence.at(from + i) == Some(
                #[trigger] run_from(sequence, from)[i],
            ),
        sequence.at(from + run_from(sequence, from).len() as int) is None,
    decreases sequence.horizon() - from,
{
    if from >= sequence.horizon() {
        sequence.lemma_horizon(from);
    } else if sequence.at(from) is Some {
        lemma_run_from(sequence, from + 1);
        let run = run_from(sequence, from);
        let rest = run_from(sequence, from + 1);
        assert forall|i: int| 0 <= i < run.len() implies sequence.at(from + i) == Some(
            #[trigger] run[i],
        ) by {
            if i > 0 {
                assert(run[i] == rest[i - 1]);
            }
        }
    }
}

/// Items that the pulls from `from` on hand out, with an absence after them,
/// are the run from `from`.
pub proof fn lemma_run_is<S: Sequence>(sequence: S, from: int, items: Seq<S::Item>)
    requires
        sequence.inv(),
        from >= 0,
        forall|i: int| 0 <= i < items.len() ==> sequence.at(from + i) == Some(#[trigger] items[i]),
        sequence.at(from + items.len() as int) is None,
    ensures
        run_from(sequence, from) == items,
    decreases items.len(),
{
    if items.len() == 0 {
        assert(run_from(sequence, from) =~= items);
    } else {
        assert(sequence.at(from + 0) == Some(items[0]));
        if from >= sequence.horizon() {
            sequence.lemma_horizon(from);
        }
        let rest = items.drop_first();
        assert forall|i: int| 0 <= i < rest.len() implies sequence.at(from + 1 + i) == Some(
            #[trigger] rest[i],
        ) by {
            assert(sequence.at(from + (i + 1)) == Some(items[i + 1]));
        }
        lemma_run_is(sequence, from + 1, rest);
        assert(seq![items[0]] + rest =~= items);
    }
}

/// The remaining items are what the next pulls hand out, and the pull after
/// them hands out nothing.
pub proof fn lemma_remaining<S: Sequence>(sequence: S)
    requires
        sequence.inv(),
    ensures
        forall|i: int|
            0 <= i < remaining(sequence).len() ==> sequence.at(i) == Some(
                #[trigger] remaining(sequence)[i],
            ),
        sequence.at(remaining(sequence).len() as int) is None,
{
    lemma_run_from(sequence, 0);
}

/// What a pull does to the remaining items: where it hands out an item, that
/// item was the first of them and the others remain; where it hands out
/// nothing, there were none. A fused sequence stays fused.
pub proof fn lemma_pulled<S: Sequence>(before: S, after: S)
    requires
        before.inv(),
        after.inv(),
        forall|k: int| k >= 0 ==> #[trigger] after.at(k) == before.at(k + 1),
    ensures
        before.at(0) is None <==> remaining(before).len() == 0,
        before.at(0) matches Some(item) ==> remaining(before) == seq![item] + remaining(after)
            && remaining(after) == remaining(before).drop_first()
            && fused(after) == fused(before),
        fused(before) ==> fused(after) && (before.at(0) is None ==> remaining(after).len() == 0),
{
    lemma_remaining(before);
    lemma_remaining(after);
    let rest = remaining(after);
    match before.at(0) {
        Some(item) => {
            let all = seq![item] + rest;
            assert forall|i: int| 0 <= i < all.len() implies before.at(0 + i) == Some(
                #[trigger] all[i],
            ) by {
                if i > 0 {
                    assert(after.at(i - 1) == before.at(i));
                    assert(all[i] == rest[i - 1]);
                }
            }
            assert(before.at(0 + all.len() as int) is None) by {
                assert(after.at(rest.len() as int) == before.at(rest.len() as int + 1));
            }
            lemma_run_is(before, 0, all);
            assert(all.drop_first() =~= rest);
            if fused(before) {
                assert forall|k: int| k >= rest.len() implies (#[trigger] after.at(k)) is None by {
                    assert(before.at(k + 1) is None);
                }
            }
            if fused(after) {
                assert forall|k: int| k >= all.len() implies (#[trigger] before.at(k)) is None by {
                    assert(after.at(k - 1) is None);
                }
            }
        },
        None => {
            if remaining(before).len() > 0 {
                assert(before.at(0) == Some(remaining(before)[0]));
            }
            if fused(before) {
                assert forall|k: int| k >= 0 implies (#[trigger] after.at(k)) is None by {
                    assert(before.at(k + 1) is None);
                }
                if rest.len() > 0 {
                    assert(after.at(0) == Some(rest[0]));
                }
            }
        },
    }
}

/// The number of pulls up to and including the last of the first `pulls`
/// pulls that hands out an item; 0 where none of them does.
pub open spec fn extent_within<S: Sequence>(sequence: S, pulls: nat) -> nat
    decreases pulls,
{
    if pulls == 0 {
        0
    } else if sequence.at(pulls - 1) is Some {
        pulls
    } else {
        extent_within(sequence, (pulls - 1) as nat)
    }
}

/// The number of pulls after which a sequence hands out nothing any more:
/// the number of pulls up to and including the last that hands out an item.
pub open spec fn extent<S: Sequence>(sequence: S) -> nat {
    extent_within(sequence, sequence.horizon())
}

/// The extent within some pulls ends with an item, and the pulls after it
/// hand out nothing.
pub proof fn lemma_extent_within<S: Sequence>(sequence: S, pulls: nat)
    ensures
        extent_within(sequence, pulls) <= pulls,
        extent_within(sequence, pulls) > 0 ==> sequence.at(
            extent_within(sequence, pulls) - 1,
        ) is Some,
        forall|j: int|
            extent_within(sequence, pulls) <= j < pulls ==> (#[trigger] sequence.at(j)) is None,
    decreases pulls,
{
    if pulls > 0 && sequence.at(pulls - 1) is None {
        lemma_extent_within(sequence, (pulls - 1) as nat);
    }
}

/// A pull shortens the extent by one; a sequence that hands out an item has
/// an extent.
pub proof fn lemma_extent_pulled<S: Sequence>(before: S, after: S)
    requires
        before.inv(),
        after.inv(),
        forall|k: int| k >= 0 ==> #[trigger] after.at(k) == before.at(k + 1),
    ensures
        extent(after) <= extent(before),
        before.at(0) is Some ==> extent(after) < extent(before),
{
    lemma_extent_within(before, before.horizon());
    lemma_extent_within(after, after.horizon());
    let long = extent(before) as int;
    let short = extent(after) as int;
    assert forall|j: int| j >= long implies (#[trigger] before.at(j)) is None by {
        if j >= before.horizon() {
            before.lemma_horizon(j);
        }
    }
    if short > 0 {
        assert(after.at(short - 1) == before.at(short - 1 + 1));
        assert(before.at(short) is Some);
    }
}

/// The answer number `k` of a script of answers: the absence of an item
/// where the script has ended.
pub open spec fn answer<T>(script: Seq<Option<T>>, k: int) -> Option<T> {
    if 0 <= k < script.len() {
        script[k]
    } else {
        None
    }
}

/// The script that hands out `items` one by one.
pub open spec fn present<T>(items: Seq<T>) -> Seq<Option<T>> {
    items.map_values(|item: T| Some(item))
}

/// Reads `sequence` up to and including its next absence and hands out the
/// items read, in their order.
pub fn collect<S: Sequence>(sequence: &mut S) -> (items: Vec<S::Item>)
    requires
        old(sequence).inv(),
    ensures
        final(sequence).inv(),
        items@ == remaining(*old(sequence)),
        forall|k: int|
            k >= 0 ==> #[trigger] final(sequence).at(k) == old(sequence).at(
                k + items@.len() as int + 1,
            ),
{
    let ghost all = remaining(*sequence);
    let mut items: Vec<S::Item> = Vec::new();
    proof {
        lemma_remaining(*sequence);
    }
    loop
        invariant_except_break
            forall|k: int|
                k >= 0 ==> #[trigger] sequence.at(k) == old(sequence).at(k + items@.len() as int),
        invariant
            sequence.inv(),
            all == remaining(*old(sequence)),
            forall|i: int| 0 <= i < all.len() ==> old(sequence).at(i) == Some(#[trigger] all[i]),
            old(sequence).at(all.len() as int) is None,
            items@.len() <= all.len(),
            items@ == all.take(items@.len() as int),
        ensures
            items@ == all,
            forall|k: int|
                k >= 0 ==> #[trigger] sequence.at(k) == old(sequence).at(k + items@.len() as int + 1),
        decreases all.len() - items@.len(),
    {
        let ghost n = items@.len() as int;
        let ghost before = *sequence;
        assert(before.at(0) == old(sequence).at(0 + n));
        match sequence.next() {
            Some(item) => {
                items.push(item);
                proof {
                    assert(n < all.len());
                    assert(item == all[n]);
                    assert(items@ =~= all.take(n + 1));
                    assert forall|k: int| k >= 0 implies #[trigger] sequence.at(k) == old(
                        sequence,
                    ).at(k + (n + 1)) by {
                        assert(before.at(k + 1) == old(sequence).at(k + 1 + n));
                    }
                }
            },
            None => {
                proof {
                    if n < all.len() {
                        assert(old(sequence).at(n) == Some(all[n]));
                    }
                    assert(all.take(n) =~= all);
                    assert forall|k: int| k >= 0 implies #[trigger] sequence.at(k) == old(
                        sequence,
                    ).at(k + n + 1) by {
                        assert(before.at(k + 1) == old(sequence).at(k + 1 + n));
                    }
                }
                break ;
            },
        }
    }
    items
}

/// A finite run of items held in memory, in the order in which they leave.
///
/// A buffer is a plain value of its items: two buffers that hold the same
/// items are the same buffer, and `of` names the buffer that holds given
/// items. That is what lets a chunking say which buffer a pull hands out. A
/// vector could not stand here: the vector that holds given items cannot be
/// named, and two vectors with the same items are not known to be the same.
pub enum Buffered<T> {
    Empty,
    Item(T, Box<Buffered<T>>),
}

impl<T> Buffered<T> {
    /// The items held, first to last.
    pub open spec fn items(self) -> Seq<T>
        decreases self,
    {
        match self {
            Buffered::Empty => Seq::empty(),
            Buffered::Item(head, rest) => seq![head] + rest.items(),
        }
    }

    /// The buffer that holds exactly `items`.
    pub open spec fn of(items: Seq<T>) -> Buffered<T>
        decreases items.len(),
    {
        if items.len() == 0 {
            Buffered::Empty
        } else {
            Buffered::Item(items.first(), Box::new(Buffered::of(items.drop_first())))
        }
    }

    /// `of` holds what it was given.
    pub proof fn lemma_items_of(items: Seq<T>)
        ensures
            Buffered::of(items).items() == items,
        decreases items.len(),
    {
        if items.len() > 0 {
            Self::lemma_items_of(items.drop_first());
            assert(seq![items.first()] + items.drop_first() =~= items);
        }
    }

    /// A buffer yields the items it holds and then nothing more.
    pub proof fn lemma_remaining_items(self)
        ensures
            remaining(self) == self.items(),
            fused(self),
    {
        lemma_run_is(self, 0, self.items());
    }

    /// Moves the items of a vector into a buffer, keeping their order.
    pub fn from_vec(items: Vec<T>) -> (buffer: Buffered<T>)
        ensures
            buffer == Buffered::of(items@),
            buffer.items() == items@,
    {
        let mut items = items;
        let ghost all = items@;
        let mut buffer = Buffered::Empty;
        while items.len() > 0
            invariant
                items@.len() <= all.len(),
                items@ == all.take(items@.len() as int),
                buffer == Buffered::of(all.skip(items@.len() as int)),
            decreases items.len(),
        {
            let last = items.pop().unwrap();
            proof {
                let k = items@.len() as int;
                assert(all.skip(k).drop_first() =~= all.skip(k + 1));
                assert(all.skip(k).first() == last);
                assert(items@ =~= all.take(k));
            }
            buffer = Buffered::Item(last, Box::new(buffer));
        }
        proof {
            assert(all.skip(0) =~= all);
            Self::lemma_items_of(all);
        }
        buffer
    }
}

impl<T> Sequence for Buffered<T> {
    type Item = T;

    open spec fn inv(&self) -> bool {
        true
    }

    open spec fn at(&self, k: int) -> Option<T> {
        if 0 <= k < self.items().len() {
            Some(self.items()[k])
        } else {
            None
        }
    }

    open spec fn horizon(&self) -> nat {
        self.items().len()
    }

    proof fn lemma_horizon(&self, k: int) {
    }

    /// Hands out the first of the items held, and keeps the others.
    fn next(&mut self) -> (item: Option<T>)
        ensures
            final(self).items() == (if old(self).items().len() > 0 {
                old(self).items().drop_first()
            } else {
                old(self).items()
            }),
    {
        let mut taken = Buffered::Empty;
        core::mem::swap(self, &mut taken);
        match taken {
            Buffered::Empty => None,
            Buffered::Item(head, rest) => {
                *self = *rest;
                proof {
                    assert(old(self).items().drop_first() =~= rest.items());
                }
                Some(head)
            },
        }
    }
}

} // verus!
