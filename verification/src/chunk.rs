//! Chunking: a sequence cut into buffered runs of a fixed size.

use vstd::prelude::*;
use crate::chain_all::chained;
use crate::interleave::columns;
use crate::interleave::lemma_interleave_of_equal_rows;
use crate::interleave::transposed;
use crate::interleave::Interleave;
use crate::sequence::fused;
use crate::sequence::lemma_remaining;
use crate::sequence::lemma_run_is;
use crate::sequence::remaining;
use crate::sequence::Buffered;
use crate::sequence::Sequence;

verus! {

/// `items` cut into consecutive runs of `size` items; the last run holds what
/// is left and may be shorter. Nothing is cut from an empty sequence, and a
/// size of zero cuts nothing.
pub open spec fn chunked<T>(items: Seq<T>, size: nat) -> Seq<Seq<T>>
    decreases items.len(),
{
    if items.len() == 0 || size == 0 {
        Seq::empty()
    } else if items.len() <= size {
        seq![items]
    } else {
        seq![items.take(size as int)] + chunked(items.skip(size as int), size)
    }
}

/// The items that the pulls of `source` from number `from` on hand out
/// before an absence, `limit` of them at most.
pub open spec fn lead<S: Sequence>(source: S, from: int, limit: nat) -> Seq<S::Item>
    decreases limit,
{
    if limit == 0 {
        Seq::empty()
    } else {
        match source.at(from) {
            Some(item) => seq![item] + lead(source, from + 1, (limit - 1) as nat),
            None => Seq::empty(),
        }
    }
}

/// The number of pulls that draining a chunk from pull number `from` on
/// takes: one for each item, and one more for the absence that cut the chunk
/// short, where one did.
pub open spec fn pulls_used<S: Sequence>(source: S, from: int, size: nat) -> int {
    if lead(source, from, size).len() < size {
        lead(source, from, size).len() as int + 1
    } else {
        lead(source, from, size).len() as int
    }
}

/// The pull of `source` with which chunk number `k` starts, where chunk
/// number 0 starts with pull number `base`.
pub open spec fn chunk_start<S: Sequence>(source: S, size: nat, base: int, k: nat) -> int
    decreases k,
{
    if k == 0 {
        base
    } else {
        chunk_start(source, size, base + pulls_used(source, base, size), (k - 1) as nat)
    }
}

/// The state of a chunking: the sequence that is drained and the chunk size.
pub struct Chunk<I: Sequence> {
    inner: I,
    size: usize,
}

impl<I: Sequence> Chunk<I> {
    /// The sequence that the chunks are drained from.
    pub closed spec fn source(&self) -> I {
        self.inner
    }

    /// The number of items that a full chunk holds.
    pub closed spec fn size(&self) -> nat {
        self.size as nat
    }

    /// The items of chunk number `k` from now; none where that pull of the
    /// chunking hands out nothing.
    pub open spec fn run(&self, k: int) -> Seq<I::Item> {
        lead(self.source(), chunk_start(self.source(), self.size(), 0, k as nat), self.size())
    }

    /// Wraps `inner`; nothing is pulled until the first chunk is asked for.
    pub fn new(inner: I, size: usize) -> (chunk: Chunk<I>)
        ensures
            chunk.source() == inner,
            chunk.size() == size,
    {
        Chunk { inner, size }
    }
}

/// Items that the pulls from `from` on hand out, `limit` of them or fewer
/// with an absence after them, are the lead from `from`.
pub proof fn lemma_lead_is<S: Sequence>(source: S, from: int, limit: nat, items: Seq<S::Item>)
    requires
        items.len() <= limit,
        forall|i: int| 0 <= i < items.len() ==> source.at(from + i) == Some(#[trigger] items[i]),
        items.len() < limit ==> source.at(from + items.len() as int) is None,
    ensures
        lead(source, from, limit) == items,
    decreases limit,
{
    if limit == 0 || items.len() == 0 {
        assert(lead(source, from, limit) =~= items);
    } else {
        assert(source.at(from + 0) == Some(items[0]));
        let rest = items.drop_first();
        assert forall|i: int| 0 <= i < rest.len() implies source.at(from + 1 + i) == Some(
            #[trigger] rest[i],
        ) by {
            assert(source.at(from + (i + 1)) == Some(items[i + 1]));
        }
        lemma_lead_is(source, from + 1, (limit - 1) as nat, rest);
        assert(seq![items[0]] + rest =~= items);
    }
}

/// A lead holds no more items than its limit, and they are what the pulls
/// hand out.
pub proof fn lemma_lead<S: Sequence>(source: S, from: int, limit: nat)
    ensures
        lead(source, from, limit).len() <= limit,
        forall|i: int|
            0 <= i < lead(source, from, limit).len() ==> source.at(from + i) == Some(
                #[trigger] lead(source, from, limit)[i],
            ),
        lead(source, from, limit).len() < limit ==> source.at(
            from + lead(source, from, limit).len() as int,
        ) is None,
    decreases limit,
{
    if limit > 0 && source.at(from) is Some {
        lemma_lead(source, from + 1, (limit - 1) as nat);
        let all = lead(source, from, limit);
        let rest = lead(source, from + 1, (limit - 1) as nat);
        assert forall|i: int| 0 <= i < all.len() implies source.at(from + i) == Some(
            #[trigger] all[i],
        ) by {
            if i > 0 {
                assert(all[i] == rest[i - 1]);
            }
        }
    }
}

/// A sequence that hands out what another does `shift` pulls later has the
/// leads of the other, `shift` pulls later.
pub proof fn lemma_lead_shifted<S: Sequence>(ahead: S, source: S, shift: int, from: int, limit: nat)
    requires
        from >= 0,
        forall|k: int| k >= 0 ==> #[trigger] ahead.at(k) == source.at(k + shift),
    ensures
        lead(ahead, from, limit) == lead(source, from + shift, limit),
    decreases limit,
{
    if limit > 0 {
        assert(ahead.at(from) == source.at(from + shift));
        lemma_lead_shifted(ahead, source, shift, from + 1, (limit - 1) as nat);
    }
}

/// A sequence that hands out what another does `shift` pulls later has the
/// chunks of the other, `shift` pulls later.
pub proof fn lemma_chunk_start_shifted<S: Sequence>(
    ahead: S,
    source: S,
    shift: int,
    size: nat,
    base: int,
    k: nat,
)
    requires
        base >= 0,
        forall|i: int| i >= 0 ==> #[trigger] ahead.at(i) == source.at(i + shift),
    ensures
        chunk_start(ahead, size, base, k) + shift == chunk_start(source, size, base + shift, k),
        chunk_start(ahead, size, base, k) >= base,
    decreases k,
{
    if k > 0 {
        lemma_lead_shifted(ahead, source, shift, base, size);
        lemma_chunk_start_shifted(
            ahead,
            source,
            shift,
            size,
            base + pulls_used(ahead, base, size),
            (k - 1) as nat,
        );
    }
}

/// Every chunk takes a pull at least: chunk number `k` starts `k` pulls
/// after chunk number 0, or later.
pub proof fn lemma_chunk_start_grows<S: Sequence>(source: S, size: nat, base: int, k: nat)
    requires
        size > 0,
    ensures
        chunk_start(source, size, base, k) >= base + k,
    decreases k,
{
    if k > 0 {
        lemma_chunk_start_grows(
            source,
            size,
            base + pulls_used(source, base, size),
            (k - 1) as nat,
        );
    }
}

impl<I: Sequence> Sequence for Chunk<I> {
    type Item = Buffered<I::Item>;

    open spec fn inv(&self) -> bool {
        &&& self.size() > 0
        &&& self.source().inv()
    }

    /// Pull number `k` hands out the items of chunk number `k` in a buffer,
    /// and nothing where the chunk has no item.
    open spec fn at(&self, k: int) -> Option<Buffered<I::Item>> {
        if k >= 0 && self.run(k).len() > 0 {
            Some(Buffered::of(self.run(k)))
        } else {
            None
        }
    }

    open spec fn horizon(&self) -> nat {
        self.source().horizon()
    }

    proof fn lemma_horizon(&self, k: int) {
        lemma_chunk_start_grows(self.source(), self.size(), 0, k as nat);
        self.source().lemma_horizon(chunk_start(self.source(), self.size(), 0, k as nat));
    }

    /// Drains up to `size` items from the source into a buffer, stopping at
    /// the first absence. The chunk is absent when no item was drained.
    fn next(&mut self) -> (item: Option<Buffered<I::Item>>)
        ensures
            final(self).size() == old(self).size(),
            forall|k: int|
                k >= 0 ==> #[trigger] final(self).source().at(k) == old(self).source().at(
                    k + pulls_used(old(self).source(), 0, old(self).size()),
                ),
    {
        let ghost before = self.inner;
        let ghost size = self.size as nat;
        let mut drained: Vec<I::Item> = Vec::new();
        let mut open = true;
        while open && drained.len() < self.size
            invariant
                self.size == old(self).size,
                size == self.size,
                before == old(self).inner,
                self.inner.inv(),
                drained@.len() <= self.size,
                forall|k: int|
                    k >= 0 ==> #[trigger] self.inner.at(k) == before.at(
                        k + drained@.len() + (if open {
                            0int
                        } else {
                            1int
                        }),
                    ),
                forall|i: int|
                    0 <= i < drained@.len() ==> before.at(0 + i) == Some(#[trigger] drained@[i]),
                !open ==> drained@.len() < self.size && before.at(0 + drained@.len() as int) is None,
            decreases (if open { 1int } else { 0int }) + self.size - drained.len(),
        {
            let ghost pulled = self.inner;
            let ghost n = drained@.len() as int;
            assert(pulled.at(0) == before.at(0 + n));
            match self.inner.next() {
                Some(x) => {
                    drained.push(x);
                    proof {
                        assert forall|k: int| k >= 0 implies #[trigger] self.inner.at(k)
                            == before.at(k + (n + 1)) by {
                            assert(pulled.at(k + 1) == before.at(k + 1 + n));
                        }
                    }
                },
                None => {
                    open = false;
                    proof {
                        assert forall|k: int| k >= 0 implies #[trigger] self.inner.at(k)
                            == before.at(k + n + 1) by {
                            assert(pulled.at(k + 1) == before.at(k + 1 + n));
                        }
                    }
                },
            }
        }
        proof {
            lemma_lead_is(before, 0, size, drained@);
            let used = pulls_used(before, 0, size);
            assert forall|k: int| k >= 0 implies #[trigger] self.at(k) == old(self).at(k + 1) by {
                lemma_chunk_start_shifted(self.inner, before, used, size, 0, k as nat);
                lemma_lead_shifted(
                    self.inner,
                    before,
                    used,
                    chunk_start(self.inner, size, 0, k as nat),
                    size,
                );
            }
        }
        if drained.len() == 0 {
            None
        } else {
            Some(Buffered::from_vec(drained))
        }
    }
}

/// The chunks of a fused source from pull number `from` on are the chunks
/// of its remaining items from number `from` on.
proof fn lemma_chunk_runs<S: Sequence>(source: S, size: nat, from: int, k: nat)
    requires
        size > 0,
        source.inv(),
        fused(source),
        0 <= from,
    ensures
        lead(source, chunk_start(source, size, from, k), size) == (if from <= remaining(
            source,
        ).len() && k < chunked(remaining(source).skip(from), size).len() {
            chunked(remaining(source).skip(from), size)[k as int]
        } else {
            Seq::empty()
        }),
    decreases k,
{
    let all = remaining(source);
    lemma_remaining(source);
    lemma_lead(source, from, size);
    let first = lead(source, from, size);
    if from >= all.len() {
        assert(source.at(from) is None);
        assert(first.len() == 0) by {
            if first.len() > 0 {
                assert(source.at(from + 0) == Some(first[0]));
            }
        }
        if from <= all.len() {
            assert(all.skip(from).len() == 0);
        }
        if k > 0 {
            lemma_chunk_runs(source, size, from + 1, (k - 1) as nat);
        }
    } else {
        let rest = all.skip(from);
        let wanted = if rest.len() <= size {
            rest
        } else {
            rest.take(size as int)
        };
        assert forall|i: int| 0 <= i < wanted.len() implies source.at(from + i) == Some(
            #[trigger] wanted[i],
        ) by {
            assert(source.at(from + i) == Some(all[from + i]));
        }
        if wanted.len() < size {
            assert(source.at(from + wanted.len() as int) is None);
        }
        lemma_lead_is(source, from, size, wanted);
        if k > 0 {
            let then = from + pulls_used(source, from, size);
            lemma_chunk_runs(source, size, then, (k - 1) as nat);
            if rest.len() > size {
                assert(all.skip(then) =~= rest.skip(size as int));
            } else if rest.len() == size {
                assert(all.skip(then).len() == 0);
            }
        }
    }
}

/// A chunking of a fused source hands out the remaining items of the source
/// cut into chunks, each in a buffer, and then nothing more.
pub proof fn lemma_chunk_remaining<I: Sequence>(chunk: Chunk<I>)
    requires
        chunk.inv(),
        fused(chunk.source()),
    ensures
        remaining(chunk) == chunked(remaining(chunk.source()), chunk.size()).map_values(
            |run: Seq<I::Item>| Buffered::of(run),
        ),
        fused(chunk),
{
    let source = chunk.source();
    let size = chunk.size();
    let runs = chunked(remaining(source), size);
    let all = runs.map_values(|run: Seq<I::Item>| Buffered::of(run));
    assert(remaining(source).skip(0) =~= remaining(source));
    lemma_chunked_count(remaining(source), size);
    assert forall|k: int| k >= 0 implies (if k < all.len() {
        chunk.at(k) == Some(all[k])
    } else {
        chunk.at(k) is None
    }) by {
        lemma_chunk_runs(source, size, 0, k as nat);
    }
    assert forall|i: int| 0 <= i < all.len() implies chunk.at(0 + i) == Some(#[trigger] all[i]) by {}
    lemma_run_is(chunk, 0, all);
}

/// Chunking a fused sequence and then chaining the chunks gives the items of
/// the sequence back, and the number of chunks is the number of items
/// divided by the size, rounded up.
pub proof fn lemma_chunk_then_chain<I: Sequence>(chunk: Chunk<I>)
    requires
        chunk.inv(),
        fused(chunk.source()),
    ensures
        chained(remaining(chunk)) == remaining(chunk.source()),
        remaining(chunk).len() == (remaining(chunk.source()).len() + chunk.size() - 1) / (
        chunk.size() as int),
{
    let items = remaining(chunk.source());
    let runs = chunked(items, chunk.size());
    lemma_chunk_remaining(chunk);
    let each = remaining(chunk).map_values(|row: Buffered<I::Item>| remaining(row));
    assert(each =~= runs) by {
        assert forall|i: int| 0 <= i < runs.len() implies each[i] == runs[i] by {
            Buffered::lemma_items_of(runs[i]);
            Buffered::of(runs[i]).lemma_remaining_items();
        }
    }
    lemma_chunked_flatten(items, chunk.size());
    lemma_chunked_count(items, chunk.size());
}

/// Cutting a sequence into chunks and laying the chunks end to end gives the
/// sequence back.
pub proof fn lemma_chunked_flatten<T>(items: Seq<T>, size: nat)
    requires
        size > 0,
    ensures
        chunked(items, size).flatten() == items,
    decreases items.len(),
{
    broadcast use vstd::seq_lib::group_seq_properties;
    if items.len() == 0 {
        assert(chunked(items, size).flatten() =~= items);
    } else if items.len() <= size {
        seq![items].lemma_flatten_one_element();
        assert(seq![items].flatten() =~= items);
    } else {
        let head = items.take(size as int);
        let rest = items.skip(size as int);
        lemma_chunked_flatten(rest, size);
        vstd::seq_lib::lemma_flatten_concat(seq![head], chunked(rest, size));
        seq![head].lemma_flatten_one_element();
        assert(head + rest =~= items);
    }
}

/// A sequence of `items.len()` items is cut into that many items divided by
/// `size`, rounded up; every chunk but the last is full and none is empty.
pub proof fn lemma_chunked_count<T>(items: Seq<T>, size: nat)
    requires
        size > 0,
    ensures
        chunked(items, size).len() == (items.len() + size - 1) / (size as int),
        forall|i: int|
            0 <= i < chunked(items, size).len() ==> 0 < (#[trigger] chunked(items, size)[i]).len()
                <= size,
        forall|i: int|
            0 <= i < chunked(items, size).len() - 1 ==> (#[trigger] chunked(items, size)[i]).len()
                == size,
    decreases items.len(),
{
    let n = items.len() as int;
    let s = size as int;
    if items.len() == 0 {
        assert((n + s - 1) / s == 0) by (nonlinear_arith)
            requires
                n == 0,
                s > 0,
        ;
    } else if items.len() <= size {
        assert((n + s - 1) / s == 1) by (nonlinear_arith)
            requires
                0 < n <= s,
        ;
    } else {
        let rest = items.skip(s);
        lemma_chunked_count(rest, size);
        assert((n + s - 1) / s == (n - s + s - 1) / s + 1) by (nonlinear_arith)
            requires
                s > 0,
        ;
        let tail = chunked(rest, size);
        let whole = chunked(items, size);
        assert(whole =~= seq![items.take(s)] + tail);
        assert forall|i: int| 0 <= i < whole.len() implies 0 < (#[trigger] whole[i]).len()
            <= size by {
            if i > 0 {
                assert(whole[i] == tail[i - 1]);
            }
        }
        assert forall|i: int| 0 <= i < whole.len() - 1 implies (#[trigger] whole[i]).len()
            == size by {
            if i > 0 {
                assert(whole[i] == tail[i - 1]);
            }
        }
    }
}

/// Cutting into chunks and then changing every item is changing every item
/// and then cutting into chunks.
pub proof fn lemma_chunked_map<T, U>(items: Seq<T>, size: nat, change: spec_fn(T) -> U)
    ensures
        chunked(items.map_values(change), size) == chunked(items, size).map_values(
            |run: Seq<T>| run.map_values(change),
        ),
    decreases items.len(),
{
    let changed = items.map_values(change);
    let each = |run: Seq<T>| run.map_values(change);
    if items.len() == 0 || size == 0 {
        assert(chunked(changed, size) =~= chunked(items, size).map_values(each));
    } else if items.len() <= size {
        assert(chunked(changed, size) =~= chunked(items, size).map_values(each));
    } else {
        let n = size as int;
        lemma_chunked_map(items.skip(n), size, change);
        assert(changed.skip(n) =~= items.skip(n).map_values(change));
        assert(changed.take(n) =~= items.take(n).map_values(change));
        assert(chunked(changed, size) =~= chunked(items, size).map_values(each));
    }
}

/// What holds of every item holds of every item of every chunk.
pub proof fn lemma_chunked_keeps<T>(items: Seq<T>, size: nat, holds: spec_fn(T) -> bool)
    requires
        forall|i: int| 0 <= i < items.len() ==> holds(#[trigger] items[i]),
    ensures
        forall|j: int, m: int|
            0 <= j < chunked(items, size).len() && 0 <= m < chunked(items, size)[j].len()
                ==> holds(#[trigger] chunked(items, size)[j][m]),
    decreases items.len(),
{
    let all = chunked(items, size);
    if items.len() == 0 || size == 0 {
    } else if items.len() <= size {
    } else {
        let n = size as int;
        let rest = chunked(items.skip(n), size);
        assert forall|i: int| 0 <= i < items.skip(n).len() implies holds(
            #[trigger] items.skip(n)[i],
        ) by {
            assert(items.skip(n)[i] == items[i + n]);
        }
        lemma_chunked_keeps(items.skip(n), size, holds);
        assert forall|j: int, m: int| 0 <= j < all.len() && 0 <= m < all[j].len() implies holds(
            #[trigger] all[j][m],
        ) by {
            if j == 0 {
                assert(all[0][m] == items[m]);
            } else {
                assert(all[j] == rest[j - 1]);
            }
        }
    }
}

/// Interleaving rows of one length and cutting the result into chunks of as
/// many items as there are rows gives the columns of the rows.
pub proof fn lemma_chunked_transposed<T>(rows: Seq<Seq<T>>, height: nat)
    requires
        rows.len() > 0,
        forall|j: int| 0 <= j < rows.len() ==> (#[trigger] rows[j]).len() == height,
    ensures
        chunked(transposed(rows, height), rows.len()) == columns(rows, height),
    decreases height,
{
    let n = rows.len() as int;
    let h = height as int;
    let all = transposed(rows, height);
    let first = Seq::new(rows.len(), |m: int| rows[m][0]);
    if height == 0 {
        assert(n * 0 == 0);
        assert(chunked(all, rows.len()) =~= columns(rows, height));
    } else {
        assert(n * h >= n && n * (h - 1) == n * h - n) by (nonlinear_arith)
            requires
                n > 0,
                h >= 1,
        ;
        assert(all.take(n) =~= first) by {
            assert forall|k: int| 0 <= k < n implies #[trigger] all[k] == rows[k][0] by {
                vstd::arithmetic::div_mod::lemma_fundamental_div_mod_converse(k, n, 0, k);
            }
        }
        let below = Seq::new(rows.len(), |m: int| rows[m].drop_first());
        let shifted = all.skip(n);
        let rest = transposed(below, (height - 1) as nat);
        assert(shifted =~= rest) by {
            assert forall|k: int| 0 <= k < n * (h - 1) implies #[trigger] shifted[k] == rest[k] by {
                vstd::arithmetic::div_mod::lemma_fundamental_div_mod(k, n);
                vstd::arithmetic::div_mod::lemma_mod_pos_bound(k, n);
                vstd::arithmetic::div_mod::lemma_div_pos_is_pos(k, n);
                let q = k / n;
                assert((q + 1) * n + k % n == n * q + k % n + n) by (nonlinear_arith);
                vstd::arithmetic::div_mod::lemma_fundamental_div_mod_converse(
                    k + n,
                    n,
                    q + 1,
                    k % n,
                );
                assert(q < h - 1) by (nonlinear_arith)
                    requires
                        0 <= k < n * (h - 1),
                        n > 0,
                        q == k / n,
                ;
            }
        }
        lemma_chunked_transposed(below, (height - 1) as nat);
        assert(columns(rows, height) =~= seq![first] + columns(below, (height - 1) as nat)) by {
            assert forall|i: int| 1 <= i < h implies columns(rows, height)[i] =~= columns(
                below,
                (height - 1) as nat,
            )[i - 1] by {}
        }
        if all.len() <= n {
            assert(h == 1) by (nonlinear_arith)
                requires
                    n * h <= n,
                    n > 0,
                    h >= 1,
            ;
            assert(all.take(n) =~= all);
            assert(all.skip(n) =~= Seq::<T>::empty());
        }
    }
}

/// Transposing rows of one length turns them into their columns. Where
/// sequences that are fused and have the same number of items left are
/// interleaved from the first on, and the result is cut into chunks of as
/// many items as there are sequences, the chunks are the columns of what the
/// sequences had left, and after them comes nothing more.
pub proof fn lemma_transpose_of_equal_rows<I: Sequence>(
    transposing: Chunk<Interleave<I>>,
    height: nat,
)
    requires
        transposing.inv(),
        transposing.source().cursor() == 0,
        transposing.size() == transposing.source().rows().len(),
        forall|j: int|
            0 <= j < transposing.source().rows().len() ==> fused(
                #[trigger] transposing.source().rows()[j],
            ) && remaining(transposing.source().rows()[j]).len() == height,
    ensures
        remaining(transposing).map_values(|column: Buffered<I::Item>| column.items())
            == columns(transposing.source().pending(), height),
        remaining(transposing).len() == height,
        fused(transposing),
{
    let source = transposing.source();
    let pending = source.pending();
    lemma_interleave_of_equal_rows(source, height);
    lemma_chunk_remaining(transposing);
    assert forall|j: int| 0 <= j < pending.len() implies (#[trigger] pending[j]).len()
        == height by {
        assert(fused(source.rows()[j]));
    }
    lemma_chunked_transposed(pending, height);
    let cut = chunked(remaining(source), transposing.size());
    let held = remaining(transposing).map_values(|column: Buffered<I::Item>| column.items());
    assert(held =~= cut) by {
        assert forall|k: int| 0 <= k < cut.len() implies held[k] == cut[k] by {
            Buffered::lemma_items_of(cut[k]);
        }
    }
}

} // verus!
