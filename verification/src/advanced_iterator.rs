//! The combinators, as methods of every sequence.

use vstd::prelude::*;
use vstd::string::StringExecFns;
use crate::chain_all::ChainAll;
use crate::chunk::Chunk;
use crate::interleave::Interleave;
use crate::sequence::collect;
use crate::sequence::lemma_remaining;
use crate::sequence::remaining;
use crate::sequence::Sequence;
use crate::text::decimal;
use crate::text::render_decimal;
use crate::text::render_signed;
use crate::text::signed_decimal;

verus! {

/// A value that has a textual form. Texts are their own textual form,
/// integers are written in decimal digits, and truth values as `true` and
/// `false`.
pub trait Displayable {
    /// The characters of the textual form.
    spec fn text(&self) -> Seq<char>;

    /// Writes the textual form out.
    fn render(&self) -> (rendered: String)
        ensures
            rendered@ == self.text(),
    ;
}

impl Displayable for String {
    open spec fn text(&self) -> Seq<char> {
        self@
    }

    fn render(&self) -> (rendered: String) {
        self.clone()
    }
}

impl<'a> Displayable for &'a str {
    open spec fn text(&self) -> Seq<char> {
        self@
    }

    fn render(&self) -> (rendered: String) {
        String::from_str(*self)
    }
}

impl Displayable for bool {
    open spec fn text(&self) -> Seq<char> {
        if *self {
            "true"@
        } else {
            "false"@
        }
    }

    fn render(&self) -> (rendered: String) {
        if *self {
            String::from_str("true")
        } else {
            String::from_str("false")
        }
    }
}

impl Displayable for u8 {
    open spec fn text(&self) -> Seq<char> {
        decimal(*self as nat)
    }

    fn render(&self) -> (rendered: String) {
        render_decimal(*self as u128)
    }
}

impl Displayable for u16 {
    open spec fn text(&self) -> Seq<char> {
        decimal(*self as nat)
    }

    fn render(&self) -> (rendered: String) {
        render_decimal(*self as u128)
    }
}

impl Displayable for u32 {
    open spec fn text(&self) -> Seq<char> {
        decimal(*self as nat)
    }

    fn render(&self) -> (rendered: String) {
        render_decimal(*self as u128)
    }
}

impl Displayable for u64 {
    open spec fn text(&self) -> Seq<char> {
        decimal(*self as nat)
    }

    fn render(&self) -> (rendered: String) {
        render_decimal(*self as u128)
    }
}

impl Displayable for u128 {
    open spec fn text(&self) -> Seq<char> {
        decimal(*self as nat)
    }

    fn render(&self) -> (rendered: String) {
        render_decimal(*self)
    }
}

impl Displayable for usize {
    open spec fn text(&self) -> Seq<char> {
        decimal(*self as nat)
    }

    fn render(&self) -> (rendered: String) {
        render_decimal(*self as u128)
    }
}

impl Displayable for i8 {
    open spec fn text(&self) -> Seq<char> {
        signed_decimal(*self as int)
    }

    fn render(&self) -> (rendered: String) {
        render_signed(*self as i128)
    }
}

impl Displayable for i16 {
    open spec fn text(&self) -> Seq<char> {
        signed_decimal(*self as int)
    }

    fn render(&self) -> (rendered: String) {
        render_signed(*self as i128)
    }
}

impl Displayable for i32 {
    open spec fn text(&self) -> Seq<char> {
        signed_decimal(*self as int)
    }

    fn render(&self) -> (rendered: String) {
        render_signed(*self as i128)
    }
}

impl Displayable for i64 {
    open spec fn text(&self) -> Seq<char> {
        signed_decimal(*self as int)
    }

    fn render(&self) -> (rendered: String) {
        render_signed(*self as i128)
    }
}

impl Displayable for i128 {
    open spec fn text(&self) -> Seq<char> {
        signed_decimal(*self as int)
    }

    fn render(&self) -> (rendered: String) {
        render_signed(*self)
    }
}

impl Displayable for isize {
    open spec fn text(&self) -> Seq<char> {
        signed_decimal(*self as int)
    }

    fn render(&self) -> (rendered: String) {
        render_signed(*self as i128)
    }
}

/// `parts` written one after the other with `separator` between each two of
/// them: none before the first, none after the last.
pub open spec fn joined(parts: Seq<Seq<char>>, separator: Seq<char>) -> Seq<char>
    decreases parts.len(),
{
    if parts.len() == 0 {
        Seq::empty()
    } else if parts.len() == 1 {
        parts.last()
    } else {
        joined(parts.drop_last(), separator) + separator + parts.last()
    }
}

/// The textual forms of `items`, in their order.
pub open spec fn texts<T: Displayable>(items: Seq<T>) -> Seq<Seq<char>> {
    items.map_values(|item: T| item.text())
}

/// The combinators that every sequence has.
pub trait AdvancedIterator: Sequence {
    /// A sequence of chunks, each a buffered run of `size` items of this
    /// sequence. A chunk is shorter where an absence cuts it short. The size
    /// of a chunk is positive.
    fn chunk(self, size: usize) -> (chunk: Chunk<Self>)
        requires
            size > 0,
        ensures
            chunk.source() == self,
            chunk.size() == size,
    {
        Chunk::new(self, size)
    }

    /// Reads this sequence of sequences up to its next absence and takes one
    /// item from each of the sequences in turn, starting with the first.
    fn interleave(self) -> (interleave: Interleave<Self::Item>) where Self::Item: Sequence
        requires
            self.inv(),
            remaining(self).len() > 0,
        ensures
            interleave.rows() == remaining(self),
            interleave.cursor() == 0,
    {
        let mut outer = self;
        let rows = collect(&mut outer);
        Interleave::new(rows)
    }

    /// Turns rows into columns: interleaves the sequences of this sequence
    /// and cuts the result into chunks of as many items as there are
    /// sequences.
    fn transpose(self) -> (columns: Chunk<Interleave<Self::Item>>) where Self::Item: Sequence
        requires
            self.inv(),
            remaining(self).len() > 0,
        ensures
            columns.source().rows() == remaining(self),
            columns.source().cursor() == 0,
            columns.size() == remaining(self).len(),
    {
        let interleave = self.interleave();
        let width = interleave.width();
        Chunk::new(interleave, width)
    }

    /// Chains the sequences of this sequence into a single one.
    fn chain_all(self) -> (chain: ChainAll<Self>) where Self::Item: Sequence
        ensures
            chain.current() is None,
            chain.outer() == self,
    {
        ChainAll::new(self)
    }

    /// Reads this sequence up to and including its next absence and joins
    /// the textual forms of the items read, with `separator` between each two
    /// of them.
    fn join(&mut self, separator: &str) -> (text: String) where Self::Item: Displayable
        requires
            old(self).inv(),
        ensures
            final(self).inv(),
            text@ == joined(texts(remaining(*old(self))), separator@),
            forall|k: int|
                k >= 0 ==> #[trigger] final(self).at(k) == old(self).at(
                    k + remaining(*old(self)).len() as int + 1,
                ),
    {
        let ghost all = remaining(*self);
        let ghost start = *self;
        let mut result = String::new();
        proof {
            lemma_remaining(*self);
        }
        if let Some(first) = self.next() {
            let rendered = first.render();
            result.append(rendered.as_str());
            let ghost mut seen: int = 1;
            proof {
                assert(texts(all.take(1)) =~= seq![first.text()]);
            }
            loop
                invariant_except_break
                    forall|k: int| k >= 0 ==> #[trigger] self.at(k) == start.at(k + seen),
                invariant
                    self.inv(),
                    start == *old(self),
                    all == remaining(start),
                    forall|i: int| 0 <= i < all.len() ==> start.at(i) == Some(#[trigger] all[i]),
                    start.at(all.len() as int) is None,
                    1 <= seen <= all.len(),
                    result@ == joined(texts(all.take(seen)), separator@),
                ensures
                    forall|k: int| k >= 0 ==> #[trigger] self.at(k) == start.at(k + all.len() + 1),
                    result@ == joined(texts(all), separator@),
                decreases all.len() - seen,
            {
                let ghost before = *self;
                assert(before.at(0) == start.at(0 + seen));
                match self.next() {
                    Some(item) => {
                        let rendered = item.render();
                        result.append(separator);
                        result.append(rendered.as_str());
                        proof {
                            let parts = texts(all.take(seen + 1));
                            assert(seen < all.len());
                            assert(item == all[seen]);
                            assert(parts.drop_last() =~= texts(all.take(seen)));
                            assert(parts.last() == item.text());
                            assert forall|k: int| k >= 0 implies #[trigger] self.at(k)
                                == start.at(k + (seen + 1)) by {
                                assert(before.at(k + 1) == start.at(k + 1 + seen));
                            }
                            seen = seen + 1;
                        }
                    },
                    None => {
                        proof {
                            if seen < all.len() {
                                assert(start.at(seen) == Some(all[seen]));
                            }
                            assert(all.take(seen) =~= all);
                            assert forall|k: int| k >= 0 implies #[trigger] self.at(k)
                                == start.at(k + all.len() + 1) by {
                                assert(before.at(k + 1) == start.at(k + 1 + seen));
                            }
                        }
                        break ;
                    },
                }
            }
        } else {
            proof {
                if all.len() > 0 {
                    assert(start.at(0) == Some(all[0]));
                }
                assert(texts(all) =~= Seq::<Seq<char>>::empty());
            }
        }
        result
    }
}

impl<I: Sequence> AdvancedIterator for I {

}

/// Nothing joins to the empty text.
pub proof fn lemma_join_empty(separator: Seq<char>)
    ensures
        joined(Seq::empty(), separator) == Seq::<char>::empty(),
{
}

/// A single part joins to itself, whatever the separator.
pub proof fn lemma_join_single(part: Seq<char>, separator: Seq<char>)
    ensures
        joined(seq![part], separator) == part,
{
}

} // verus!
