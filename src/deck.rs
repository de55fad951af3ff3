use vstd::prelude::*;
use crate::layout::{
    bucket_len, bucket_start, lemma_buckets_partition, lemma_spread_len, sparse_layout, spread,
    valid_offsets,
};
use crate::random::{random_offset, shuffle_in_place};

verus! {

/// Size of bucket `i` when `len` items are cut into `n` buckets.
fn bucket_size(len: usize, n: usize, i: usize) -> (r: usize)
    requires
        0 < n,
    ensures
        r == bucket_len(len as int, n as int, i as int),
{
    let q = len / n;
    if i < len % n {
        assert(len % n < n && (len == 0 ==> len % n == 0)) by (nonlinear_arith)
            requires
                0 < n,
        ;
        assert(q < len) by (nonlinear_arith)
            requires
                q == len / n,
                1 < n,
                0 < len,
        ;
        q + 1
    } else {
        q
    }
}

/// Three ordered piles of items. In each pile index 0 is the bottom and the
/// last index is the top.
pub struct Deck<T> {
    draw_pile: Vec<T>,
    discard_pile: Vec<T>,
    removed_pile: Vec<T>,
}

impl<T> Deck<T> {
    /// The draw pile, bottom first.
    pub closed spec fn draw_seq(&self) -> Seq<T> {
        self.draw_pile@
    }

    /// The discard pile, in the order items were discarded.
    pub closed spec fn discard_seq(&self) -> Seq<T> {
        self.discard_pile@
    }

    /// The pile of removed items, in the order they were removed.
    pub closed spec fn removed_seq(&self) -> Seq<T> {
        self.removed_pile@
    }

    /// A deck whose three piles are empty.
    pub fn new() -> (d: Self)
        ensures
            d.draw_seq() == Seq::<T>::empty(),
            d.discard_seq() == Seq::<T>::empty(),
            d.removed_seq() == Seq::<T>::empty(),
    {
        Deck { draw_pile: Vec::new(), discard_pile: Vec::new(), removed_pile: Vec::new() }
    }

    /// True when the draw pile holds at least one item.
    pub fn can_draw(&self) -> (r: bool)
        ensures
            r == (self.draw_seq().len() > 0),
    {
        self.draw_pile.len() > 0
    }

    /// Takes the top item of the draw pile; `None` when the pile is empty.
    pub fn draw_top(&mut self) -> (r: Option<T>)
        ensures
            old(self).draw_seq().len() > 0 ==> r == Some(old(self).draw_seq().last())
                && final(self).draw_seq() == old(self).draw_seq().drop_last(),
            old(self).draw_seq().len() == 0 ==> r == None::<T> && final(self).draw_seq() == old(
                self,
            ).draw_seq(),
            final(self).discard_seq() == old(self).discard_seq(),
            final(self).removed_seq() == old(self).removed_seq(),
    {
        self.draw_pile.pop()
    }

    /// Takes the bottom item of the draw pile, keeping the order of the rest;
    /// `None` when the pile is empty.
    pub fn draw_bottom(&mut self) -> (r: Option<T>)
        ensures
            old(self).draw_seq().len() > 0 ==> r == Some(old(self).draw_seq()[0])
                && final(self).draw_seq() == old(self).draw_seq().drop_first(),
            old(self).draw_seq().len() == 0 ==> r == None::<T> && final(self).draw_seq() == old(
                self,
            ).draw_seq(),
            final(self).discard_seq() == old(self).discard_seq(),
            final(self).removed_seq() == old(self).removed_seq(),
    {
        if self.draw_pile.is_empty() {
            return None;
        }
        let x = self.draw_pile.remove(0);
        proof {
            assert(old(self).draw_seq().remove(0) =~= old(self).draw_seq().drop_first());
        }
        Some(x)
    }

    /// Places `x` on top of the draw pile.
    pub fn put_top(&mut self, x: T)
        ensures
            final(self).draw_seq() == old(self).draw_seq().push(x),
            final(self).discard_seq() == old(self).discard_seq(),
            final(self).removed_seq() == old(self).removed_seq(),
    {
        self.draw_pile.push(x);
    }

    /// Places `x` at the bottom of the draw pile, under all its items.
    pub fn put_bottom(&mut self, x: T)
        ensures
            final(self).draw_seq() == seq![x] + old(self).draw_seq(),
            final(self).discard_seq() == old(self).discard_seq(),
            final(self).removed_seq() == old(self).removed_seq(),
    {
        self.draw_pile.insert(0, x);
        proof {
            assert(old(self).draw_seq().insert(0, x) =~= seq![x] + old(self).draw_seq());
        }
    }

    /// Adds `x` to the top of the discard pile; the other piles stay as they are.
    pub fn discard(&mut self, x: T)
        ensures
            final(self).discard_seq() == old(self).discard_seq().push(x),
            final(self).draw_seq() == old(self).draw_seq(),
            final(self).removed_seq() == old(self).removed_seq(),
    {
        self.discard_pile.push(x);
    }

    /// Adds `x` to the pile of removed items; the other piles stay as they are.
    pub fn remove(&mut self, x: T)
        ensures
            final(self).removed_seq() == old(self).removed_seq().push(x),
            final(self).draw_seq() == old(self).draw_seq(),
            final(self).discard_seq() == old(self).discard_seq(),
    {
        self.removed_pile.push(x);
    }

    /// Number of items in the draw pile.
    pub fn remaining(&self) -> (r: usize)
        ensures
            r == self.draw_seq().len(),
    {
        self.draw_pile.len()
    }

    /// The draw pile, bottom first.
    pub fn see_draw(&mut self) -> (r: &[T])
        ensures
            r@ == old(self).draw_seq(),
            final(self).draw_seq() == old(self).draw_seq(),
            final(self).discard_seq() == old(self).discard_seq(),
            final(self).removed_seq() == old(self).removed_seq(),
    {
        self.draw_pile.as_slice()
    }

    /// The discard pile, in its current order.
    pub fn see_discarded(&self) -> (r: &[T])
        ensures
            r@ == self.discard_seq(),
    {
        self.discard_pile.as_slice()
    }

    /// The removed items, in the order they were removed.
    pub fn see_removed(&self) -> (r: &[T])
        ensures
            r@ == self.removed_seq(),
    {
        self.removed_pile.as_slice()
    }

    /// Puts the draw pile in a random order; it keeps the same items.
    pub fn shuffle_draw(&mut self)
        ensures
            final(self).draw_seq().len() == old(self).draw_seq().len(),
            final(self).draw_seq().to_multiset() == old(self).draw_seq().to_multiset(),
            final(self).discard_seq() == old(self).discard_seq(),
            final(self).removed_seq() == old(self).removed_seq(),
    {
        shuffle_in_place(&mut self.draw_pile);
    }

    /// Puts the discard pile in a random order; it keeps the same items.
    pub fn shuffle_discard(&mut self)
        ensures
            final(self).discard_seq().len() == old(self).discard_seq().len(),
            final(self).discard_seq().to_multiset() == old(self).discard_seq().to_multiset(),
            final(self).draw_seq() == old(self).draw_seq(),
            final(self).removed_seq() == old(self).removed_seq(),
    {
        shuffle_in_place(&mut self.discard_pile);
    }

    /// Inserts the items of `elements` into the draw pile, one per bucket: the
    /// draw pile as it was is cut into `elements.len()` contiguous buckets, and
    /// item `i` goes into bucket `i` after its first `offsets[i]` items. The
    /// original items keep their order. With no items nothing changes.
    pub fn put_sparse_at(&mut self, elements: Vec<T>, offsets: &Vec<usize>)
        requires
            offsets.len() == elements.len(),
            valid_offsets(old(self).draw_seq().len() as int, offsets@),
        ensures
            final(self).draw_seq() == sparse_layout(old(self).draw_seq(), elements@, offsets@),
            final(self).discard_seq() == old(self).discard_seq(),
            final(self).removed_seq() == old(self).removed_seq(),
    {
        let n = elements.len();
        if n == 0 {
            return;
        }
        let len = self.draw_pile.len();
        let ghost orig = self.draw_pile@;
        let ghost elems = elements@;
        proof {
            lemma_buckets_partition(len as int, n as int);
            assert(orig.take(len as int) + spread(orig, elems, offsets@, n as int) =~= orig);
        }
        // Buckets are filled from the last to the first, so that each insertion
        // leaves the indices of the buckets still to fill unchanged, and the
        // items can be taken off the end of `elements`.
        let mut elements = elements;
        let mut start: usize = len;
        let mut k: usize = n;
        while k > 0
            invariant
                0 < n,
                n == elems.len(),
                len == orig.len(),
                offsets.len() == n,
                valid_offsets(len as int, offsets@),
                0 <= k <= n,
                elements@ == elems.take(k as int),
                start == bucket_start(len as int, n as int, k as int),
                self.draw_pile@ == orig.take(start as int) + spread(orig, elems, offsets@, k as int),
                self.discard_seq() == old(self).discard_seq(),
                self.removed_seq() == old(self).removed_seq(),
                forall|i: int|
                    0 <= i < n ==> #[trigger] bucket_start(len as int, n as int, i + 1)
                        == bucket_start(len as int, n as int, i) + bucket_len(len as int, n as int, i),
                forall|i: int| 0 <= i <= n ==> 0 <= #[trigger] bucket_start(len as int, n as int, i) <= len,
            decreases k,
        {
            k = k - 1;
            let size = bucket_size(len, n, k);
            proof {
                lemma_spread_len(orig, elems, offsets@, k as int + 1);
                assert(offsets@[k as int] <= bucket_len(len as int, n as int, k as int));
            }
            start = start - size;
            let x = elements.pop().unwrap();
            let pos = start + offsets[k];
            self.draw_pile.insert(pos, x);
            proof {
                assert(x == elems[k as int]);
                assert(elements@ =~= elems.take(k as int));
                assert(self.draw_pile@ =~= orig.take(start as int) + spread(
                    orig,
                    elems,
                    offsets@,
                    k as int,
                ));
            }
        }
        proof {
            assert(self.draw_pile@ =~= spread(orig, elems, offsets@, 0));
        }
    }

    /// Inserts the items of `elements` into the draw pile, one per bucket, each
    /// at an offset drawn uniformly at random within its bucket (see
    /// `put_sparse_at`). With no items nothing changes.
    pub fn put_sparse(&mut self, elements: Vec<T>)
        ensures
            exists|offsets: Seq<usize>|
                offsets.len() == elements.len() && valid_offsets(
                    old(self).draw_seq().len() as int,
                    offsets,
                ) && final(self).draw_seq() == #[trigger] sparse_layout(
                    old(self).draw_seq(),
                    elements@,
                    offsets,
                ),
            final(self).discard_seq() == old(self).discard_seq(),
            final(self).removed_seq() == old(self).removed_seq(),
    {
        let n = elements.len();
        let len = self.draw_pile.len();
        let mut offsets: Vec<usize> = Vec::new();
        let mut i: usize = 0;
        while i < n
            invariant
                0 <= i <= n,
                offsets.len() == i,
                forall|j: int|
                    0 <= j < i ==> #[trigger] offsets@[j] <= bucket_len(len as int, n as int, j),
            decreases n - i,
        {
            let size = bucket_size(len, n, i);
            offsets.push(random_offset(size));
            i = i + 1;
        }
        let ghost offs = offsets@;
        self.put_sparse_at(elements, &offsets);
        proof {
            assert(final(self).draw_seq() == sparse_layout(old(self).draw_seq(), elements@, offs));
        }
    }
}

/// The draw pile worked as a double-ended queue: an item put on top is the
/// next drawn from the top, an item put at the bottom the next drawn from the
/// bottom, and either draw then leaves the pile as it was; an item put on one
/// end of an empty pile is also the one drawn from the other end.
pub proof fn lemma_draw_pile_is_deque<T>(s: Seq<T>, x: T)
    ensures
        s.push(x).len() > 0 && s.push(x).last() == x && s.push(x).drop_last() == s,
        (seq![x] + s).len() > 0 && (seq![x] + s)[0] == x && (seq![x] + s).drop_first() == s,
        s.len() == 0 ==> s.push(x)[0] == x && s.push(x).drop_first() == s,
        s.len() == 0 ==> (seq![x] + s).last() == x && (seq![x] + s).drop_last() == s,
        s.len() > 0 ==> s.push(x)[0] == s[0] && s.push(x).drop_first() == s.drop_first().push(x),
        s.len() > 0 ==> (seq![x] + s).last() == s.last() && (seq![x] + s).drop_last() == seq![x]
            + s.drop_last(),
{
    assert(s.push(x).drop_last() =~= s);
    assert((seq![x] + s).drop_first() =~= s);
    if s.len() == 0 {
        assert(s.push(x).drop_first() =~= s);
        assert((seq![x] + s).drop_last() =~= s);
    } else {
        assert(s.push(x).drop_first() =~= s.drop_first().push(x));
        assert((seq![x] + s).drop_last() =~= seq![x] + s.drop_last());
    }
}

} // verus!
