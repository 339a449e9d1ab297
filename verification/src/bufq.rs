//! The queue of byte chunks that feeds the lexer.
//!
//! The caller pushes chunks as they arrive and marks the end of the input
//! once. A reader sees the bytes of all chunks as one stream and never sees
//! where one chunk ends: what it gets depends on the bytes, not on how they
//! were cut. A chunk whose last byte was read is dropped at once.
use std::borrow::Cow;
use std::collections::VecDeque;
use vstd::prelude::*;

verus! {

/// What the queue has for a reader that asks for the next byte.
#[derive(Clone, Copy, Debug, PartialEq, Eq, Structural)]
pub enum Fetch {
    /// The next byte of the stream, now read.
    Byte(u8),
    /// No byte is there yet, and the end was not marked: more may come.
    Pending,
    /// The end was marked and every byte before it was read.
    End,
}

/// The bytes of the chunks, one chunk after the other.
pub open spec fn concat<'x>(chunks: Seq<Cow<'x, [u8]>>) -> Seq<u8>
    decreases chunks.len(),
{
    if chunks.len() == 0 {
        Seq::empty()
    } else {
        chunks[0]@ + concat(chunks.skip(1))
    }
}

/// A chunk added at the end adds its bytes at the end.
pub proof fn lemma_concat_push<'x>(chunks: Seq<Cow<'x, [u8]>>, data: Cow<'x, [u8]>)
    ensures
        concat(chunks.push(data)) == concat(chunks) + data@,
    decreases chunks.len(),
{
    if chunks.len() == 0 {
        assert(chunks.push(data).skip(1) =~= Seq::<Cow<'x, [u8]>>::empty());
        assert(concat(chunks.push(data).skip(1)) =~= Seq::<u8>::empty());
        assert(concat(chunks.push(data)) =~= data@);
        assert(concat(chunks) + data@ =~= data@);
    } else {
        assert(chunks.push(data).skip(1) =~= chunks.skip(1).push(data));
        lemma_concat_push(chunks.skip(1), data);
        assert((chunks[0]@ + concat(chunks.skip(1))) + data@ =~= chunks[0]@ + (concat(
            chunks.skip(1),
        ) + data@));
    }
}

fn chunk_len<'x>(c: &Cow<'x, [u8]>) -> (n: usize)
    ensures
        n == c@.len(),
{
    match c {
        Cow::Borrowed(s) => s.len(),
        Cow::Owned(v) => v.len(),
    }
}

fn chunk_byte<'x>(c: &Cow<'x, [u8]>, i: usize) -> (b: u8)
    requires
        i < c@.len(),
    ensures
        b == c@[i as int],
{
    match c {
        Cow::Borrowed(s) => s[i],
        Cow::Owned(v) => v[i],
    }
}

/// Chunks of bytes in the order of their arrival, a cursor into the first of
/// them, and the mark of the end of the input.
pub struct BufferQueue<'x> {
    chunks: VecDeque<Cow<'x, [u8]>>,
    /// Bytes of the first chunk that were read already.
    offset: usize,
    /// Bytes not read yet, over all chunks.
    len: usize,
    eof: bool,
}

impl<'x> BufferQueue<'x> {
    /// The bytes that were pushed and not read yet.
    pub closed spec fn unread(&self) -> Seq<u8> {
        concat(self.chunks@).skip(self.offset as int)
    }

    /// Whether the end of the input was marked.
    pub closed spec fn eof_marked(&self) -> bool {
        self.eof
    }

    /// The queue holds no empty chunk, its cursor stands inside the first
    /// chunk, and its count is that of the unread bytes.
    pub closed spec fn wf(&self) -> bool {
        &&& self.len == self.unread().len()
        &&& forall|i: int| 0 <= i < self.chunks@.len() ==> (#[trigger] self.chunks@[i])@.len() > 0
        &&& self.chunks@.len() > 0 ==> self.offset < self.chunks@[0]@.len()
        &&& self.chunks@.len() == 0 ==> self.offset == 0
    }

    /// The number of bytes in the chunks that the queue holds, read or not.
    pub closed spec fn retained(&self) -> nat {
        concat(self.chunks@).len()
    }

    /// A chunk is dropped when its last byte was read: the queue holds no
    /// bytes but those that are unread and those before them in the same
    /// chunk. So a queue that was read to its end holds nothing.
    pub proof fn lemma_read_chunks_are_dropped(&self)
        requires
            self.wf(),
        ensures
            self.unread().len() <= self.retained(),
            self.unread().len() == 0 ==> self.retained() == 0,
    {
        if self.chunks@.len() > 0 {
            assert(concat(self.chunks@).len() >= self.chunks@[0]@.len());
        }
    }

    pub fn new() -> (q: BufferQueue<'x>)
        ensures
            q.wf(),
            q.unread() == Seq::<u8>::empty(),
            !q.eof_marked(),
    {
        let q = BufferQueue { chunks: VecDeque::new(), offset: 0, len: 0, eof: false };
        assert(q.unread() =~= Seq::<u8>::empty());
        q
    }

    /// Appends a chunk. After [`BufferQueue::push_eof`] there is nothing to
    /// append to.
    pub fn push(&mut self, data: Cow<'x, [u8]>)
        requires
            old(self).wf(),
            !old(self).eof_marked(),
            old(self).unread().len() + data@.len() <= usize::MAX,
        ensures
            final(self).wf(),
            final(self).unread() == old(self).unread() + data@,
            final(self).eof_marked() == old(self).eof_marked(),
    {
        let n = chunk_len(&data);
        if n == 0 {
            assert(self.unread() + data@ =~= self.unread());
            return ;
        }
        proof {
            lemma_concat_push(self.chunks@, data);
            assert((concat(self.chunks@) + data@).skip(self.offset as int) =~= concat(
                self.chunks@,
            ).skip(self.offset as int) + data@);
        }
        self.chunks.push_back(data);
        self.len = self.len + n;
    }

    /// Marks the end of the input. It can be marked once.
    pub fn push_eof(&mut self)
        requires
            old(self).wf(),
            !old(self).eof_marked(),
        ensures
            final(self).wf(),
            final(self).unread() == old(self).unread(),
            final(self).eof_marked(),
    {
        self.eof = true;
    }

    /// The number of bytes not read yet.
    pub fn len(&self) -> (n: usize)
        requires
            self.wf(),
        ensures
            n == self.unread().len(),
    {
        self.len
    }

    /// Whether the end of the input was marked.
    pub fn eof(&self) -> (r: bool)
        ensures
            r == self.eof_marked(),
    {
        self.eof
    }

    /// Reads the next byte, if there is one.
    pub fn read_byte(&mut self) -> (r: Fetch)
        requires
            old(self).wf(),
        ensures
            final(self).wf(),
            final(self).eof_marked() == old(self).eof_marked(),
            old(self).unread().len() > 0 ==> r == Fetch::Byte(old(self).unread()[0])
                && final(self).unread() == old(self).unread().skip(1),
            old(self).unread().len() == 0 ==> final(self).unread() == old(self).unread() && r == (
            if old(self).eof_marked() {
                Fetch::End
            } else {
                Fetch::Pending
            }),
    {
        if self.chunks.len() == 0 {
            return if self.eof {
                Fetch::End
            } else {
                Fetch::Pending
            };
        }
        let ghost before = concat(self.chunks@);
        let n = chunk_len(&self.chunks[0]);
        let b = chunk_byte(&self.chunks[0], self.offset);
        assert(before.len() >= n);
        assert(before[self.offset as int] == b);
        self.offset = self.offset + 1;
        self.len = self.len - 1;
        assert(self.unread() =~= old(self).unread().skip(1));
        if self.offset == n {
            let ghost rest = self.chunks@.skip(1);
            self.chunks.pop_front();
            self.offset = 0;
            assert(self.chunks@ =~= rest);
            assert(self.unread() =~= old(self).unread().skip(1));
            assert forall|i: int| 0 <= i < self.chunks@.len() implies (#[trigger] self.chunks@[i])@.len()
                > 0 by {
                assert(self.chunks@[i] == old(self).chunks@[i + 1]);
            }
        }
        Fetch::Byte(b)
    }

    /// Drops every byte not read yet. The mark of the end stays.
    pub fn clear(&mut self)
        ensures
            final(self).wf(),
            final(self).unread() == Seq::<u8>::empty(),
            final(self).eof_marked() == old(self).eof_marked(),
    {
        self.chunks.clear();
        self.offset = 0;
        self.len = 0;
        assert(self.unread() =~= Seq::<u8>::empty());
    }
}

} // verus!
