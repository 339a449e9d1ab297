//! The table of strings that one parser works with.
//!
//! Documents repeat few namespace names many times. The parser keeps each
//! name once, in a [`Context`], and works with its handle: the place of the
//! name in the table. A context can go from one parser to the next, so that
//! the names of one document are there for the following one.
use vstd::prelude::*;
use crate::chars::same_chars;

verus! {

/// The least index from `from` on at which `entries` holds `s`, and the
/// length of `entries` where it holds `s` nowhere from there on.
pub open spec fn find_entry(entries: Seq<Seq<char>>, s: Seq<char>, from: int) -> int
    decreases entries.len() - from,
{
    if from >= entries.len() {
        entries.len() as int
    } else if entries[from] == s {
        from
    } else {
        find_entry(entries, s, from + 1)
    }
}

/// The table after `s` was interned: `s` is added at the end unless it is
/// there.
pub open spec fn interned(entries: Seq<Seq<char>>, s: Seq<char>) -> Seq<Seq<char>> {
    if find_entry(entries, s, 0) < entries.len() {
        entries
    } else {
        entries.push(s)
    }
}

/// A copy of the characters of `v` from `from` up to `to`.
pub fn copy_chars(v: &Vec<char>, from: usize, to: usize) -> (r: Vec<char>)
    requires
        from <= to <= v.len(),
    ensures
        r@ == v@.subrange(from as int, to as int),
{
    let mut r: Vec<char> = Vec::new();
    let mut i: usize = from;
    while i < to
        invariant
            from <= i <= to <= v.len(),
            r@ == v@.subrange(from as int, i as int),
        decreases to - i,
    {
        r.push(v[i]);
        i += 1;
        assert(r@ =~= v@.subrange(from as int, i as int));
    }
    r
}

/// A table of strings, each with its handle.
pub struct Context {
    table: Vec<Vec<char>>,
}

impl Context {
    /// The strings of the table; the handle of a string is its index.
    pub closed spec fn entries(&self) -> Seq<Seq<char>> {
        Seq::new(self.table@.len(), |i: int| self.table@[i]@)
    }

    /// An empty table.
    pub fn new() -> (c: Context)
        ensures
            c.entries() == Seq::<Seq<char>>::empty(),
    {
        let c = Context { table: Vec::new() };
        assert(c.entries() =~= Seq::<Seq<char>>::empty());
        c
    }

    /// The number of strings in the table.
    pub fn len(&self) -> (n: usize)
        ensures
            n == self.entries().len(),
    {
        self.table.len()
    }

    /// The handle of `s`, which is in the table after the call. The strings
    /// that were there keep their handles.
    pub fn intern(&mut self, s: &Vec<char>) -> (h: usize)
        ensures
            h == find_entry(old(self).entries(), s@, 0),
            final(self).entries() == interned(old(self).entries(), s@),
            h < final(self).entries().len(),
            final(self).entries()[h as int] == s@,
            old(self).entries().len() <= final(self).entries().len(),
            forall|i: int|
                0 <= i < old(self).entries().len() ==> final(self).entries()[i] == old(
                    self,
                ).entries()[i],
    {
        let n = self.table.len();
        let mut i: usize = 0;
        while i < n
            invariant
                i <= n,
                n == self.table@.len(),
                *self == *old(self),
                find_entry(self.entries(), s@, 0) == find_entry(self.entries(), s@, i as int),
            decreases n - i,
        {
            if same_chars(&self.table[i], s) {
                return i;
            }
            i += 1;
        }
        self.table.push(copy_chars(s, 0, s.len()));
        assert(s@.subrange(0, s@.len() as int) =~= s@);
        assert(self.entries() =~= old(self).entries().push(s@));
        n
    }

    /// The string with the handle `h`.
    pub fn get(&self, h: usize) -> (s: &Vec<char>)
        requires
            h < self.entries().len(),
        ensures
            s@ == self.entries()[h as int],
    {
        &self.table[h]
    }

    /// Empties the table. No handle from before the call is of use after it.
    pub fn clear(&mut self)
        ensures
            final(self).entries() == Seq::<Seq<char>>::empty(),
    {
        self.table.clear();
        assert(self.entries() =~= Seq::<Seq<char>>::empty());
    }
}

} // verus!
