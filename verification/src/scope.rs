//! Name tables: the variable scope of a function and the symbol table of
//! functions. A table is an ordered list of (name, item) pairs; a later
//! pair shadows an earlier one of the same name.

use vstd::prelude::*;

verus! {

/// A name, as a sequence of characters.
pub type Name = Seq<char>;

/// The item that `name` is bound to: that of the last pair with this name.
pub open spec fn lookup<T>(entries: Seq<(Name, T)>, name: Name) -> Option<T>
    decreases entries.len(),
{
    if entries.len() == 0 {
        None
    } else if entries.last().0 == name {
        Some(entries.last().1)
    } else {
        lookup(entries.drop_last(), name)
    }
}

/// Whether `s` holds exactly the characters of `literal`.
pub fn text_is(s: &String, literal: &str) -> (r: bool)
    ensures
        r == (s@ == literal@),
{
    let other = literal.to_owned();
    *s == other
}

/// One pair of a table.
#[derive(Debug)]
pub struct Entry<T> {
    pub name: String,
    pub item: T,
}

/// A name table.
#[derive(Debug)]
pub struct Table<T> {
    pub entries: Vec<Entry<T>>,
}

impl<T> View for Table<T> {
    type V = Seq<(Name, T)>;

    open spec fn view(&self) -> Seq<(Name, T)> {
        self.entries@.map_values(|e: Entry<T>| (e.name@, e.item))
    }
}

impl<T: Copy> Table<T> {
    /// The empty table.
    pub fn new() -> (t: Self)
        ensures
            t@ == Seq::<(Name, T)>::empty(),
    {
        let t = Table { entries: Vec::new() };
        assert(t@ =~= Seq::<(Name, T)>::empty());
        t
    }

/// The number of pairs.
    pub fn len(&self) -> (n: usize)
        ensures
            n == self@.len(),
    {
        self.entries.len()
    }

    /// The name of pair `i`.
    pub fn name_at(&self, i: usize) -> (name: &String)
        requires
            i < self@.len(),
        ensures
            name@ == self@[i as int].0,
    {
        &self.entries[i].name
    }

    /// The item that `name` is bound to, if it is bound.
    pub fn lookup(&self, name: &String) -> (r: Option<T>)
        ensures
            r == lookup(self@, name@),
    {
        let mut i = self.entries.len();
        assert(self@.take(i as int) =~= self@);
        while i > 0
            invariant
                i <= self.entries.len(),
                lookup(self@, name@) == lookup(self@.take(i as int), name@),
            decreases i,
        {
            proof {
                let prefix = self@.take(i as int);
                assert(prefix.last() == self@[i - 1]);
                assert(prefix.drop_last() =~= self@.take(i - 1));
            }
            i -= 1;
            if self.entries[i].name == *name {
                return Some(self.entries[i].item);
            }
        }
        assert(self@.take(0).len() == 0);
        None
    }

    /// Binds `name` to `item`, shadowing any earlier binding of the name.
    pub fn push(&mut self, name: String, item: T)
        ensures
            final(self)@ == old(self)@.push((name@, item)),
    {
        self.entries.push(Entry { name, item });
        assert(self@ =~= old(self)@.push((name@, item)));
    }

    /// A copy of the table.
    pub fn duplicate(&self) -> (t: Self)
        ensures
            t@ == self@,
    {
        let mut t = Table { entries: Vec::new() };
        let mut i: usize = 0;
        while i < self.entries.len()
            invariant
                i <= self.entries.len(),
                t@ =~= self@.take(i as int),
            decreases self.entries.len() - i,
        {
            let name = self.entries[i].name.clone();
            t.entries.push(Entry { name, item: self.entries[i].item });
            assert(name@ == self@[i as int].0);
            assert(self@.take(i + 1) =~= self@.take(i as int).push(self@[i as int]));
            i += 1;
        }
        assert(self@.take(self@.len() as int) =~= self@);
        t
    }
}

} // verus!
