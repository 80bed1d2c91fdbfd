//! A symbol table: each distinct name gets the next small integer.
use crate::text::str_eq;
use vstd::prelude::*;

verus! {

/// The index of the first occurrence of `key` among the first `n` names.
pub open spec fn find(names: Seq<Seq<char>>, key: Seq<char>, n: nat) -> Option<nat>
    decreases n,
{
    if n == 0 {
        None
    } else {
        match find(names, key, (n - 1) as nat) {
            Some(i) => Some(i),
            None => if n <= names.len() && names[n - 1] == key {
                Some((n - 1) as nat)
            } else {
                None
            },
        }
    }
}

/// The id that `key` has once it is interned in `names`.
pub open spec fn id_of(names: Seq<Seq<char>>, key: Seq<char>) -> nat {
    match find(names, key, names.len()) {
        Some(i) => i,
        None => names.len(),
    }
}

/// The names once `key` is interned: unchanged where `key` is one of them,
/// else with `key` at the end.
pub open spec fn interned(names: Seq<Seq<char>>, key: Seq<char>) -> Seq<Seq<char>> {
    match find(names, key, names.len()) {
        Some(_) => names,
        None => names.push(key),
    }
}

/// No name occurs twice.
pub open spec fn distinct(names: Seq<Seq<char>>) -> bool {
    forall|i: int, j: int| 0 <= i < j < names.len() ==> names[i] != names[j]
}

/// `find` yields an index at which the key stands, and `None` only where
/// the key stands nowhere.
pub proof fn lemma_find(names: Seq<Seq<char>>, key: Seq<char>, n: nat)
    requires
        n <= names.len(),
    ensures
        match find(names, key, n) {
            Some(i) => i < n && names[i as int] == key && forall|j: int|
                0 <= j < i ==> names[j] != key,
            None => forall|j: int| 0 <= j < n ==> names[j] != key,
        },
    decreases n,
{
    if n > 0 {
        lemma_find(names, key, (n - 1) as nat);
    }
}

/// Interning keeps the names distinct, keeps every id that was given, and
/// gives the key the id under which it is found afterwards.
pub proof fn lemma_interned(names: Seq<Seq<char>>, key: Seq<char>)
    requires
        distinct(names),
    ensures
        distinct(interned(names, key)),
        names.is_prefix_of(interned(names, key)),
        id_of(names, key) < interned(names, key).len(),
        interned(names, key)[id_of(names, key) as int] == key,
        id_of(interned(names, key), key) == id_of(names, key),
        interned(interned(names, key), key) == interned(names, key),
{
    lemma_find(names, key, names.len());
    let after = interned(names, key);
    lemma_find(after, key, after.len());
    assert(names.is_prefix_of(after)) by {
        assert(after.subrange(0, names.len() as int) =~= names);
    }
}

/// Interning keeps every name under the id that it has.
pub proof fn lemma_interned_prefix(names: Seq<Seq<char>>, key: Seq<char>)
    ensures
        names.is_prefix_of(interned(names, key)),
{
    let after = interned(names, key);
    assert(after.subrange(0, names.len() as int) =~= names);
}

/// A table that grew out of a table that grew out of `a` grew out of `a`.
pub proof fn lemma_grows(a: Seq<Seq<char>>, b: Seq<Seq<char>>, c: Seq<Seq<char>>)
    requires
        a.is_prefix_of(b),
        b.is_prefix_of(c),
    ensures
        a.is_prefix_of(c),
{
    assert(c.subrange(0, a.len() as int) =~= b.subrange(0, a.len() as int));
}

/// A table that did not change grew out of itself.
pub proof fn lemma_unchanged(a: Seq<Seq<char>>)
    ensures
        a.is_prefix_of(a),
{
    assert(a.subrange(0, a.len() as int) =~= a);
}

/// An append-only table of distinct names, each known by its index.
pub struct Store<'a> {
    list: Vec<&'a str>,
}

impl<'a> View for Store<'a> {
    type V = Seq<Seq<char>>;

    closed spec fn view(&self) -> Seq<Seq<char>> {
        Seq::new(self.list@.len(), |i: int| self.list@[i]@)
    }
}

impl<'a> Store<'a> {
    /// An empty table.
    pub fn new() -> (r: Self)
        ensures
            r@ == Seq::<Seq<char>>::empty(),
    {
        let r = Store { list: Vec::new() };
        assert(r@ =~= Seq::<Seq<char>>::empty());
        r
    }

    /// Number of names in the table.
    pub fn len(&self) -> (n: usize)
        ensures
            n == self@.len(),
    {
        self.list.len()
    }

    /// The name with the given id.
    pub fn get(&self, index: usize) -> (r: Option<&'a str>)
        ensures
            match r {
                Some(name) => index < self@.len() && name@ == self@[index as int],
                None => index >= self@.len(),
            },
    {
        if index < self.list.len() {
            Some(self.list[index])
        } else {
            None
        }
    }

    /// The id of `v`: the one it was given before or, for a new name, the
    /// next free one.
    pub fn add(&mut self, v: &'a str) -> (id: usize)
        ensures
            id == id_of(old(self)@, v@),
            final(self)@ == interned(old(self)@, v@),
            old(self)@.is_prefix_of(final(self)@),
            distinct(old(self)@) ==> distinct(final(self)@),
    {
        proof {
            lemma_interned_prefix(self@, v@);
            if distinct(self@) {
                lemma_interned(self@, v@);
            }
        }
        let ghost names = self@;
        let mut i: usize = 0;
        while i < self.list.len()
            invariant
                0 <= i <= self.list.len(),
                names == self@,
                names == old(self)@,
                names.len() == self.list@.len(),
                find(names, v@, i as nat) is None,
            decreases self.list.len() - i,
        {
            if str_eq(self.list[i], v) {
                proof {
                    assert(names[i as int] == self.list@[i as int]@);
                    lemma_find(names, v@, i as nat);
                    lemma_find(names, v@, names.len());
                }
                return i;
            }
            i += 1;
        }
        let id = self.list.len();
        self.list.push(v);
        proof {
            assert(self@ =~= names.push(v@));
        }
        id
    }
}

} // verus!
