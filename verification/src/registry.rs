//! The client registry: a mapping from client identifier to the handle of
//! that client's outbound connection.
//!
//! The registry is stored as a vector of key/handle pairs with pairwise
//! distinct keys; its abstract view is the finite map from identifier
//! (as a sequence of characters) to handle.

use vstd::prelude::*;

verus! {

/// A token standing for one client's send-capable connection endpoint.
/// The transport layer outside this crate owns the real endpoints and
/// addresses them by these tokens; the registry only stores and returns
/// them.
#[derive(Clone, Copy, PartialEq, Eq, Structural, Debug)]
pub struct Handle {
    pub token: u64,
}

/// The shared mapping from client identifier to connection handle.
/// Keys are unique; entries are created when a client connects and
/// destroyed when its connection closes or fails.
pub struct Registry {
    entries: Vec<(String, Handle)>,
}

/// All keys in an entry sequence are pairwise distinct.
pub open spec fn keys_unique(s: Seq<(String, Handle)>) -> bool {
    forall|i: int, j: int| 0 <= i < j < s.len() ==> s[i].0@ != s[j].0@
}

/// The finite map an entry sequence denotes: later entries win, though
/// under `keys_unique` there is never a conflict.
pub open spec fn map_of(s: Seq<(String, Handle)>) -> Map<Seq<char>, Handle>
    decreases s.len(),
{
    if s.len() == 0 {
        Map::empty()
    } else {
        map_of(s.drop_last()).insert(s.last().0@, s.last().1)
    }
}

/// A key is in the map exactly when some entry carries it.
pub proof fn lemma_map_of_contains(s: Seq<(String, Handle)>, k: Seq<char>)
    ensures
        map_of(s).contains_key(k) <==> exists|i: int| 0 <= i < s.len() && s[i].0@ == k,
    decreases s.len(),
{
    if s.len() > 0 {
        lemma_map_of_contains(s.drop_last(), k);
        if map_of(s).contains_key(k) && s.last().0@ != k {
            let i = choose|i: int| 0 <= i < s.drop_last().len() && s.drop_last()[i].0@ == k;
            assert(s[i].0@ == k);
        }
        if exists|i: int| 0 <= i < s.len() && s[i].0@ == k {
            let i = choose|i: int| 0 <= i < s.len() && s[i].0@ == k;
            if i < s.len() - 1 {
                assert(s.drop_last()[i].0@ == k);
            }
        }
    }
}

/// Under unique keys, the entry at any index gives the map's value at its key.
pub proof fn lemma_map_of_index(s: Seq<(String, Handle)>, i: int)
    requires
        keys_unique(s),
        0 <= i < s.len(),
    ensures
        map_of(s).contains_key(s[i].0@),
        map_of(s)[s[i].0@] == s[i].1,
    decreases s.len(),
{
    if i == s.len() - 1 {
    } else {
        assert(keys_unique(s.drop_last())) by {
            assert(forall|x: int, y: int|
                0 <= x < y < s.drop_last().len() ==> s.drop_last()[x].0@ != s.drop_last()[y].0@);
        }
        assert(s.drop_last()[i] == s[i]);
        lemma_map_of_index(s.drop_last(), i);
        assert(s[i].0@ != s.last().0@);
    }
}

/// Under unique keys, the map is finite and has exactly one element per entry.
pub proof fn lemma_map_of_len(s: Seq<(String, Handle)>)
    requires
        keys_unique(s),
    ensures
        map_of(s).dom().finite(),
        map_of(s).len() == s.len(),
    decreases s.len(),
{
    if s.len() == 0 {
    } else {
        assert(keys_unique(s.drop_last()));
        lemma_map_of_len(s.drop_last());
        lemma_map_of_contains(s.drop_last(), s.last().0@);
        assert(forall|i: int| 0 <= i < s.drop_last().len() ==> s.drop_last()[i] == s[i]);
        assert(!map_of(s.drop_last()).contains_key(s.last().0@));
        vstd::set::axiom_set_insert_finite(map_of(s.drop_last()).dom(), s.last().0@);
        vstd::set::axiom_set_insert_len(map_of(s.drop_last()).dom(), s.last().0@);
    }
}

impl Registry {
    /// The abstract contents: identifier (as a character sequence) to handle.
    pub closed spec fn view(&self) -> Map<Seq<char>, Handle> {
        map_of(self.entries@)
    }

    /// Internal well-formedness: no identifier occurs twice.
    pub closed spec fn inv(&self) -> bool {
        keys_unique(self.entries@)
    }

    /// A well-formed registry's view is a finite map.
    pub proof fn lemma_view_finite(&self)
        requires
            self.inv(),
        ensures
            self@.dom().finite(),
    {
        lemma_map_of_len(self.entries@);
    }

    /// An empty registry: the state at server start.
    pub fn new() -> (r: Registry)
        ensures
            r.inv(),
            r@ == Map::<Seq<char>, Handle>::empty(),
    {
        let r = Registry { entries: Vec::new() };
        r
    }

    /// The number of registered clients.
    pub fn len(&self) -> (n: usize)
        requires
            self.inv(),
        ensures
            n == self@.len(),
    {
        proof {
            lemma_map_of_len(self.entries@);
        }
        self.entries.len()
    }

    /// Whether an identifier is currently registered.
    pub fn contains(&self, id: &String) -> (b: bool)
        requires
            self.inv(),
        ensures
            b == self@.contains_key(id@),
    {
        match self.find_index(id) {
            Some(_) => true,
            None => false,
        }
    }

    /// The index of the entry carrying `id`, if any.
    fn find_index(&self, id: &String) -> (r: Option<usize>)
        requires
            self.inv(),
        ensures
            match r {
                Some(i) => i < self.entries@.len() && self.entries@[i as int].0@ == id@
                    && self@.contains_key(id@),
                None => !self@.contains_key(id@),
            },
    {
        let n = self.entries.len();
        let mut i: usize = 0;
        while i < n
            invariant
                n == self.entries@.len(),
                i <= n,
                forall|j: int| 0 <= j < i ==> self.entries@[j].0@ != id@,
            decreases n - i,
        {
            if self.entries[i].0.eq(id) {
                proof {
                    lemma_map_of_contains(self.entries@, id@);
                }
                return Some(i);
            }
            i = i + 1;
        }
        proof {
            lemma_map_of_contains(self.entries@, id@);
        }
        None
    }

    /// Inserts `id -> h`. Identifier collisions cannot occur because
    /// identifiers are drawn from a monotonic counter under the same
    /// exclusion domain as the insertion, so a present key is ruled out
    /// by precondition.
    pub fn register(&mut self, id: String, h: Handle)
        requires
            old(self).inv(),
            !old(self)@.contains_key(id@),
        ensures
            final(self).inv(),
            final(self)@ == old(self)@.insert(id@, h),
            final(self)@.len() == old(self)@.len() + 1,
            final(self)@.dom().finite(),
    {
        proof {
            lemma_map_of_contains(self.entries@, id@);
        }
        let ghost s0 = self.entries@;
        self.entries.push((id, h));
        proof {
            assert(self.entries@.drop_last() =~= s0);
            lemma_map_of_len(self.entries@);
            lemma_map_of_len(s0);
        }
    }

    /// Removes `id` if present; a no-op when it is absent, so racing
    /// disconnect and read-error paths may both call it safely.
    pub fn deregister(&mut self, id: &String)
        requires
            old(self).inv(),
        ensures
            final(self).inv(),
            final(self)@ == old(self)@.remove(id@),
    {
        let ghost s0 = self.entries@;
        match self.find_index(id) {
            Some(i) => {
                self.entries.remove(i);
                proof {
                    lemma_map_of_remove(s0, i as int);
                }
            },
            None => {
                proof {
                    assert(self@ =~= self@.remove(id@));
                }
            },
        }
    }

    /// Looks an identifier up; returns the very handle that was registered
    /// under it, or `None` when the identifier is unknown.
    pub fn resolve(&self, id: &String) -> (r: Option<Handle>)
        requires
            self.inv(),
        ensures
            match r {
                Some(h) => self@.contains_key(id@) && h == self@[id@],
                None => !self@.contains_key(id@),
            },
    {
        match self.find_index(id) {
            Some(i) => {
                proof {
                    lemma_map_of_index(self.entries@, i as int);
                }
                Some(self.entries[i].1)
            },
            None => None,
        }
    }
}

/// Law: registering an identifier and then resolving it immediately yields
/// exactly the handle that was registered.
pub proof fn lemma_register_resolve(reg: Map<Seq<char>, Handle>, id: Seq<char>, h: Handle)
    ensures
        reg.insert(id, h).contains_key(id),
        reg.insert(id, h)[id] == h,
{
}

/// Removing the entry at `i` removes exactly its key from the map.
pub proof fn lemma_map_of_remove(s: Seq<(String, Handle)>, i: int)
    requires
        keys_unique(s),
        0 <= i < s.len(),
    ensures
        keys_unique(s.remove(i)),
        map_of(s.remove(i)) == map_of(s).remove(s[i].0@),
    decreases s.len(),
{
    s.remove_ensures(i);
    assert(keys_unique(s.remove(i)));
    if i == s.len() - 1 {
        assert(s.remove(i) =~= s.drop_last());
        assert(keys_unique(s.drop_last()));
        lemma_map_of_contains(s.drop_last(), s.last().0@);
        assert(!map_of(s.drop_last()).contains_key(s.last().0@));
        assert(map_of(s.drop_last()) =~= map_of(s).remove(s.last().0@));
    } else {
        assert(keys_unique(s.drop_last()));
        assert(s.remove(i).drop_last() =~= s.drop_last().remove(i));
        assert(s.remove(i).last() == s.last());
        lemma_map_of_remove(s.drop_last(), i);
        assert(s.drop_last()[i] == s[i]);
        assert(map_of(s.remove(i))
            == map_of(s.drop_last()).remove(s[i].0@).insert(s.last().0@, s.last().1));
        assert(s[i].0@ != s.last().0@);
        assert(map_of(s.drop_last()).remove(s[i].0@).insert(s.last().0@, s.last().1)
            =~= map_of(s.drop_last()).insert(s.last().0@, s.last().1).remove(s[i].0@));
    }
}

} // verus!
