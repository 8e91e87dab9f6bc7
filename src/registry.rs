use vstd::prelude::*;

verus! {

/// The identities of a sequence of strings, as plain character sequences.
pub open spec fn ids_of(v: Seq<String>) -> Seq<Seq<char>> {
    v.map_values(|s: String| s@)
}

/// A mapping from service identity to the connection that bridges it.
///
/// Entries are kept in order of insertion; no identity occurs twice.
pub struct Registry<C> {
    ids: Vec<String>,
    connections: Vec<C>,
}

impl<C> Registry<C> {
    /// The identities held, in order of insertion.
    pub closed spec fn view(&self) -> Seq<Seq<char>> {
        ids_of(self.ids@)
    }

    /// Each identity has exactly one connection, and no identity is repeated.
    pub closed spec fn wf(&self) -> bool {
        &&& self.ids@.len() == self.connections@.len()
        &&& self.view().no_duplicates()
    }

    /// No identity is held twice.
    pub proof fn lemma_unique(&self)
        requires
            self.wf(),
        ensures
            self.view().no_duplicates(),
            self.stored().len() == self.view().len(),
    {
    }

    /// The connections held, entry by entry in the order of `view`.
    pub closed spec fn stored(&self) -> Seq<C> {
        self.connections@
    }

    /// A registry without entries.
    pub fn new() -> (r: Registry<C>)
        ensures
            r.wf(),
            r.view() == Seq::<Seq<char>>::empty(),
            r.stored() == Seq::<C>::empty(),
    {
        let r = Registry { ids: Vec::new(), connections: Vec::new() };
        assert(r.view() =~= Seq::<Seq<char>>::empty());
        r
    }

    /// Number of entries.
    pub fn len(&self) -> (r: usize)
        requires
            self.wf(),
        ensures
            r == self.view().len(),
    {
        self.ids.len()
    }

    /// Whether a connection for `id` is held.
    pub fn contains(&self, id: &String) -> (r: bool)
        requires
            self.wf(),
        ensures
            r == self.view().contains(id@),
    {
        let mut i: usize = 0;
        while i < self.ids.len()
            invariant
                0 <= i <= self.ids@.len(),
                forall|j: int| 0 <= j < i ==> self.view()[j] != id@,
            decreases self.ids@.len() - i,
        {
            if self.ids[i] == *id {
                assert(self.view()[i as int] == id@);
                return true;
            }
            i = i + 1;
        }
        false
    }

    /// Adds the connection of a service that has none yet.
    pub fn insert(&mut self, id: String, connection: C)
        requires
            old(self).wf(),
            !old(self).view().contains(id@),
        ensures
            final(self).wf(),
            final(self).view() == old(self).view().push(id@),
            final(self).stored() == old(self).stored().push(connection),
    {
        self.ids.push(id);
        self.connections.push(connection);
        assert(self.view() =~= old(self).view().push(id@));
    }

    /// The identity of entry `i`.
    pub fn id(&self, i: usize) -> (r: &String)
        requires
            self.wf(),
            i < self.view().len(),
        ensures
            r@ == self.view()[i as int],
    {
        &self.ids[i]
    }

    /// The connection of entry `i`.
    pub fn connection(&self, i: usize) -> (r: &C)
        requires
            self.wf(),
            i < self.view().len(),
        ensures
            *r == self.stored()[i as int],
    {
        &self.connections[i]
    }

    /// A copy of the identities held, in order of insertion.
    pub fn ids(&self) -> (r: Vec<String>)
        requires
            self.wf(),
        ensures
            ids_of(r@) == self.view(),
    {
        let mut r: Vec<String> = Vec::new();
        let mut i: usize = 0;
        while i < self.ids.len()
            invariant
                0 <= i <= self.ids@.len(),
                ids_of(r@) == self.view().take(i as int),
            decreases self.ids@.len() - i,
        {
            let s = self.ids[i].clone();
            proof {
                let prev = r@;
                assert(ids_of(prev.push(s)) =~= ids_of(prev).push(s@));
            }
            r.push(s);
            assert(ids_of(r@) =~= self.view().take(i + 1));
            i = i + 1;
        }
        assert(self.view().take(i as int) =~= self.view());
        r
    }
}

} // verus!
