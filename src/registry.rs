//! The directory of live agents: identity to outbound sink.
use vstd::prelude::*;

verus! {

/// Why an insertion was refused.
#[derive(Debug, PartialEq, Eq, Structural)]
pub enum RegistryError {
    /// The identity is already present: fresh identities never collide, so
    /// this is an internal invariant violation.
    IdentityTaken,
}

/// Maps agent identities to the handles that deliver frames to them.
pub struct Registry<S> {
    entries: Vec<(String, S)>,
    contents: Ghost<Map<Seq<char>, S>>,
}

impl<S> View for Registry<S> {
    type V = Map<Seq<char>, S>;

    closed spec fn view(&self) -> Map<Seq<char>, S> {
        self.contents@
    }
}

impl<S> Registry<S> {
    /// The registered identities, in the order in which they are held.
    pub closed spec fn identities(&self) -> Seq<Seq<char>> {
        self.entries@.map_values(|e: (String, S)| e.0@)
    }

    /// The entries agree with the view and no identity occurs twice.
    pub closed spec fn wf(&self) -> bool {
        &&& forall|i: int|
            0 <= i < self.entries.len() ==> #[trigger] self.contents@.contains_key(
                self.entries@[i].0@,
            ) && self.contents@[self.entries@[i].0@] == self.entries@[i].1
        &&& forall|k: Seq<char>|
            #[trigger] self.contents@.contains_key(k) ==> exists|i: int|
                0 <= i < self.entries.len() && self.entries@[i].0@ == k
        &&& forall|i: int, j: int|
            0 <= i < self.entries.len() && 0 <= j < self.entries.len() && i != j
                ==> self.entries@[i].0@ != self.entries@[j].0@
    }

    /// No two entries of a well-formed registry share an identity.
    pub proof fn lemma_identities_distinct(&self)
        requires
            self.wf(),
        ensures
            forall|i: int, j: int|
                0 <= i < self.identities().len() && 0 <= j < self.identities().len() && i != j
                    ==> self.identities()[i] != self.identities()[j],
            forall|k: Seq<char>| self@.contains_key(k) <==> self.identities().contains(k),
    {
        assert forall|k: Seq<char>| self@.contains_key(k) <==> self.identities().contains(k) by {
            if self@.contains_key(k) {
                let i = choose|i: int| 0 <= i < self.entries.len() && self.entries@[i].0@ == k;
                assert(self.identities()[i] == k);
            }
            if self.identities().contains(k) {
                let i = choose|i: int|
                    0 <= i < self.identities().len() && self.identities()[i] == k;
                assert(self.contents@.contains_key(self.entries@[i].0@));
            }
        }
    }

    /// An empty registry.
    pub fn new() -> (r: Self)
        ensures
            r.wf(),
            r@ == Map::<Seq<char>, S>::empty(),
    {
        Registry { entries: Vec::new(), contents: Ghost(Map::empty()) }
    }

    /// The position of `id` among the entries.
    fn position(&self, id: &String) -> (r: Option<usize>)
        requires
            self.wf(),
        ensures
            r is None <==> !self@.contains_key(id@),
            r matches Some(i) ==> i < self.entries.len() && self.entries@[i as int].0@ == id@,
    {
        let mut i: usize = 0;
        while i < self.entries.len()
            invariant
                self.wf(),
                i <= self.entries.len(),
                forall|j: int| 0 <= j < i ==> self.entries@[j].0@ != id@,
            decreases self.entries.len() - i,
        {
            if self.entries[i].0 == *id {
                return Some(i);
            }
            i = i + 1;
        }
        None
    }

    /// Whether `id` is registered.
    pub fn contains(&self, id: &String) -> (r: bool)
        requires
            self.wf(),
        ensures
            r == self@.contains_key(id@),
    {
        self.position(id).is_some()
    }

    /// The sink registered under `id`; absence is the normal offline case.
    pub fn lookup(&self, id: &String) -> (r: Option<&S>)
        requires
            self.wf(),
        ensures
            r is None <==> !self@.contains_key(id@),
            r matches Some(s) ==> *s == self@[id@],
    {
        match self.position(id) {
            Some(i) => Some(&self.entries[i].1),
            None => None,
        }
    }

    /// Registers `sink` under `id`; refused, with nothing changed, when `id`
    /// is already present.
    pub fn insert(&mut self, id: String, sink: S) -> (r: Result<(), RegistryError>)
        requires
            old(self).wf(),
        ensures
            final(self).wf(),
            old(self)@.contains_key(id@) ==> r == Err::<(), RegistryError>(
                RegistryError::IdentityTaken,
            ) && final(self)@ == old(self)@,
            !old(self)@.contains_key(id@) ==> r is Ok && final(self)@ == old(self)@.insert(
                id@,
                sink,
            ),
    {
        if self.position(&id).is_some() {
            return Err(RegistryError::IdentityTaken);
        }
        let ghost key = id@;
        let ghost before = self.entries@;
        self.entries.push((id, sink));
        self.contents = Ghost(self.contents@.insert(key, sink));
        proof {
            assert forall|k: Seq<char>| #[trigger] self.contents@.contains_key(k) implies exists|
                i: int,
            | 0 <= i < self.entries.len() && self.entries@[i].0@ == k by {
                if k == key {
                    assert(self.entries@[before.len() as int].0@ == k);
                } else {
                    let i = choose|i: int| 0 <= i < before.len() && before[i].0@ == k;
                    assert(self.entries@[i].0@ == k);
                }
            }
        }
        Ok(())
    }

    /// Removes `id`; removing an absent identity changes nothing.
    pub fn remove(&mut self, id: &String)
        requires
            old(self).wf(),
        ensures
            final(self).wf(),
            final(self)@ == old(self)@.remove(id@),
    {
        match self.position(id) {
            None => {
                assert(self.contents@.remove(id@) =~= self.contents@);
            },
            Some(i) => {
                let ghost before = self.entries@;
                let ghost key = id@;
                let _ = self.entries.remove(i);
                self.contents = Ghost(self.contents@.remove(key));
                proof {
                    assert forall|j: int| 0 <= j < self.entries.len() implies #[trigger]
                        self.contents@.contains_key(self.entries@[j].0@)
                            && self.contents@[self.entries@[j].0@] == self.entries@[j].1 by {
                        if j < i {
                            assert(self.entries@[j] == before[j]);
                        } else {
                            assert(self.entries@[j] == before[j + 1]);
                        }
                    }
                    assert forall|k: Seq<char>| #[trigger]
                        self.contents@.contains_key(k) implies exists|j: int|
                        0 <= j < self.entries.len() && self.entries@[j].0@ == k by {
                        let j = choose|j: int| 0 <= j < before.len() && before[j].0@ == k;
                        if j < i {
                            assert(self.entries@[j] == before[j]);
                        } else {
                            assert(self.entries@[j - 1] == before[j]);
                        }
                    }
                    assert forall|a: int, b: int|
                        0 <= a < self.entries.len() && 0 <= b < self.entries.len() && a != b
                            implies self.entries@[a].0@ != self.entries@[b].0@ by {
                        let a2 = if a < i { a } else { a + 1 };
                        let b2 = if b < i { b } else { b + 1 };
                        assert(self.entries@[a] == before[a2]);
                        assert(self.entries@[b] == before[b2]);
                    }
                }
            },
        }
    }
}

} // verus!
