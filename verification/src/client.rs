//! Per-client accounts and the registry that creates them on first use.

use vstd::prelude::*;

verus! {

/// One client's account. Balances are fixed-point integers with four
/// fractional digits.
#[derive(Clone, Copy, Debug, PartialEq, Eq, Structural)]
pub struct Client {
    pub id: u16,
    pub available: i64,
    pub held: i64,
    pub total: i64,
    pub locked: bool,
}

impl Client {
    /// The zeroed, unlocked account a client starts with.
    pub open spec fn initial(id: u16) -> Client {
        Client { id, available: 0, held: 0, total: 0, locked: false }
    }

    /// Creates the account a new client starts with.
    pub fn new(id: u16) -> (c: Client)
        ensures
            c == Client::initial(id),
    {
        Client { id, available: 0, held: 0, total: 0, locked: false }
    }
}

/// The client registry: at most one account per client id.
pub struct Clients {
    accounts: Vec<Client>,
}

impl Clients {
    /// No two accounts share a client id.
    pub closed spec fn wf(self) -> bool {
        forall|i: int, j: int|
            0 <= i < j < self.accounts@.len() ==> (#[trigger] self.accounts@[i]).id != (
            #[trigger] self.accounts@[j]).id
    }

    /// The registry holds an account for `id`.
    pub closed spec fn has(self, id: u16) -> bool {
        exists|i: int| 0 <= i < self.accounts@.len() && (#[trigger] self.accounts@[i]).id == id
    }

    /// The account registered for `id` (meaningful when `has(id)`).
    pub closed spec fn at(self, id: u16) -> Client {
        self.accounts@[choose|i: int|
            0 <= i < self.accounts@.len() && (#[trigger] self.accounts@[i]).id == id]
    }

    /// The accounts in order of creation.
    pub closed spec fn seq(self) -> Seq<Client> {
        self.accounts@
    }

    /// An empty registry.
    pub fn new() -> (c: Clients)
        ensures
            c.wf(),
            forall|id: u16| !c.has(id),
            c.seq() == Seq::<Client>::empty(),
    {
        Clients { accounts: Vec::new() }
    }

    fn index_of(&self, id: u16) -> (r: Option<usize>)
        ensures
            (match r {
                Option::Some(i) => i < self.accounts@.len() && self.accounts@[i as int].id == id
                    && self.has(id),
                Option::None => !self.has(id),
            }),
    {
        let mut i: usize = 0;
        while i < self.accounts.len()
            invariant
                0 <= i <= self.accounts@.len(),
                forall|j: int| 0 <= j < i ==> (#[trigger] self.accounts@[j]).id != id,
            decreases self.accounts@.len() - i,
        {
            if self.accounts[i].id == id {
                return Option::Some(i);
            }
            i = i + 1;
        }
        Option::None
    }

    proof fn lemma_at_index(self, id: u16, i: int)
        requires
            self.wf(),
            0 <= i < self.accounts@.len(),
            self.accounts@[i].id == id,
        ensures
            self.has(id),
            self.at(id) == self.accounts@[i],
    {
        let j = choose|j: int|
            0 <= j < self.accounts@.len() && (#[trigger] self.accounts@[j]).id == id;
        if i != j {
            assert((self.accounts@[i]).id != (self.accounts@[j]).id);
        }
    }

    /// Returns the account for `id`, if one exists.
    pub fn find_client(&self, id: u16) -> (r: Option<Client>)
        requires
            self.wf(),
        ensures
            (match r {
                Option::Some(c) => self.has(id) && c == self.at(id) && c.id == id,
                Option::None => !self.has(id),
            }),
    {
        match self.index_of(id) {
            Option::Some(i) => {
                let c = self.accounts[i];
                proof {
                    self.lemma_at_index(id, i as int);
                }
                Option::Some(c)
            },
            Option::None => Option::None,
        }
    }

    /// Ensures an account for `id` exists, creating the zeroed default when
    /// absent; every other client is untouched.
    pub fn add_client(&mut self, id: u16) -> (c: Client)
        requires
            old(self).wf(),
        ensures
            c == final(self).at(id),
            c.id == id,
            final(self).wf(),
            final(self).has(id),
            final(self).at(id) == (if old(self).has(id) {
                old(self).at(id)
            } else {
                Client::initial(id)
            }),
            forall|o: u16| o != id ==> final(self).has(o) == old(self).has(o),
            forall|o: u16|
                o != id && old(self).has(o) ==> final(self).at(o) == old(self).at(o),
            final(self).seq() == (if old(self).has(id) {
                old(self).seq()
            } else {
                old(self).seq().push(Client::initial(id))
            }),
    {
        match self.index_of(id) {
            Option::Some(i) => {
                proof {
                    self.lemma_at_index(id, i as int);
                }
                self.accounts[i]
            },
            Option::None => {
                let ghost pre = *self;
                let c = Client::new(id);
                self.accounts.push(c);
                proof {
                    let n = pre.accounts@.len() as int;
                    assert(self.accounts@ =~= pre.accounts@.push(Client::initial(id)));
                    assert forall|i: int, j: int| 0 <= i < j < self.accounts@.len() implies (
                    #[trigger] self.accounts@[i]).id != (#[trigger] self.accounts@[j]).id by {
                        if j == n {
                            assert(self.accounts@[i] == pre.accounts@[i]);
                            if self.accounts@[i].id == id {
                                assert(pre.has(id));
                            }
                        }
                    }
                    self.lemma_at_index(id, n);
                    assert forall|o: u16| o != id implies self.has(o) == pre.has(o) by {
                        if self.has(o) {
                            let w = choose|w: int|
                                0 <= w < self.accounts@.len() && (#[trigger] self.accounts@[w]).id
                                    == o;
                            assert(w != n);
                            assert(pre.accounts@[w].id == o);
                        }
                        if pre.has(o) {
                            let w = choose|w: int|
                                0 <= w < pre.accounts@.len() && (#[trigger] pre.accounts@[w]).id
                                    == o;
                            assert(self.accounts@[w].id == o);
                        }
                    }
                    assert forall|o: u16| o != id && pre.has(o) implies self.at(o)
                        == pre.at(o) by {
                        let w = choose|w: int|
                            0 <= w < pre.accounts@.len() && (#[trigger] pre.accounts@[w]).id == o;
                        assert(self.accounts@[w].id == o);
                        self.lemma_at_index(o, w);
                        pre.lemma_at_index(o, w);
                    }
                }
                c
            },
        }
    }

    /// Replaces the account registered for `id`; every other client is
    /// untouched.
    pub fn set_client(&mut self, id: u16, c: Client)
        requires
            old(self).wf(),
            old(self).has(id),
            c.id == id,
        ensures
            final(self).wf(),
            final(self).has(id),
            final(self).at(id) == c,
            forall|o: u16| o != id ==> final(self).has(o) == old(self).has(o),
            forall|o: u16|
                o != id && old(self).has(o) ==> final(self).at(o) == old(self).at(o),
            final(self).seq().len() == old(self).seq().len(),
    {
        match self.index_of(id) {
            Option::Some(i) => {
                let ghost pre = *self;
                self.accounts[i] = c;
                proof {
                    let n = pre.accounts@.len() as int;
                    assert(self.accounts@ =~= pre.accounts@.update(i as int, c));
                    assert forall|i2: int, j2: int| 0 <= i2 < j2 < self.accounts@.len() implies (
                    #[trigger] self.accounts@[i2]).id != (#[trigger] self.accounts@[j2]).id by {
                        assert(pre.accounts@[i2].id != pre.accounts@[j2].id);
                        if i2 == i as int {
                            assert(self.accounts@[i2].id == id == pre.accounts@[i2].id);
                        }
                        if j2 == i as int {
                            assert(self.accounts@[j2].id == id == pre.accounts@[j2].id);
                        }
                    }
                    self.lemma_at_index(id, i as int);
                    assert forall|o: u16| o != id implies self.has(o) == pre.has(o) by {
                        if self.has(o) {
                            let w = choose|w: int|
                                0 <= w < self.accounts@.len() && (#[trigger] self.accounts@[w]).id
                                    == o;
                            assert(w != i as int);
                            assert(pre.accounts@[w].id == o);
                        }
                        if pre.has(o) {
                            let w = choose|w: int|
                                0 <= w < pre.accounts@.len() && (#[trigger] pre.accounts@[w]).id
                                    == o;
                            assert(w != i as int);
                            assert(self.accounts@[w].id == o);
                        }
                    }
                    assert forall|o: u16| o != id && pre.has(o) implies self.at(o)
                        == pre.at(o) by {
                        let w = choose|w: int|
                            0 <= w < pre.accounts@.len() && (#[trigger] pre.accounts@[w]).id == o;
                        assert(w != i as int);
                        assert(self.accounts@[w].id == o);
                        self.lemma_at_index(o, w);
                        pre.lemma_at_index(o, w);
                    }
                }
            },
            Option::None => {
                proof {
                    assert(false);
                }
            },
        }
    }

    /// Every member of the account sequence is a registered account.
    pub proof fn lemma_seq_member(self, i: int)
        requires
            self.wf(),
            0 <= i < self.seq().len(),
        ensures
            self.has(self.seq()[i].id),
            self.at(self.seq()[i].id) == self.seq()[i],
    {
        self.lemma_at_index(self.seq()[i].id, i);
    }

    /// The accounts as a vector, in order of creation.
    pub fn accounts_vec(&self) -> (r: &Vec<Client>)
        ensures
            r@ == self.seq(),
    {
        &self.accounts
    }
}

} // verus!
