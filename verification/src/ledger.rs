//! The ledger state machine: applies each transaction kind to the client
//! registry and the stored entries, maintaining `total == available + held`
//! for every account.

use vstd::prelude::*;

use crate::client::{Client, Clients};
use crate::transaction::{PaymentStatus, Transaction, TxType};

verus! {

/// Why applying a transaction failed.
#[derive(Debug, PartialEq)]
pub enum LedgerError {
    /// A dispute, resolve or chargeback names a client with no account.
    ClientNotFound(u16),
    /// A deposit or withdrawal carries no amount.
    MalformedRequest,
    /// A withdrawal asks for more than the client has available.
    NotEnoughFunds { client: u16, requested: i64, available: i64 },
    /// A dispute, resolve or chargeback names no entry fit for the step.
    InvalidDispute(u32),
    /// Applying the amount would take a balance outside the fixed-point range.
    BalanceOverflow,
}

/// The stored record of an accepted deposit or withdrawal, referenced by
/// later disputes, resolves and chargebacks.
#[derive(Clone, Copy, Debug, PartialEq, Eq, Structural)]
pub struct LedgerEntry {
    pub tx_id: u32,
    pub client_id: u16,
    pub tx_type: TxType,
    pub amount: i64,
    pub status: PaymentStatus,
}

/// The ledger: every client's account and every stored entry.
pub struct Ledger {
    ledger: Vec<LedgerEntry>,
    clients: Clients,
}

/// `x` fits in a fixed-point balance.
pub open spec fn fits_i64(x: int) -> bool {
    i64::MIN <= x <= i64::MAX
}

/// The account a deposit or withdrawal works on: the registered one, or a
/// fresh zeroed account for a new client.
pub open spec fn client_or_new(l: Ledger, id: u16) -> Client {
    if l.has_client(id) {
        l.client(id)
    } else {
        Client::initial(id)
    }
}

/// Every client other than `id` keeps its account (or absence) unchanged.
pub open spec fn clients_same_except(pre: Ledger, post: Ledger, id: u16) -> bool {
    forall|o: u16|
        o != id ==> (#[trigger] post.has_client(o)) == pre.has_client(o) && (pre.has_client(o)
            ==> post.client(o) == pre.client(o))
}

/// Every entry other than `tx` is kept unchanged.
pub open spec fn entries_same_except(pre: Ledger, post: Ledger, tx: u32) -> bool {
    forall|t: u32|
        t != tx ==> (#[trigger] post.has_entry(t)) == pre.has_entry(t) && (pre.has_entry(t)
            ==> post.entry(t) == pre.entry(t))
}

/// Every entry is kept unchanged.
pub open spec fn entries_same(pre: Ledger, post: Ledger) -> bool {
    forall|t: u32|
        (#[trigger] post.has_entry(t)) == pre.has_entry(t) && (pre.has_entry(t) ==> post.entry(t)
            == pre.entry(t))
}

/// The failed operation only got (or created) the client's account: the
/// account exists afterwards, unchanged in content, and nothing else moved.
pub open spec fn account_created_only(pre: Ledger, post: Ledger, id: u16) -> bool {
    &&& post.has_client(id)
    &&& post.client(id) == client_or_new(pre, id)
    &&& clients_same_except(pre, post, id)
    &&& entries_same(pre, post)
}

/// Crediting `a` keeps both touched balances in range.
pub open spec fn deposit_fits(c: Client, a: int) -> bool {
    fits_i64(c.available + a) && fits_i64(c.total + a)
}

/// Debiting `a` keeps both touched balances in range.
pub open spec fn withdraw_fits(c: Client, a: int) -> bool {
    fits_i64(c.available - a) && fits_i64(c.total - a)
}

/// Holding `a` keeps both touched balances in range.
pub open spec fn dispute_fits(c: Client, a: int) -> bool {
    fits_i64(c.held + a) && fits_i64(c.available - a)
}

/// Releasing `a` keeps both touched balances in range.
pub open spec fn resolve_fits(c: Client, a: int) -> bool {
    fits_i64(c.held - a) && fits_i64(c.available + a)
}

/// Reversing `a` keeps both touched balances in range.
pub open spec fn chargeback_fits(c: Client, a: int) -> bool {
    fits_i64(c.held - a) && fits_i64(c.total - a)
}

/// How a deposit relates the ledger before and after it to its result:
/// the client's account is created if absent; with an amount `a` in range,
/// `available` and `total` grow by `a` and an undisputed entry is stored
/// under the transaction id, replacing any entry stored there before.
pub open spec fn deposit_rel(
    pre: Ledger,
    t: Transaction,
    post: Ledger,
    r: Result<(), LedgerError>,
) -> bool {
    let id = t.client_id;
    let c0 = client_or_new(pre, id);
    match r {
        Result::Ok(_) => {
            &&& t.amount is Some
            &&& deposit_fits(c0, t.amount->Some_0 as int)
            &&& post.has_client(id)
            &&& post.client(id).id == id
            &&& post.client(id).available == c0.available + t.amount->Some_0
            &&& post.client(id).held == c0.held
            &&& post.client(id).total == c0.total + t.amount->Some_0
            &&& post.client(id).locked == c0.locked
            &&& clients_same_except(pre, post, id)
            &&& post.has_entry(t.tx_id)
            &&& post.entry(t.tx_id) == (LedgerEntry {
                tx_id: t.tx_id,
                client_id: id,
                tx_type: TxType::Deposit,
                amount: t.amount->Some_0,
                status: PaymentStatus::Undisputed,
            })
            &&& entries_same_except(pre, post, t.tx_id)
        },
        Result::Err(e) => match e {
            LedgerError::MalformedRequest => t.amount is None && account_created_only(
                pre,
                post,
                id,
            ),
            LedgerError::BalanceOverflow => t.amount is Some && !deposit_fits(
                c0,
                t.amount->Some_0 as int,
            ) && account_created_only(pre, post, id),
            _ => false,
        },
    }
}

/// How a withdrawal relates the ledger before and after it to its result:
/// the account is created if absent; with an amount `a` present, covered
/// by `available` and in range, `available` and `total` shrink by `a` and
/// an undisputed entry is stored; asking for more than `available` fails
/// with the requested and available values as they were.
pub open spec fn withdraw_rel(
    pre: Ledger,
    t: Transaction,
    post: Ledger,
    r: Result<(), LedgerError>,
) -> bool {
    let id = t.client_id;
    let c0 = client_or_new(pre, id);
    match r {
        Result::Ok(_) => {
            &&& t.amount is Some
            &&& c0.available >= t.amount->Some_0
            &&& withdraw_fits(c0, t.amount->Some_0 as int)
            &&& post.has_client(id)
            &&& post.client(id).id == id
            &&& post.client(id).available == c0.available - t.amount->Some_0
            &&& post.client(id).held == c0.held
            &&& post.client(id).total == c0.total - t.amount->Some_0
            &&& post.client(id).locked == c0.locked
            &&& clients_same_except(pre, post, id)
            &&& post.has_entry(t.tx_id)
            &&& post.entry(t.tx_id) == (LedgerEntry {
                tx_id: t.tx_id,
                client_id: id,
                tx_type: TxType::Withdrawal,
                amount: t.amount->Some_0,
                status: PaymentStatus::Undisputed,
            })
            &&& entries_same_except(pre, post, t.tx_id)
        },
        Result::Err(e) => match e {
            LedgerError::MalformedRequest => t.amount is None && account_created_only(
                pre,
                post,
                id,
            ),
            LedgerError::NotEnoughFunds { client, requested, available } => {
                &&& t.amount is Some
                &&& c0.available < t.amount->Some_0
                &&& client == id
                &&& requested == t.amount->Some_0
                &&& available == c0.available
                &&& account_created_only(pre, post, id)
            },
            LedgerError::BalanceOverflow => {
                &&& t.amount is Some
                &&& c0.available >= t.amount->Some_0
                &&& !withdraw_fits(c0, t.amount->Some_0 as int)
                &&& account_created_only(pre, post, id)
            },
            _ => false,
        },
    }
}

/// How a dispute relates the ledger before and after it to its result:
/// the client and the referenced entry must exist; the entry's amount
/// moves from `available` to `held`, `total` is unchanged, and the entry
/// becomes disputed (with no check that it was undisputed before).
pub open spec fn dispute_rel(
    pre: Ledger,
    t: Transaction,
    post: Ledger,
    r: Result<(), LedgerError>,
) -> bool {
    let id = t.client_id;
    match r {
        Result::Ok(_) => {
            let a = pre.entry(t.tx_id).amount;
            &&& pre.has_client(id)
            &&& pre.has_entry(t.tx_id)
            &&& dispute_fits(pre.client(id), a as int)
            &&& post.has_client(id)
            &&& post.client(id).id == id
            &&& post.client(id).available == pre.client(id).available - a
            &&& post.client(id).held == pre.client(id).held + a
            &&& post.client(id).total == pre.client(id).total
            &&& post.client(id).locked == pre.client(id).locked
            &&& clients_same_except(pre, post, id)
            &&& post.has_entry(t.tx_id)
            &&& post.entry(t.tx_id) == (LedgerEntry {
                status: PaymentStatus::Disputed,
                ..pre.entry(t.tx_id)
            })
            &&& entries_same_except(pre, post, t.tx_id)
        },
        Result::Err(e) => match e {
            LedgerError::ClientNotFound(cid) => cid == id && !pre.has_client(id) && post == pre,
            LedgerError::InvalidDispute(tx) => tx == t.tx_id && pre.has_client(id)
                && !pre.has_entry(t.tx_id) && post == pre,
            LedgerError::BalanceOverflow => pre.has_client(id) && pre.has_entry(t.tx_id)
                && !dispute_fits(pre.client(id), pre.entry(t.tx_id).amount as int) && post == pre,
            _ => false,
        },
    }
}

/// How a resolve relates the ledger before and after it to its result:
/// the client and entry must exist and the entry must be disputed; the
/// entry's amount moves back from `held` to `available`, `total` is
/// unchanged, and the entry becomes undisputed again.
pub open spec fn resolve_rel(
    pre: Ledger,
    t: Transaction,
    post: Ledger,
    r: Result<(), LedgerError>,
) -> bool {
    let id = t.client_id;
    match r {
        Result::Ok(_) => {
            let a = pre.entry(t.tx_id).amount;
            &&& pre.has_client(id)
            &&& pre.has_entry(t.tx_id)
            &&& pre.entry(t.tx_id).status is Disputed
            &&& resolve_fits(pre.client(id), a as int)
            &&& post.has_client(id)
            &&& post.client(id).id == id
            &&& post.client(id).available == pre.client(id).available + a
            &&& post.client(id).held == pre.client(id).held - a
            &&& post.client(id).total == pre.client(id).total
            &&& post.client(id).locked == pre.client(id).locked
            &&& clients_same_except(pre, post, id)
            &&& post.has_entry(t.tx_id)
            &&& post.entry(t.tx_id) == (LedgerEntry {
                status: PaymentStatus::Undisputed,
                ..pre.entry(t.tx_id)
            })
            &&& entries_same_except(pre, post, t.tx_id)
        },
        Result::Err(e) => match e {
            LedgerError::ClientNotFound(cid) => cid == id && !pre.has_client(id) && post == pre,
            LedgerError::InvalidDispute(tx) => tx == t.tx_id && pre.has_client(id) && (
            !pre.has_entry(t.tx_id) || !(pre.entry(t.tx_id).status is Disputed)) && post == pre,
            LedgerError::BalanceOverflow => pre.has_client(id) && pre.has_entry(t.tx_id)
                && pre.entry(t.tx_id).status is Disputed && !resolve_fits(
                pre.client(id),
                pre.entry(t.tx_id).amount as int,
            ) && post == pre,
            _ => false,
        },
    }
}

/// How a chargeback relates the ledger before and after it to its result:
/// the client and entry must exist and the entry must be disputed; the
/// entry's amount leaves both `held` and `total`, the account is locked,
/// and the entry stays disputed.
pub open spec fn chargeback_rel(
    pre: Ledger,
    t: Transaction,
    post: Ledger,
    r: Result<(), LedgerError>,
) -> bool {
    let id = t.client_id;
    match r {
        Result::Ok(_) => {
            let a = pre.entry(t.tx_id).amount;
            &&& pre.has_client(id)
            &&& pre.has_entry(t.tx_id)
            &&& pre.entry(t.tx_id).status is Disputed
            &&& chargeback_fits(pre.client(id), a as int)
            &&& post.has_client(id)
            &&& post.client(id).id == id
            &&& post.client(id).available == pre.client(id).available
            &&& post.client(id).held == pre.client(id).held - a
            &&& post.client(id).total == pre.client(id).total - a
            &&& post.client(id).locked
            &&& clients_same_except(pre, post, id)
            &&& post.has_entry(t.tx_id)
            &&& post.entry(t.tx_id) == pre.entry(t.tx_id)
            &&& post.entry(t.tx_id).status is Disputed
            &&& entries_same(pre, post)
        },
        Result::Err(e) => match e {
            LedgerError::ClientNotFound(cid) => cid == id && !pre.has_client(id) && post == pre,
            LedgerError::InvalidDispute(tx) => tx == t.tx_id && pre.has_client(id) && (
            !pre.has_entry(t.tx_id) || !(pre.entry(t.tx_id).status is Disputed)) && post == pre,
            LedgerError::BalanceOverflow => pre.has_client(id) && pre.has_entry(t.tx_id)
                && pre.entry(t.tx_id).status is Disputed && !chargeback_fits(
                pre.client(id),
                pre.entry(t.tx_id).amount as int,
            ) && post == pre,
            _ => false,
        },
    }
}

/// Applying a transaction is the relation of its kind.
pub open spec fn apply_rel(
    pre: Ledger,
    t: Transaction,
    post: Ledger,
    r: Result<(), LedgerError>,
) -> bool {
    match t.tx_type {
        TxType::Deposit => deposit_rel(pre, t, post, r),
        TxType::Withdrawal => withdraw_rel(pre, t, post, r),
        TxType::Dispute => dispute_rel(pre, t, post, r),
        TxType::Resolve => resolve_rel(pre, t, post, r),
        TxType::Chargeback => chargeback_rel(pre, t, post, r),
    }
}

impl Ledger {
    /// The ledger holds an account for `id`.
    pub closed spec fn has_client(self, id: u16) -> bool {
        self.clients.has(id)
    }

    /// The account registered for `id` (meaningful when `has_client(id)`).
    pub closed spec fn client(self, id: u16) -> Client {
        self.clients.at(id)
    }

    /// The ledger stores an entry under `tx`.
    pub closed spec fn has_entry(self, tx: u32) -> bool {
        exists|i: int| 0 <= i < self.ledger@.len() && (#[trigger] self.ledger@[i]).tx_id == tx
    }

    /// The entry stored under `tx` (meaningful when `has_entry(tx)`).
    pub closed spec fn entry(self, tx: u32) -> LedgerEntry {
        self.ledger@[choose|i: int|
            0 <= i < self.ledger@.len() && (#[trigger] self.ledger@[i]).tx_id == tx]
    }

    /// The accounts in order of creation.
    pub closed spec fn clients_seq(self) -> Seq<Client> {
        self.clients.seq()
    }

    /// No two stored entries share a transaction id.
    pub closed spec fn entries_wf(self) -> bool {
        forall|i: int, j: int|
            0 <= i < j < self.ledger@.len() ==> (#[trigger] self.ledger@[i]).tx_id != (
            #[trigger] self.ledger@[j]).tx_id
    }

    /// Both internal maps key their contents uniquely.
    pub closed spec fn maps_wf(self) -> bool {
        self.clients.wf() && self.entries_wf()
    }

    /// Every account balances: `total` is exactly `available + held`.
    pub open spec fn balances_ok(self) -> bool {
        forall|id: u16|
            self.has_client(id) ==> (#[trigger] self.client(id)).total == self.client(
                id,
            ).available + self.client(id).held
    }

    /// The ledger's invariant: unique keys and balanced accounts.
    pub open spec fn wf(self) -> bool {
        self.maps_wf() && self.balances_ok()
    }

    /// An empty ledger.
    pub fn new() -> (l: Ledger)
        ensures
            l.wf(),
            forall|id: u16| !l.has_client(id),
            forall|t: u32| !l.has_entry(t),
            l.clients_seq() == Seq::<Client>::empty(),
    {
        Ledger { ledger: Vec::new(), clients: Clients::new() }
    }

    /// Returns the account for `id`, if one exists.
    pub fn find_client(&self, id: u16) -> (r: Option<Client>)
        requires
            self.wf(),
        ensures
            (match r {
                Option::Some(c) => self.has_client(id) && c == self.client(id),
                Option::None => !self.has_client(id),
            }),
    {
        self.clients.find_client(id)
    }

    /// The accounts as a vector, in order of creation: the rows of the
    /// final balance report.
    pub fn accounts(&self) -> (r: &Vec<Client>)
        ensures
            r@ == self.clients_seq(),
    {
        self.clients.accounts_vec()
    }

    /// Every row of the report is a registered, balanced account.
    pub proof fn lemma_report_row(self, i: int)
        requires
            self.wf(),
            0 <= i < self.clients_seq().len(),
        ensures
            self.has_client(self.clients_seq()[i].id),
            self.client(self.clients_seq()[i].id) == self.clients_seq()[i],
            self.clients_seq()[i].total == self.clients_seq()[i].available
                + self.clients_seq()[i].held,
    {
        self.clients.lemma_seq_member(i);
    }

    fn entry_index(&self, tx_id: u32) -> (r: Option<usize>)
        ensures
            (match r {
                Option::Some(i) => i < self.ledger@.len() && self.ledger@[i as int].tx_id == tx_id
                    && self.has_entry(tx_id),
                Option::None => !self.has_entry(tx_id),
            }),
    {
        let mut i: usize = 0;
        while i < self.ledger.len()
            invariant
                0 <= i <= self.ledger@.len(),
                forall|j: int| 0 <= j < i ==> (#[trigger] self.ledger@[j]).tx_id != tx_id,
            decreases self.ledger@.len() - i,
        {
            if self.ledger[i].tx_id == tx_id {
                return Option::Some(i);
            }
            i = i + 1;
        }
        Option::None
    }

    proof fn lemma_entry_at_index(self, tx: u32, i: int)
        requires
            self.entries_wf(),
            0 <= i < self.ledger@.len(),
            self.ledger@[i].tx_id == tx,
        ensures
            self.has_entry(tx),
            self.entry(tx) == self.ledger@[i],
    {
        let j = choose|j: int|
            0 <= j < self.ledger@.len() && (#[trigger] self.ledger@[j]).tx_id == tx;
        if i != j {
            assert((self.ledger@[i]).tx_id != (self.ledger@[j]).tx_id);
        }
    }

    /// Returns the entry stored under `tx_id`, if any.
    pub fn find_entry(&self, tx_id: u32) -> (r: Option<LedgerEntry>)
        requires
            self.wf(),
        ensures
            (match r {
                Option::Some(e) => self.has_entry(tx_id) && e == self.entry(tx_id),
                Option::None => !self.has_entry(tx_id),
            }),
    {
        match self.entry_index(tx_id) {
            Option::Some(i) => {
                let e = self.ledger[i];
                proof {
                    self.lemma_entry_at_index(tx_id, i as int);
                }
                Option::Some(e)
            },
            Option::None => Option::None,
        }
    }

    fn set_entry(&mut self, i: usize, e: LedgerEntry)
        requires
            old(self).entries_wf(),
            i < old(self).ledger@.len(),
            e.tx_id == old(self).ledger@[i as int].tx_id,
        ensures
            final(self).entries_wf(),
            final(self).clients == old(self).clients,
            final(self).has_entry(e.tx_id),
            final(self).entry(e.tx_id) == e,
            entries_same_except(*old(self), *final(self), e.tx_id),
    {
        let ghost pre = *self;
        self.ledger[i] = e;
        proof {
            assert(self.ledger@ =~= pre.ledger@.update(i as int, e));
            assert forall|i2: int, j2: int| 0 <= i2 < j2 < self.ledger@.len() implies (
            #[trigger] self.ledger@[i2]).tx_id != (#[trigger] self.ledger@[j2]).tx_id by {
                assert(pre.ledger@[i2].tx_id != pre.ledger@[j2].tx_id);
            }
            self.lemma_entry_at_index(e.tx_id, i as int);
            assert forall|t: u32| t != e.tx_id implies (#[trigger] self.has_entry(t))
                == pre.has_entry(t) && (pre.has_entry(t) ==> self.entry(t) == pre.entry(t)) by {
                if self.has_entry(t) {
                    let w = choose|w: int|
                        0 <= w < self.ledger@.len() && (#[trigger] self.ledger@[w]).tx_id == t;
                    assert(w != i as int);
                    assert(pre.ledger@[w].tx_id == t);
                }
                if pre.has_entry(t) {
                    let w = choose|w: int|
                        0 <= w < pre.ledger@.len() && (#[trigger] pre.ledger@[w]).tx_id == t;
                    assert(w != i as int);
                    assert(self.ledger@[w].tx_id == t);
                    self.lemma_entry_at_index(t, w);
                    pre.lemma_entry_at_index(t, w);
                }
            }
        }
    }

    fn insert_entry(&mut self, e: LedgerEntry)
        requires
            old(self).entries_wf(),
        ensures
            final(self).entries_wf(),
            final(self).clients == old(self).clients,
            final(self).has_entry(e.tx_id),
            final(self).entry(e.tx_id) == e,
            entries_same_except(*old(self), *final(self), e.tx_id),
    {
        match self.entry_index(e.tx_id) {
            Option::Some(i) => {
                self.set_entry(i, e);
            },
            Option::None => {
                let ghost pre = *self;
                self.ledger.push(e);
                proof {
                    let n = pre.ledger@.len() as int;
                    assert(self.ledger@ =~= pre.ledger@.push(e));
                    assert forall|i2: int, j2: int| 0 <= i2 < j2 < self.ledger@.len() implies (
                    #[trigger] self.ledger@[i2]).tx_id != (#[trigger] self.ledger@[j2]).tx_id by {
                        if j2 == n {
                            assert(self.ledger@[i2] == pre.ledger@[i2]);
                            if self.ledger@[i2].tx_id == e.tx_id {
                                assert(pre.has_entry(e.tx_id));
                            }
                        }
                    }
                    self.lemma_entry_at_index(e.tx_id, n);
                    assert forall|t: u32| t != e.tx_id implies (#[trigger] self.has_entry(t))
                        == pre.has_entry(t) && (pre.has_entry(t) ==> self.entry(t) == pre.entry(
                        t,
                    )) by {
                        if self.has_entry(t) {
                            let w = choose|w: int|
                                0 <= w < self.ledger@.len() && (#[trigger] self.ledger@[w]).tx_id
                                    == t;
                            assert(w != n);
                            assert(pre.ledger@[w].tx_id == t);
                        }
                        if pre.has_entry(t) {
                            let w = choose|w: int|
                                0 <= w < pre.ledger@.len() && (#[trigger] pre.ledger@[w]).tx_id
                                    == t;
                            assert(self.ledger@[w].tx_id == t);
                            self.lemma_entry_at_index(t, w);
                            pre.lemma_entry_at_index(t, w);
                        }
                    }
                }
            },
        }
    }

    /// Credits a deposit to its client, creating the account on first use.
    #[verifier::rlimit(60)]
    pub fn deposit(&mut self, t: &Transaction) -> (r: Result<(), LedgerError>)
        requires
            old(self).wf(),
        ensures
            final(self).wf(),
            deposit_rel(*old(self), *t, *final(self), r),
    {
        let ghost pre = *self;
        let c = self.clients.add_client(t.client_id);
        proof {
            if pre.has_client(t.client_id) {
                assert(pre.client(t.client_id).total == pre.client(t.client_id).available
                    + pre.client(t.client_id).held);
            }
        }
        let amount = match t.amount {
            Option::Some(a) => a,
            Option::None => {
                proof {
                    lemma_balances_after_client_step(pre, *self, t.client_id);
                }
                return Result::Err(LedgerError::MalformedRequest);
            },
        };
        let new_av = c.available as i128 + amount as i128;
        let new_tot = c.total as i128 + amount as i128;
        if new_av > i64::MAX as i128 || new_av < i64::MIN as i128 || new_tot > i64::MAX as i128
            || new_tot < i64::MIN as i128 {
            proof {
                lemma_balances_after_client_step(pre, *self, t.client_id);
            }
            return Result::Err(LedgerError::BalanceOverflow);
        }
        let updated = Client { available: new_av as i64, total: new_tot as i64, ..c };
        self.clients.set_client(t.client_id, updated);
        self.insert_entry(
            LedgerEntry {
                tx_id: t.tx_id,
                client_id: t.client_id,
                tx_type: TxType::Deposit,
                amount,
                status: PaymentStatus::Undisputed,
            },
        );
        proof {
            lemma_balances_after_client_step(pre, *self, t.client_id);
            let id = t.client_id;
            let c0 = client_or_new(pre, id);
            assert(t.amount is Some);
            assert(deposit_fits(c0, t.amount->Some_0 as int));
            assert(self.has_client(id));
            assert(self.client(id) == updated);
            assert(self.client(id).available == c0.available + t.amount->Some_0);
            assert(self.client(id).held == c0.held);
            assert(self.client(id).total == c0.total + t.amount->Some_0);
            assert(self.client(id).locked == c0.locked);
            assert(clients_same_except(pre, *self, id));
            assert(self.has_entry(t.tx_id));
            assert(self.entry(t.tx_id) == (LedgerEntry {
                tx_id: t.tx_id,
                client_id: id,
                tx_type: TxType::Deposit,
                amount: t.amount->Some_0,
                status: PaymentStatus::Undisputed,
            }));
            assert(entries_same_except(pre, *self, t.tx_id));
            assert(deposit_rel(pre, *t, *self, Result::<(), LedgerError>::Ok(())));
        }
        Result::Ok(())
    }

    /// Debits a withdrawal from its client if `available` covers it,
    /// creating the account on first use.
    #[verifier::rlimit(60)]
    pub fn withdraw(&mut self, t: &Transaction) -> (r: Result<(), LedgerError>)
        requires
            old(self).wf(),
        ensures
            final(self).wf(),
            withdraw_rel(*old(self), *t, *final(self), r),
    {
        let ghost pre = *self;
        let c = self.clients.add_client(t.client_id);
        proof {
            if pre.has_client(t.client_id) {
                assert(pre.client(t.client_id).total == pre.client(t.client_id).available
                    + pre.client(t.client_id).held);
            }
        }
        let amount = match t.amount {
            Option::Some(a) => a,
            Option::None => {
                proof {
                    lemma_balances_after_client_step(pre, *self, t.client_id);
                }
                return Result::Err(LedgerError::MalformedRequest);
            },
        };
        if c.available < amount {
            proof {
                lemma_balances_after_client_step(pre, *self, t.client_id);
            }
            return Result::Err(
                LedgerError::NotEnoughFunds {
                    client: t.client_id,
                    requested: amount,
                    available: c.available,
                },
            );
        }
        let new_av = c.available as i128 - amount as i128;
        let new_tot = c.total as i128 - amount as i128;
        if new_av > i64::MAX as i128 || new_av < i64::MIN as i128 || new_tot > i64::MAX as i128
            || new_tot < i64::MIN as i128 {
            proof {
                lemma_balances_after_client_step(pre, *self, t.client_id);
            }
            return Result::Err(LedgerError::BalanceOverflow);
        }
        let updated = Client { available: new_av as i64, total: new_tot as i64, ..c };
        self.clients.set_client(t.client_id, updated);
        self.insert_entry(
            LedgerEntry {
                tx_id: t.tx_id,
                client_id: t.client_id,
                tx_type: TxType::Withdrawal,
                amount,
                status: PaymentStatus::Undisputed,
            },
        );
        proof {
            lemma_balances_after_client_step(pre, *self, t.client_id);
            let id = t.client_id;
            let c0 = client_or_new(pre, id);
            assert(t.amount is Some);
            assert(c0.available >= t.amount->Some_0);
            assert(withdraw_fits(c0, t.amount->Some_0 as int));
            assert(self.has_client(id));
            assert(self.client(id) == updated);
            assert(clients_same_except(pre, *self, id));
            assert(self.has_entry(t.tx_id));
            assert(self.entry(t.tx_id) == (LedgerEntry {
                tx_id: t.tx_id,
                client_id: id,
                tx_type: TxType::Withdrawal,
                amount: t.amount->Some_0,
                status: PaymentStatus::Undisputed,
            }));
            assert(entries_same_except(pre, *self, t.tx_id));
            assert(withdraw_rel(pre, *t, *self, Result::<(), LedgerError>::Ok(())));
        }
        Result::Ok(())
    }

    /// Marks the referenced entry disputed and holds its amount.
    #[verifier::rlimit(60)]
    pub fn dispute(&mut self, t: &Transaction) -> (r: Result<(), LedgerError>)
        requires
            old(self).wf(),
        ensures
            final(self).wf(),
            dispute_rel(*old(self), *t, *final(self), r),
    {
        let ghost pre = *self;
        let c = match self.clients.find_client(t.client_id) {
            Option::Some(c) => c,
            Option::None => {
                return Result::Err(LedgerError::ClientNotFound(t.client_id));
            },
        };
        proof {
            if pre.has_client(t.client_id) {
                assert(pre.client(t.client_id).total == pre.client(t.client_id).available
                    + pre.client(t.client_id).held);
            }
        }
        let i = match self.entry_index(t.tx_id) {
            Option::Some(i) => i,
            Option::None => {
                return Result::Err(LedgerError::InvalidDispute(t.tx_id));
            },
        };
        let e = self.ledger[i];
        proof {
            self.lemma_entry_at_index(t.tx_id, i as int);
        }
        let a = e.amount;
        let new_held = c.held as i128 + a as i128;
        let new_av = c.available as i128 - a as i128;
        if new_held > i64::MAX as i128 || new_held < i64::MIN as i128 || new_av > i64::MAX as i128
            || new_av < i64::MIN as i128 {
            return Result::Err(LedgerError::BalanceOverflow);
        }
        let updated = Client { held: new_held as i64, available: new_av as i64, ..c };
        self.clients.set_client(t.client_id, updated);
        self.set_entry(i, LedgerEntry { status: PaymentStatus::Disputed, ..e });
        proof {
            lemma_balances_after_client_step(pre, *self, t.client_id);
            assert(dispute_rel(pre, *t, *self, Result::<(), LedgerError>::Ok(())));
        }
        Result::Ok(())
    }

    /// Releases a disputed entry's amount back to `available` and marks
    /// the entry undisputed.
    #[verifier::rlimit(60)]
    pub fn resolve(&mut self, t: &Transaction) -> (r: Result<(), LedgerError>)
        requires
            old(self).wf(),
        ensures
            final(self).wf(),
            resolve_rel(*old(self), *t, *final(self), r),
    {
        let ghost pre = *self;
        let c = match self.clients.find_client(t.client_id) {
            Option::Some(c) => c,
            Option::None => {
                return Result::Err(LedgerError::ClientNotFound(t.client_id));
            },
        };
        proof {
            if pre.has_client(t.client_id) {
                assert(pre.client(t.client_id).total == pre.client(t.client_id).available
                    + pre.client(t.client_id).held);
            }
        }
        let i = match self.entry_index(t.tx_id) {
            Option::Some(i) => i,
            Option::None => {
                return Result::Err(LedgerError::InvalidDispute(t.tx_id));
            },
        };
        let e = self.ledger[i];
        proof {
            self.lemma_entry_at_index(t.tx_id, i as int);
        }
        if !matches!(e.status, PaymentStatus::Disputed) {
            return Result::Err(LedgerError::InvalidDispute(t.tx_id));
        }
        let a = e.amount;
        let new_held = c.held as i128 - a as i128;
        let new_av = c.available as i128 + a as i128;
        if new_held > i64::MAX as i128 || new_held < i64::MIN as i128 || new_av > i64::MAX as i128
            || new_av < i64::MIN as i128 {
            return Result::Err(LedgerError::BalanceOverflow);
        }
        let updated = Client { held: new_held as i64, available: new_av as i64, ..c };
        self.clients.set_client(t.client_id, updated);
        self.set_entry(i, LedgerEntry { status: PaymentStatus::Undisputed, ..e });
        proof {
            lemma_balances_after_client_step(pre, *self, t.client_id);
            assert(resolve_rel(pre, *t, *self, Result::<(), LedgerError>::Ok(())));
        }
        Result::Ok(())
    }

    /// Reverses a disputed entry: its amount leaves `held` and `total`,
    /// and the account is locked. The entry stays disputed.
    #[verifier::rlimit(60)]
    pub fn chargeback(&mut self, t: &Transaction) -> (r: Result<(), LedgerError>)
        requires
            old(self).wf(),
        ensures
            final(self).wf(),
            chargeback_rel(*old(self), *t, *final(self), r),
    {
        let ghost pre = *self;
        let c = match self.clients.find_client(t.client_id) {
            Option::Some(c) => c,
            Option::None => {
                return Result::Err(LedgerError::ClientNotFound(t.client_id));
            },
        };
        proof {
            if pre.has_client(t.client_id) {
                assert(pre.client(t.client_id).total == pre.client(t.client_id).available
                    + pre.client(t.client_id).held);
            }
        }
        let i = match self.entry_index(t.tx_id) {
            Option::Some(i) => i,
            Option::None => {
                return Result::Err(LedgerError::InvalidDispute(t.tx_id));
            },
        };
        let e = self.ledger[i];
        proof {
            self.lemma_entry_at_index(t.tx_id, i as int);
        }
        if !matches!(e.status, PaymentStatus::Disputed) {
            return Result::Err(LedgerError::InvalidDispute(t.tx_id));
        }
        let a = e.amount;
        let new_held = c.held as i128 - a as i128;
        let new_tot = c.total as i128 - a as i128;
        if new_held > i64::MAX as i128 || new_held < i64::MIN as i128 || new_tot > i64::MAX as i128
            || new_tot < i64::MIN as i128 {
            return Result::Err(LedgerError::BalanceOverflow);
        }
        let updated = Client { held: new_held as i64, total: new_tot as i64, locked: true, ..c };
        self.clients.set_client(t.client_id, updated);
        proof {
            lemma_balances_after_client_step(pre, *self, t.client_id);
            assert(chargeback_rel(pre, *t, *self, Result::<(), LedgerError>::Ok(())));
        }
        Result::Ok(())
    }

    /// Applies one transaction by dispatching on its kind.
    pub fn process_transaction(&mut self, tx: Transaction) -> (r: Result<(), LedgerError>)
        requires
            old(self).wf(),
        ensures
            final(self).wf(),
            apply_rel(*old(self), tx, *final(self), r),
    {
        match tx.tx_type {
            TxType::Deposit => self.deposit(&tx),
            TxType::Withdrawal => self.withdraw(&tx),
            TxType::Dispute => self.dispute(&tx),
            TxType::Resolve => self.resolve(&tx),
            TxType::Chargeback => self.chargeback(&tx),
        }
    }
}

/// In every well-formed ledger, each account balances: `total` is exactly
/// `available + held`. Every operation preserves this.
pub proof fn lemma_balance_invariant(l: Ledger, id: u16)
    requires
        l.wf(),
        l.has_client(id),
    ensures
        l.client(id).total == l.client(id).available + l.client(id).held,
{
}

/// A deposit of amount `a` followed by a dispute of the same transaction
/// by the same client moves `a` from `available` to `held` and leaves
/// `total` unchanged.
pub proof fn lemma_deposit_then_dispute(
    l0: Ledger,
    l1: Ledger,
    l2: Ledger,
    t1: Transaction,
    t2: Transaction,
)
    requires
        deposit_rel(l0, t1, l1, Result::Ok(())),
        dispute_rel(l1, t2, l2, Result::Ok(())),
        t2.tx_id == t1.tx_id,
        t2.client_id == t1.client_id,
    ensures
        l2.client(t2.client_id).available == l1.client(t1.client_id).available
            - t1.amount->Some_0,
        l2.client(t2.client_id).held == l1.client(t1.client_id).held + t1.amount->Some_0,
        l2.client(t2.client_id).total == l1.client(t1.client_id).total,
{
    assert(l1.entry(t2.tx_id).amount == t1.amount->Some_0);
}

/// A dispute followed by a resolve of the same transaction by the same
/// client restores `available` and `held` to their pre-dispute values and
/// the entry to undisputed.
pub proof fn lemma_dispute_then_resolve(
    l0: Ledger,
    l1: Ledger,
    l2: Ledger,
    t1: Transaction,
    t2: Transaction,
)
    requires
        dispute_rel(l0, t1, l1, Result::Ok(())),
        resolve_rel(l1, t2, l2, Result::Ok(())),
        t2.tx_id == t1.tx_id,
        t2.client_id == t1.client_id,
    ensures
        l2.client(t2.client_id).available == l0.client(t1.client_id).available,
        l2.client(t2.client_id).held == l0.client(t1.client_id).held,
        l2.client(t2.client_id).total == l0.client(t1.client_id).total,
        l2.entry(t2.tx_id).status is Undisputed,
{
    assert(l1.entry(t2.tx_id).amount == l0.entry(t1.tx_id).amount);
}

/// A dispute followed by a chargeback of the same transaction by the same
/// client takes the disputed amount out of both `held` and `total`, locks
/// the account, and leaves the entry disputed.
pub proof fn lemma_dispute_then_chargeback(
    l0: Ledger,
    l1: Ledger,
    l2: Ledger,
    t1: Transaction,
    t2: Transaction,
)
    requires
        dispute_rel(l0, t1, l1, Result::Ok(())),
        chargeback_rel(l1, t2, l2, Result::Ok(())),
        t2.tx_id == t1.tx_id,
        t2.client_id == t1.client_id,
    ensures
        l2.client(t2.client_id).held == l1.client(t1.client_id).held - l0.entry(
            t1.tx_id,
        ).amount,
        l2.client(t2.client_id).total == l1.client(t1.client_id).total - l0.entry(
            t1.tx_id,
        ).amount,
        l2.client(t2.client_id).locked,
        l2.entry(t2.tx_id).status is Disputed,
{
    assert(l1.entry(t2.tx_id).amount == l0.entry(t1.tx_id).amount);
}

/// After a step that changed at most client `id`'s account, the balance
/// invariant holds again provided `id`'s new account balances.
proof fn lemma_balances_after_client_step(pre: Ledger, post: Ledger, id: u16)
    requires
        pre.balances_ok(),
        clients_same_except(pre, post, id),
        post.has_client(id) ==> post.client(id).total == post.client(id).available + post.client(
            id,
        ).held,
    ensures
        post.balances_ok(),
{
    assert forall|o: u16| post.has_client(o) implies (#[trigger] post.client(o)).total
        == post.client(o).available + post.client(o).held by {
        if o != id {
            assert(post.has_client(o) == pre.has_client(o));
        }
    }
}

} // verus!

