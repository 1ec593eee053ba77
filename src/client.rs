use vstd::prelude::*;

use crate::amount::{amount_text, decimal, push_char, push_decimal, scaled_text, Amount};
use crate::{ClientId, TransactionId};

verus! {

broadcast use vstd::std_specs::hash::group_hash_axioms;

/// The kind of an account transaction.
#[derive(Clone, Copy, Debug, PartialEq, Eq, Structural)]
pub enum ClientTransactionType {
    Deposit,
    Withdrawal,
    Dispute,
    Resolve,
    Chargeback,
}

/// One transaction of an account. `amount` is meaningful for deposits and
/// withdrawals only; the other kinds carry zero.
#[derive(Clone, Copy, Debug, PartialEq, Eq, Structural)]
pub struct ClientTransaction {
    pub id: TransactionId,
    pub tx_type: ClientTransactionType,
    pub amount: Amount,
}

impl ClientTransaction {
    /// A deposit of `amount`.
    pub fn deposit(id: TransactionId, amount: Amount) -> (r: ClientTransaction)
        ensures
            r == (ClientTransaction { id, tx_type: ClientTransactionType::Deposit, amount }),
    {
        ClientTransaction { id, tx_type: ClientTransactionType::Deposit, amount }
    }

    /// A withdrawal of `amount`.
    pub fn withdrawal(id: TransactionId, amount: Amount) -> (r: ClientTransaction)
        ensures
            r == (ClientTransaction { id, tx_type: ClientTransactionType::Withdrawal, amount }),
    {
        ClientTransaction { id, tx_type: ClientTransactionType::Withdrawal, amount }
    }

    /// A dispute of the deposit or withdrawal `id`.
    pub fn dispute(id: TransactionId) -> (r: ClientTransaction)
        ensures
            r == (ClientTransaction {
                id,
                tx_type: ClientTransactionType::Dispute,
                amount: Amount { value: 0 },
            }),
    {
        ClientTransaction { id, tx_type: ClientTransactionType::Dispute, amount: Amount::new(0) }
    }

    /// A resolve of the dispute of `id`.
    pub fn resolve(id: TransactionId) -> (r: ClientTransaction)
        ensures
            r == (ClientTransaction {
                id,
                tx_type: ClientTransactionType::Resolve,
                amount: Amount { value: 0 },
            }),
    {
        ClientTransaction { id, tx_type: ClientTransactionType::Resolve, amount: Amount::new(0) }
    }

    /// A chargeback of the dispute of `id`.
    pub fn chargeback(id: TransactionId) -> (r: ClientTransaction)
        ensures
            r == (ClientTransaction {
                id,
                tx_type: ClientTransactionType::Chargeback,
                amount: Amount { value: 0 },
            }),
    {
        ClientTransaction { id, tx_type: ClientTransactionType::Chargeback, amount: Amount::new(0) }
    }
}

/// A deposit or withdrawal with the given id.
pub open spec fn is_transfer_of(t: ClientTransaction, id: TransactionId) -> bool {
    t.id == id && (t.tx_type is Deposit || t.tx_type is Withdrawal)
}

/// A dispute of the given id.
pub open spec fn is_dispute_of(t: ClientTransaction, id: TransactionId) -> bool {
    t.id == id && t.tx_type is Dispute
}

/// Whether an account whose history is `h` takes `t` into its history:
/// a deposit or withdrawal when its amount is not zero, a dispute when the
/// history holds a deposit or withdrawal of that id, a resolve or chargeback
/// when it holds a dispute of that id.
pub open spec fn accepts(h: Seq<ClientTransaction>, t: ClientTransaction) -> bool {
    match t.tx_type {
        ClientTransactionType::Deposit | ClientTransactionType::Withdrawal => t.amount.value != 0,
        ClientTransactionType::Dispute => exists|j: int|
            0 <= j < h.len() && #[trigger] is_transfer_of(h[j], t.id),
        _ => exists|j: int| 0 <= j < h.len() && #[trigger] is_dispute_of(h[j], t.id),
    }
}

/// The history after `t` is offered to an account whose history is `h`.
pub open spec fn offered(h: Seq<ClientTransaction>, t: ClientTransaction) -> Seq<ClientTransaction> {
    if accepts(h, t) {
        h.push(t)
    } else {
        h
    }
}

/// Whether every transaction of `h` was accepted by the history before it,
/// as holds of every account's history.
pub open spec fn well_formed_history(h: Seq<ClientTransaction>) -> bool {
    forall|i: int| 0 <= i < h.len() ==> accepts(h.take(i), #[trigger] h[i])
}

/// Index of the first deposit or withdrawal of `id` in `h` at or after `i`.
pub open spec fn find_transfer(h: Seq<ClientTransaction>, id: TransactionId, i: int) -> Option<int>
    decreases h.len() - i,
{
    if i < 0 || i >= h.len() {
        None
    } else if is_transfer_of(h[i], id) {
        Some(i)
    } else {
        find_transfer(h, id, i + 1)
    }
}

/// The amount that a dispute of `t` moves from available to held: a
/// deposit's amount, or a withdrawal's amount negated.
pub open spec fn disputed_amount(t: ClientTransaction) -> int {
    if t.tx_type is Withdrawal {
        -(t.amount.value as int)
    } else {
        t.amount.value as int
    }
}

/// The running state of a replay.
pub struct Replay {
    pub available: int,
    pub held: int,
    pub locked: bool,
    pub disputed: Map<TransactionId, int>,
}

/// The state before any transaction.
pub open spec fn initial_replay() -> Replay {
    Replay { available: 0, held: 0, locked: false, disputed: Map::empty() }
}

/// One step of the replay of history `h`, on transaction `t`.
pub open spec fn replay_step(h: Seq<ClientTransaction>, s: Replay, t: ClientTransaction) -> Replay {
    let a = t.amount.value as int;
    match t.tx_type {
        ClientTransactionType::Deposit => Replay { available: s.available + a, ..s },
        ClientTransactionType::Withdrawal => if s.available >= a && !s.locked {
            Replay { available: s.available - a, ..s }
        } else {
            s
        },
        ClientTransactionType::Dispute => match find_transfer(h, t.id, 0) {
            Some(i) => {
                let d = disputed_amount(h[i]);
                Replay {
                    available: s.available - d,
                    held: s.held + d,
                    locked: s.locked,
                    disputed: s.disputed.insert(t.id, d),
                }
            },
            None => s,
        },
        ClientTransactionType::Resolve => if s.disputed.contains_key(t.id) {
            let d = s.disputed[t.id];
            Replay {
                available: s.available + d,
                held: s.held - d,
                locked: s.locked,
                disputed: s.disputed.remove(t.id),
            }
        } else {
            s
        },
        ClientTransactionType::Chargeback => if s.disputed.contains_key(t.id) {
            let d = s.disputed[t.id];
            Replay {
                available: s.available,
                held: s.held - d,
                locked: true,
                disputed: s.disputed.remove(t.id),
            }
        } else {
            s
        },
    }
}

/// The state after the first `n` transactions of `h` are replayed.
pub open spec fn replay(h: Seq<ClientTransaction>, n: nat) -> Replay
    decreases n,
{
    if n == 0 || n > h.len() {
        initial_replay()
    } else {
        replay_step(h, replay(h, (n - 1) as nat), h[n - 1])
    }
}

/// The state after the whole of `h` is replayed.
pub open spec fn snapshot(h: Seq<ClientTransaction>) -> Replay {
    replay(h, h.len())
}

/// Whether the balances of a snapshot fit an `Amount`.
pub open spec fn fits(s: Replay) -> bool {
    i64::MIN <= s.available <= i64::MAX && i64::MIN <= s.held <= i64::MAX
}

/// The largest magnitude of a disputed amount: that of `i64::MIN`.
const DISPUTE_BOUND: i128 = 0x8000_0000_0000_0000;

fn find_transfer_index(h: &Vec<ClientTransaction>, id: TransactionId) -> (r: Option<usize>)
    ensures
        match r {
            Some(i) => i < h@.len() && find_transfer(h@, id, 0) == Some(i as int),
            None => find_transfer(h@, id, 0) is None,
        },
        r is Some <==> exists|j: int| 0 <= j < h@.len() && #[trigger] is_transfer_of(h@[j], id),
{
    let mut i: usize = 0;
    while i < h.len()
        invariant
            i <= h@.len(),
            find_transfer(h@, id, 0) == find_transfer(h@, id, i as int),
            forall|j: int| 0 <= j < i ==> !#[trigger] is_transfer_of(h@[j], id),
        decreases h@.len() - i,
    {
        let t = h[i];
        if t.id == id && (matches!(t.tx_type, ClientTransactionType::Deposit) || matches!(
            t.tx_type,
            ClientTransactionType::Withdrawal
        )) {
            return Some(i);
        }
        i = i + 1;
    }
    None
}

fn has_dispute(h: &Vec<ClientTransaction>, id: TransactionId) -> (r: bool)
    ensures
        r == exists|j: int| 0 <= j < h@.len() && #[trigger] is_dispute_of(h@[j], id),
{
    let mut i: usize = 0;
    while i < h.len()
        invariant
            i <= h@.len(),
            forall|j: int| 0 <= j < i ==> !#[trigger] is_dispute_of(h@[j], id),
        decreases h@.len() - i,
    {
        let t = h[i];
        if t.id == id && matches!(t.tx_type, ClientTransactionType::Dispute) {
            assert(is_dispute_of(h@[i as int], id));
            return true;
        }
        i = i + 1;
    }
    false
}

/// The ledger of one account: its id and the ordered history of the
/// transactions it accepted. Balances are derived from the history.
pub struct Client {
    id: ClientId,
    transactions: Vec<ClientTransaction>,
}

impl Client {
    /// The account's id.
    pub closed spec fn spec_id(&self) -> ClientId {
        self.id
    }

    /// The accepted transactions, oldest first.
    pub closed spec fn history(&self) -> Seq<ClientTransaction> {
        self.transactions@
    }

    /// The account's id.
    pub fn id_of(&self) -> (r: ClientId)
        ensures
            r == self.spec_id(),
    {
        self.id
    }

    pub fn new(id: ClientId) -> (r: Client)
        ensures
            r.spec_id() == id,
            r.history() == Seq::<ClientTransaction>::empty(),
            well_formed_history(r.history()),
    {
        Client { id, transactions: Vec::new() }
    }

    /// Offers a transaction to the account, which keeps it when `accepts`
    /// holds and drops it silently otherwise.
    pub fn add_transaction(&mut self, transaction: ClientTransaction)
        ensures
            final(self).spec_id() == old(self).spec_id(),
            final(self).history() == offered(old(self).history(), transaction),
            well_formed_history(old(self).history()) ==> well_formed_history(final(self).history()),
    {
        proof {
            if well_formed_history(self.history()) {
                lemma_offered_well_formed(self.history(), transaction);
            }
        }
        match transaction.tx_type {
            ClientTransactionType::Deposit | ClientTransactionType::Withdrawal => {
                if transaction.amount.value != 0 {
                    self.transactions.push(transaction);
                }
            },
            ClientTransactionType::Dispute => {
                if find_transfer_index(&self.transactions, transaction.id).is_some() {
                    self.transactions.push(transaction);
                }
            },
            ClientTransactionType::Resolve | ClientTransactionType::Chargeback => {
                if has_dispute(&self.transactions, transaction.id) {
                    self.transactions.push(transaction);
                }
            },
        }
    }

    /// Replays the history, in wide integers that no history can overflow.
    fn replay_balances(&self) -> (r: (i128, i128, bool))
        ensures
            r.0 == snapshot(self.history()).available,
            r.1 == snapshot(self.history()).held,
            r.2 == snapshot(self.history()).locked,
    {
        let ghost h = self.transactions@;
        let n = self.transactions.len();
        let mut available: i128 = 0;
        let mut held: i128 = 0;
        let mut locked = false;
        let mut disputed: std::collections::HashMap<TransactionId, i128> =
            std::collections::HashMap::new();
        let mut k: usize = 0;
        while k < n
            invariant
                h == self.transactions@,
                n == h.len(),
                k <= n,
                available as int == replay(h, k as nat).available,
                held as int == replay(h, k as nat).held,
                locked == replay(h, k as nat).locked,
                disputed@.dom() == replay(h, k as nat).disputed.dom(),
                forall|x: TransactionId| #[trigger]
                    disputed@.contains_key(x) ==> disputed@[x] as int == replay(
                        h,
                        k as nat,
                    ).disputed[x],
                -(k as int) * DISPUTE_BOUND <= available <= (k as int) * DISPUTE_BOUND,
                -(k as int) * DISPUTE_BOUND <= held <= (k as int) * DISPUTE_BOUND,
                forall|x: TransactionId| #[trigger]
                    disputed@.contains_key(x) ==> -DISPUTE_BOUND <= disputed@[x] <= DISPUTE_BOUND,
            decreases n - k,
        {
            let ghost s = replay(h, k as nat);
            let t = self.transactions[k];
            assert(replay(h, (k + 1) as nat) == replay_step(h, s, t));
            match t.tx_type {
                ClientTransactionType::Deposit => {
                    available = available + t.amount.value as i128;
                },
                ClientTransactionType::Withdrawal => {
                    let a = t.amount.value as i128;
                    if available >= a && !locked {
                        available = available - a;
                    }
                },
                ClientTransactionType::Dispute => {
                    match find_transfer_index(&self.transactions, t.id) {
                        Some(i) => {
                            let found = self.transactions[i];
                            let mut d = found.amount.value as i128;
                            if matches!(found.tx_type, ClientTransactionType::Withdrawal) {
                                d = -d;
                            }
                            disputed.insert(t.id, d);
                            available = available - d;
                            held = held + d;
                            assert(disputed@.dom() =~= replay(h, (k + 1) as nat).disputed.dom());
                        },
                        None => {},
                    }
                },
                ClientTransactionType::Resolve => {
                    match disputed.get(&t.id) {
                        Some(v) => {
                            let d = *v;
                            held = held - d;
                            available = available + d;
                            disputed.remove(&t.id);
                            assert(disputed@.dom() =~= replay(h, (k + 1) as nat).disputed.dom());
                        },
                        None => {},
                    }
                },
                ClientTransactionType::Chargeback => {
                    match disputed.get(&t.id) {
                        Some(v) => {
                            let d = *v;
                            locked = true;
                            held = held - d;
                            disputed.remove(&t.id);
                            assert(disputed@.dom() =~= replay(h, (k + 1) as nat).disputed.dom());
                        },
                        None => {},
                    }
                },
            }
            k = k + 1;
        }
        (available, held, locked)
    }
}

impl Client {
    /// The account's snapshot, when its balances fit an `Amount`.
    pub fn get_entry(&self) -> (r: ClientEntry)
        requires
            fits(snapshot(self.history())),
        ensures
            is_entry_of(r, *self),
    {
        let (available, held, locked) = self.replay_balances();
        ClientEntry::new(self.id, Amount::new(available as i64), Amount::new(held as i64), locked)
    }

    /// The account's snapshot, or `None` when a balance does not fit an
    /// `Amount`.
    pub fn try_get_entry(&self) -> (r: Option<ClientEntry>)
        ensures
            r is Some <==> fits(snapshot(self.history())),
            r matches Some(e) ==> is_entry_of(e, *self),
    {
        let (available, held, locked) = self.replay_balances();
        if i64::MIN as i128 <= available && available <= i64::MAX as i128 && i64::MIN as i128
            <= held && held <= i64::MAX as i128 {
            Some(
                ClientEntry::new(
                    self.id,
                    Amount::new(available as i64),
                    Amount::new(held as i64),
                    locked,
                ),
            )
        } else {
            None
        }
    }
}

/// Whether `e` is the snapshot of account `c`.
pub open spec fn is_entry_of(e: ClientEntry, c: Client) -> bool {
    let s = snapshot(c.history());
    &&& e.id == c.spec_id()
    &&& e.available.value == s.available
    &&& e.held.value == s.held
    &&& e.locked == s.locked
}

/// The text of a flag: `true` or `false`.
pub open spec fn bool_text(b: bool) -> Seq<char> {
    if b {
        seq!['t', 'r', 'u', 'e']
    } else {
        seq!['f', 'a', 'l', 's', 'e']
    }
}

/// One line of the snapshot table, without its line break:
/// `client,available,held,total,locked`, where total is available plus held.
pub open spec fn entry_text(id: ClientId, available: int, held: int, locked: bool) -> Seq<char> {
    decimal(id as nat) + seq![','] + amount_text(available) + seq![','] + amount_text(held)
        + seq![','] + amount_text(available + held) + seq![','] + bool_text(locked)
}

/// The snapshot of one account.
#[derive(Clone, Copy, Debug, PartialEq, Eq, Structural)]
pub struct ClientEntry {
    pub id: ClientId,
    pub available: Amount,
    pub held: Amount,
    pub locked: bool,
}

impl ClientEntry {
    pub fn new(id: ClientId, available: Amount, held: Amount, locked: bool) -> (r: ClientEntry)
        ensures
            r == (ClientEntry { id, available, held, locked }),
    {
        ClientEntry { id, available, held, locked }
    }

    /// The entry's line of the snapshot table (see `entry_text`).
    pub fn to_string(&self) -> (r: String)
        ensures
            r@ == entry_text(
                self.id,
                self.available.value as int,
                self.held.value as int,
                self.locked,
            ),
    {
        let mut out = String::new();
        push_decimal(&mut out, self.id as u128);
        push_char(&mut out, ',');
        out.append(self.available.to_string().as_str());
        push_char(&mut out, ',');
        out.append(self.held.to_string().as_str());
        push_char(&mut out, ',');
        let total = self.available.value as i128 + self.held.value as i128;
        out.append(scaled_text(total).as_str());
        push_char(&mut out, ',');
        if self.locked {
            push_char(&mut out, 't');
            push_char(&mut out, 'r');
            push_char(&mut out, 'u');
            push_char(&mut out, 'e');
        } else {
            push_char(&mut out, 'f');
            push_char(&mut out, 'a');
            push_char(&mut out, 'l');
            push_char(&mut out, 's');
            push_char(&mut out, 'e');
        }
        assert(out@ =~= entry_text(
            self.id,
            self.available.value as int,
            self.held.value as int,
            self.locked,
        ));
        out
    }
}

proof fn lemma_offered_well_formed(h: Seq<ClientTransaction>, t: ClientTransaction)
    requires
        well_formed_history(h),
    ensures
        well_formed_history(offered(h, t)),
{
    if accepts(h, t) {
        let g = h.push(t);
        assert forall|i: int| 0 <= i < g.len() implies accepts(g.take(i), #[trigger] g[i]) by {
            assert(g.take(i) =~= h.take(i) || i == h.len());
            if i == h.len() {
                assert(g.take(i) =~= h);
            } else {
                assert(g.take(i) =~= h.take(i));
                assert(accepts(h.take(i), h[i]));
            }
        }
    }
}

proof fn lemma_find_transfer_extend(
    h: Seq<ClientTransaction>,
    t: ClientTransaction,
    id: TransactionId,
    i: int,
    j: int,
)
    requires
        0 <= i <= j < h.len(),
        is_transfer_of(h[j], id),
    ensures
        find_transfer(h.push(t), id, i) == find_transfer(h, id, i),
        find_transfer(h, id, i) matches Some(k) ==> i <= k < h.len(),
    decreases j - i,
{
    if !is_transfer_of(h[i], id) {
        lemma_find_transfer_extend(h, t, id, i + 1, j);
    }
}

/// Appending to a well-formed history leaves the replay of its old part as
/// it was.
proof fn lemma_replay_extend(h: Seq<ClientTransaction>, t: ClientTransaction, k: nat)
    requires
        well_formed_history(h),
        k <= h.len(),
    ensures
        replay(h.push(t), k) == replay(h, k),
    decreases k,
{
    if k > 0 {
        lemma_replay_extend(h, t, (k - 1) as nat);
        let e = h[k - 1];
        assert(h.push(t)[k - 1] == e);
        if e.tx_type is Dispute {
            assert(accepts(h.take(k - 1), h[k - 1]));
            let j = choose|j: int| 0 <= j < k - 1 && #[trigger] is_transfer_of(h.take(k - 1)[j], e.id);
            assert(is_transfer_of(h[j], e.id));
            lemma_find_transfer_extend(h, t, e.id, 0, j);
        }
    }
}

/// The snapshot after a transaction is offered to a well-formed history is
/// one replay step from the snapshot before.
proof fn lemma_snapshot_offered(h: Seq<ClientTransaction>, t: ClientTransaction)
    requires
        well_formed_history(h),
    ensures
        snapshot(offered(h, t)) == if accepts(h, t) {
            replay_step(h.push(t), snapshot(h), t)
        } else {
            snapshot(h)
        },
{
    if accepts(h, t) {
        lemma_replay_extend(h, t, h.len());
        assert(h.push(t)[h.len() as int] == t);
    }
}

/// Two snapshots of one account agree: a snapshot depends on the history
/// alone.
pub proof fn lemma_snapshot_is_pure(c: Client, e1: ClientEntry, e2: ClientEntry)
    requires
        is_entry_of(e1, c),
        is_entry_of(e2, c),
    ensures
        e1 == e2,
{
}

/// A deposit or withdrawal of zero is not kept: the history, the snapshot
/// and what the account accepts later are as if it had never come.
pub proof fn lemma_zero_amount_dropped(h: Seq<ClientTransaction>, t: ClientTransaction)
    requires
        t.tx_type is Deposit || t.tx_type is Withdrawal,
        t.amount.value == 0,
    ensures
        offered(h, t) == h,
        snapshot(offered(h, t)) == snapshot(h),
        forall|u: ClientTransaction| accepts(offered(h, t), u) == accepts(h, u),
{
}

/// A dispute of an id with no deposit or withdrawal in the history, or a
/// resolve or chargeback of an id with no dispute in it, leaves the history
/// and the snapshot unchanged.
pub proof fn lemma_unknown_reference_ignored(h: Seq<ClientTransaction>, t: ClientTransaction)
    requires
        t.tx_type is Dispute ==> !exists|j: int|
            0 <= j < h.len() && #[trigger] is_transfer_of(h[j], t.id),
        t.tx_type is Resolve || t.tx_type is Chargeback ==> !exists|j: int|
            0 <= j < h.len() && #[trigger] is_dispute_of(h[j], t.id),
        !(t.tx_type is Deposit || t.tx_type is Withdrawal),
    ensures
        offered(h, t) == h,
        snapshot(offered(h, t)) == snapshot(h),
{
}

/// Once an account is locked it stays locked; a withdrawal then changes
/// nothing, whatever the available balance, and a deposit still posts.
pub proof fn lemma_locked_blocks_withdrawals(h: Seq<ClientTransaction>, t: ClientTransaction)
    requires
        well_formed_history(h),
        snapshot(h).locked,
    ensures
        snapshot(offered(h, t)).locked,
        t.tx_type is Withdrawal ==> snapshot(offered(h, t)) == snapshot(h),
        t.tx_type is Deposit && t.amount.value != 0 ==> snapshot(offered(h, t)) == (Replay {
            available: snapshot(h).available + t.amount.value,
            ..snapshot(h)
        }),
{
    lemma_snapshot_offered(h, t);
}

} // verus!
