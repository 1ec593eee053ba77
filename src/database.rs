use vstd::prelude::*;

use crate::amount::{amount_from_text, push_char, Amount, ParseAmountError};
use crate::client::{
    entry_text, fits, offered, snapshot, Client, ClientEntry, ClientTransaction,
    ClientTransactionType,
};
use crate::{ClientId, TransactionId};

verus! {

/// A transaction of the input log, with the account it belongs to.
#[derive(Clone, Copy, Debug, PartialEq, Eq, Structural)]
pub enum Transaction {
    Deposit(ClientId, TransactionId, Amount),
    Withdrawal(ClientId, TransactionId, Amount),
    Dispute(ClientId, TransactionId),
    Resolve(ClientId, TransactionId),
    Chargeback(ClientId, TransactionId),
}

/// One row of the input log, as read: the transaction kind's name, the
/// account, the transaction id and, for deposits and withdrawals, the amount
/// as text.
#[derive(Debug, PartialEq, Eq)]
pub struct Record {
    pub kind: String,
    pub client: ClientId,
    pub tx: TransactionId,
    pub amount: Option<String>,
}

/// Why a record does not make a transaction.
#[derive(Clone, Copy, Debug, PartialEq, Eq, Structural)]
pub enum RecordError {
    /// The kind is none of `deposit`, `withdrawal`, `dispute`, `resolve`,
    /// `chargeback`.
    UnknownType,
    /// A deposit or withdrawal without an amount.
    MissingAmount,
    /// A deposit or withdrawal whose amount is not an amount.
    InvalidAmount(ParseAmountError),
}

/// The amount of a deposit or withdrawal record.
pub open spec fn record_amount(a: Option<String>) -> Result<Amount, RecordError> {
    match a {
        None => Err(RecordError::MissingAmount),
        Some(t) => match amount_from_text(t@) {
            Ok(x) => Ok(x),
            Err(e) => Err(RecordError::InvalidAmount(e)),
        },
    }
}

/// The transaction that a record stands for.
pub open spec fn record_transaction(r: Record) -> Result<Transaction, RecordError> {
    if r.kind@ == "deposit"@ {
        match record_amount(r.amount) {
            Ok(a) => Ok(Transaction::Deposit(r.client, r.tx, a)),
            Err(e) => Err(e),
        }
    } else if r.kind@ == "withdrawal"@ {
        match record_amount(r.amount) {
            Ok(a) => Ok(Transaction::Withdrawal(r.client, r.tx, a)),
            Err(e) => Err(e),
        }
    } else if r.kind@ == "dispute"@ {
        Ok(Transaction::Dispute(r.client, r.tx))
    } else if r.kind@ == "resolve"@ {
        Ok(Transaction::Resolve(r.client, r.tx))
    } else if r.kind@ == "chargeback"@ {
        Ok(Transaction::Chargeback(r.client, r.tx))
    } else {
        Err(RecordError::UnknownType)
    }
}

fn read_amount(a: &Option<String>) -> (r: Result<Amount, RecordError>)
    ensures
        r == record_amount(*a),
{
    match a {
        None => Err(RecordError::MissingAmount),
        Some(t) => match Amount::parse(t.as_str()) {
            Ok(x) => Ok(x),
            Err(e) => Err(RecordError::InvalidAmount(e)),
        },
    }
}

impl Transaction {
    /// Reads a record of the input log (see `record_transaction`).
    pub fn from_record(record: Record) -> (r: Result<Transaction, RecordError>)
        ensures
            r == record_transaction(record),
    {
        if record.kind == String::from_str("deposit") {
            match read_amount(&record.amount) {
                Ok(a) => Ok(Transaction::Deposit(record.client, record.tx, a)),
                Err(e) => Err(e),
            }
        } else if record.kind == String::from_str("withdrawal") {
            match read_amount(&record.amount) {
                Ok(a) => Ok(Transaction::Withdrawal(record.client, record.tx, a)),
                Err(e) => Err(e),
            }
        } else if record.kind == String::from_str("dispute") {
            Ok(Transaction::Dispute(record.client, record.tx))
        } else if record.kind == String::from_str("resolve") {
            Ok(Transaction::Resolve(record.client, record.tx))
        } else if record.kind == String::from_str("chargeback") {
            Ok(Transaction::Chargeback(record.client, record.tx))
        } else {
            Err(RecordError::UnknownType)
        }
    }
}

/// The account that a transaction belongs to.
pub open spec fn client_of(t: Transaction) -> ClientId {
    match t {
        Transaction::Deposit(c, _, _) => c,
        Transaction::Withdrawal(c, _, _) => c,
        Transaction::Dispute(c, _) => c,
        Transaction::Resolve(c, _) => c,
        Transaction::Chargeback(c, _) => c,
    }
}

/// A transaction as its account records it.
pub open spec fn account_transaction(t: Transaction) -> ClientTransaction {
    match t {
        Transaction::Deposit(_, id, a) => ClientTransaction {
            id,
            tx_type: ClientTransactionType::Deposit,
            amount: a,
        },
        Transaction::Withdrawal(_, id, a) => ClientTransaction {
            id,
            tx_type: ClientTransactionType::Withdrawal,
            amount: a,
        },
        Transaction::Dispute(_, id) => ClientTransaction {
            id,
            tx_type: ClientTransactionType::Dispute,
            amount: Amount { value: 0 },
        },
        Transaction::Resolve(_, id) => ClientTransaction {
            id,
            tx_type: ClientTransactionType::Resolve,
            amount: Amount { value: 0 },
        },
        Transaction::Chargeback(_, id) => ClientTransaction {
            id,
            tx_type: ClientTransactionType::Chargeback,
            amount: Amount { value: 0 },
        },
    }
}

/// Index of the first account of `cs` at or after `i` whose id is `id`.
pub open spec fn position(cs: Seq<Client>, id: ClientId, i: int) -> Option<int>
    decreases cs.len() - i,
{
    if i < 0 || i >= cs.len() {
        None
    } else if cs[i].spec_id() == id {
        Some(i)
    } else {
        position(cs, id, i + 1)
    }
}

proof fn lemma_position_finds(cs: Seq<Client>, id: ClientId, i: int, j: int)
    requires
        0 <= i <= j < cs.len(),
        cs[j].spec_id() == id,
    ensures
        position(cs, id, i) is Some,
    decreases j - i,
{
    if cs[i].spec_id() != id {
        lemma_position_finds(cs, id, i + 1, j);
    }
}

proof fn lemma_position_sound(cs: Seq<Client>, id: ClientId, i: int)
    requires
        0 <= i,
    ensures
        position(cs, id, i) matches Some(k) ==> i <= k < cs.len() && cs[k].spec_id() == id,
    decreases cs.len() - i,
{
    if 0 <= i < cs.len() && cs[i].spec_id() != id {
        lemma_position_sound(cs, id, i + 1);
    }
}

/// No two accounts of `cs` share an id.
pub open spec fn ids_distinct(cs: Seq<Client>) -> bool {
    forall|i: int, j: int|
        0 <= i < j < cs.len() ==> #[trigger] cs[i].spec_id() != #[trigger] cs[j].spec_id()
}

/// Whether the balances of every account of `cs` fit an `Amount`.
pub open spec fn all_fit(cs: Seq<Client>) -> bool {
    forall|i: int| 0 <= i < cs.len() ==> fits(snapshot(#[trigger] cs[i].history()))
}

/// The snapshot line of an account, with its line break.
pub open spec fn line_of(c: Client) -> Seq<char> {
    let s = snapshot(c.history());
    entry_text(c.spec_id(), s.available, s.held, s.locked) + seq!['\n']
}

/// The snapshot lines of the accounts of `cs`, in order.
pub open spec fn lines_of(cs: Seq<Client>) -> Seq<char>
    decreases cs.len(),
{
    if cs.len() == 0 {
        Seq::empty()
    } else {
        lines_of(cs.drop_last()) + line_of(cs.last())
    }
}

/// The header line of the snapshot table.
pub open spec fn header_text() -> Seq<char> {
    "client,available,held,total,locked\n"@
}

/// An account whose balances do not fit an `Amount`.
#[derive(Clone, Copy, Debug, PartialEq, Eq, Structural)]
pub struct BalanceOverflow {
    pub client: ClientId,
}

/// The accounts by id, each created on the first transaction that names it.
pub struct Database {
    clients: Vec<Client>,
}

impl Database {
    /// The accounts, in the order in which they were first named.
    pub closed spec fn accounts(&self) -> Seq<Client> {
        self.clients@
    }

    pub fn new() -> (r: Database)
        ensures
            r.accounts() == Seq::<Client>::empty(),
            ids_distinct(r.accounts()),
    {
        Database { clients: Vec::new() }
    }

    /// Routes a transaction to its account, which is created empty first when
    /// no account has its id yet. Accounts keep distinct ids.
    pub fn add_transaction(&mut self, tx: Transaction)
        ensures
            ids_distinct(old(self).accounts()) ==> ids_distinct(final(self).accounts()),
            ({
                let t = account_transaction(tx);
                let before = old(self).accounts();
                let after = final(self).accounts();
                match position(before, client_of(tx), 0) {
                    Some(i) => {
                        &&& after == before.update(i, after[i])
                        &&& after[i].spec_id() == client_of(tx)
                        &&& after[i].history() == offered(before[i].history(), t)
                    },
                    None => {
                        &&& after == before.push(after.last())
                        &&& after.last().spec_id() == client_of(tx)
                        &&& after.last().history() == offered(Seq::empty(), t)
                    },
                }
            }),
    {
        let (client_id, client_tx) = match tx {
            Transaction::Deposit(client_id, tx_id, amount) => {
                (client_id, ClientTransaction::deposit(tx_id, amount))
            },
            Transaction::Withdrawal(client_id, tx_id, amount) => {
                (client_id, ClientTransaction::withdrawal(tx_id, amount))
            },
            Transaction::Dispute(client_id, tx_id) => {
                (client_id, ClientTransaction::dispute(tx_id))
            },
            Transaction::Resolve(client_id, tx_id) => {
                (client_id, ClientTransaction::resolve(tx_id))
            },
            Transaction::Chargeback(client_id, tx_id) => {
                (client_id, ClientTransaction::chargeback(tx_id))
            },
        };
        assert(client_id == client_of(tx) && client_tx == account_transaction(tx));
        let ghost before = self.clients@;
        match self.position_of(client_id) {
            Some(i) => {
                proof {
                    lemma_position_sound(before, client_id, 0);
                }
                self.clients[i].add_transaction(client_tx);
                assert(self.clients@ =~= before.update(i as int, self.clients@[i as int]));
                assert forall|a: int, b: int|
                    0 <= a < b < before.len() && ids_distinct(before) implies #[trigger] self.clients@[a].spec_id()
                        != #[trigger] self.clients@[b].spec_id() by {
                    assert(before[a].spec_id() != before[b].spec_id());
                }
            },
            None => {
                let mut client = Client::new(client_id);
                client.add_transaction(client_tx);
                self.clients.push(client);
                assert(self.clients@ =~= before.push(self.clients@.last()));
                assert forall|j: int| 0 <= j < before.len() implies #[trigger] before[j].spec_id() != client_id by {
                    if before[j].spec_id() == client_id {
                        lemma_position_finds(before, client_id, 0, j);
                    }
                }
            },
        }
    }

    fn position_of(&self, id: ClientId) -> (r: Option<usize>)
        ensures
            match r {
                Some(i) => i < self.clients@.len() && position(self.clients@, id, 0) == Some(i as int),
                None => position(self.clients@, id, 0) is None,
            },
    {
        let mut i: usize = 0;
        while i < self.clients.len()
            invariant
                i <= self.clients@.len(),
                position(self.clients@, id, 0) == position(self.clients@, id, i as int),
            decreases self.clients@.len() - i,
        {
            if self.clients[i].id_of() == id {
                return Some(i);
            }
            i = i + 1;
        }
        None
    }

    /// Appends the snapshot table to `out`: the header line, then one line
    /// per account in the order of `accounts`. When some account's balances do
    /// not fit an `Amount`, `out` is left as it was and the first such
    /// account is named.
    pub fn write_all(&self, out: &mut String) -> (r: Result<(), BalanceOverflow>)
        ensures
            r is Ok <==> all_fit(self.accounts()),
            r is Ok ==> final(out)@ == old(out)@ + header_text() + lines_of(self.accounts()),
            r matches Err(e) ==> {
                &&& final(out)@ == old(out)@
                &&& exists|i: int|
                    0 <= i < self.accounts().len() && #[trigger] self.accounts()[i].spec_id()
                        == e.client && !fits(snapshot(self.accounts()[i].history())) && all_fit(
                        self.accounts().take(i),
                    )
            },
    {
        let ghost cs = self.clients@;
        let mut text = String::new();
        text.append("client,available,held,total,locked\n");
        let mut i: usize = 0;
        while i < self.clients.len()
            invariant
                cs == self.clients@,
                i <= cs.len(),
                text@ == header_text() + lines_of(cs.take(i as int)),
                forall|j: int| 0 <= j < i ==> fits(snapshot(#[trigger] cs[j].history())),
            decreases cs.len() - i,
        {
            match self.clients[i].try_get_entry() {
                Some(entry) => {
                    text.append(entry.to_string().as_str());
                    push_char(&mut text, '\n');
                    assert(cs.take(i + 1).drop_last() =~= cs.take(i as int));
                    assert(text@ =~= header_text() + lines_of(cs.take(i + 1)));
                },
                None => {
                    assert(all_fit(cs.take(i as int)));
                    return Err(BalanceOverflow { client: self.clients[i].id_of() });
                },
            }
            i = i + 1;
        }
        assert(cs.take(cs.len() as int) =~= cs);
        out.append(text.as_str());
        assert(out@ =~= old(out)@ + header_text() + lines_of(cs));
        Ok(())
    }
}

} // verus!
