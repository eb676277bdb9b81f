//! The entity rows of the banking schema and the in-memory bank state.
//!
//! A [`BankState`] holds the rows of every table the core writes or reads.
//! The request layer owns the durable store; it loads a state, lets the core
//! operate on it, and persists the result.  The well-formedness and
//! consistency predicates at the bottom are what the ledger operations
//! preserve.

use vstd::prelude::*;
use crate::calendar::{Date, date_wf};
use crate::decimal::{DecModel, Decimal, dec_add, dec_eq, dec_zero};

verus! {

/// A bank client; created and updated outside this core.
#[derive(Clone, Debug)]
pub struct Client {
    pub client_id: String,
    pub employee_id: Option<String>,
    pub client_name: Option<String>,
    pub client_tel: Option<String>,
    pub client_addr: Option<String>,
    pub contact_name: Option<String>,
    pub contact_tel: Option<String>,
    pub contact_email: Option<String>,
    pub contact_relationship: Option<String>,
    pub service_type: Option<String>,
}

/// The two account variants.
#[derive(Clone, Copy, Debug, PartialEq, Eq, Structural)]
pub enum AccountKind {
    Saving,
    Checking,
}

/// Variant-specific account data.
#[derive(Clone, Debug)]
pub enum AccountDetail {
    Saving { interest: Decimal, currency_type: String },
    Checking { overdraft: Decimal },
}

pub open spec fn detail_kind(d: AccountDetail) -> AccountKind {
    match d {
        AccountDetail::Saving { .. } => AccountKind::Saving,
        AccountDetail::Checking { .. } => AccountKind::Checking,
    }
}

/// One account row: the base columns and the variant columns together.
#[derive(Clone, Debug)]
pub struct AccountRecord {
    pub account_id: String,
    pub balance: Decimal,
    pub open_date: Date,
    pub detail: AccountDetail,
}

/// The base columns of an account row.
#[derive(Clone, Debug)]
pub struct Account {
    pub account_id: String,
    pub balance: Decimal,
    pub open_date: Date,
}

/// A saving account as read back from the store.
#[derive(Clone, Debug)]
pub struct SavingAccount {
    pub account_id: String,
    pub balance: Decimal,
    pub open_date: Date,
    pub interest: Decimal,
    pub currency_type: String,
}

/// A checking account as read back from the store.
#[derive(Clone, Debug)]
pub struct CheckingAccount {
    pub account_id: String,
    pub balance: Decimal,
    pub open_date: Date,
    pub overdraft: Decimal,
}

/// An ownership edge between a client and an account.
#[derive(Clone, Debug)]
pub struct OwnRecord {
    pub account_id: String,
    pub client_id: String,
    pub last_visit_time: String,
}

/// The per-client per-subbranch index row: which saving and which checking
/// account (if any) the client holds at that subbranch.
#[derive(Clone, Debug)]
pub struct AccountManagement {
    pub subbranch_name: String,
    pub client_id: String,
    pub saving_account_id: Option<String>,
    pub checking_account_id: Option<String>,
}

/// A subbranch row with its running asset total.
#[derive(Clone, Debug)]
pub struct Subbranch {
    pub subbranch_name: String,
    pub city: String,
    pub subbranch_asset: Decimal,
}

/// A loan principal row.
#[derive(Clone, Debug)]
pub struct Loan {
    pub loan_id: String,
    pub amount: Decimal,
    pub subbranch_name: String,
}

/// A per-date payment row against a loan.
#[derive(Clone, Debug)]
pub struct Payment {
    pub loan_id: String,
    pub date: Date,
    pub amount: Decimal,
}

/// A loan-recipient edge.
#[derive(Clone, Debug)]
pub struct ReceiveLoan {
    pub loan_id: String,
    pub client_id: String,
}

/// The rows of every table the core touches.
#[derive(Debug)]
pub struct BankState {
    pub accounts: Vec<AccountRecord>,
    pub owns: Vec<OwnRecord>,
    pub management: Vec<AccountManagement>,
    pub subbranches: Vec<Subbranch>,
    pub loans: Vec<Loan>,
    pub payments: Vec<Payment>,
    pub receive_loans: Vec<ReceiveLoan>,
}

/// Account identifiers are unique.
pub open spec fn accounts_unique(accts: Seq<AccountRecord>) -> bool {
    forall|i: int, j: int|
        0 <= i < j < accts.len() ==> (#[trigger] accts[i]).account_id@ != (
        #[trigger] accts[j]).account_id@
}

/// Subbranch names are unique.
pub open spec fn subbranches_unique(sbs: Seq<Subbranch>) -> bool {
    forall|i: int, j: int|
        0 <= i < j < sbs.len() ==> (#[trigger] sbs[i]).subbranch_name@ != (
        #[trigger] sbs[j]).subbranch_name@
}

/// At most one index row per (subbranch, client) pair.
pub open spec fn management_unique(rows: Seq<AccountManagement>) -> bool {
    forall|i: int, j: int|
        0 <= i < j < rows.len() ==> !((#[trigger] rows[i]).subbranch_name@ == (
        #[trigger] rows[j]).subbranch_name@ && rows[i].client_id@ == rows[j].client_id@)
}

/// Loan identifiers are unique.
pub open spec fn loans_unique(loans: Seq<Loan>) -> bool {
    forall|i: int, j: int|
        0 <= i < j < loans.len() ==> (#[trigger] loans[i]).loan_id@ != (
        #[trigger] loans[j]).loan_id@
}

/// Does the index row point at this account from either slot?
pub open spec fn row_references(row: AccountManagement, id: Seq<char>) -> bool {
    (row.saving_account_id matches Some(x) && x@ == id) || (
    row.checking_account_id matches Some(x) && x@ == id)
}

/// Is there an account row with this identifier and this kind?
pub open spec fn has_account_of_kind(
    accts: Seq<AccountRecord>,
    id: Seq<char>,
    k: AccountKind,
) -> bool {
    exists|i: int|
        0 <= i < accts.len() && (#[trigger] accts[i]).account_id@ == id && detail_kind(
            accts[i].detail,
        ) == k
}

/// Every filled index slot points at an existing account of the matching
/// kind.
pub open spec fn slots_resolve(s: BankState) -> bool {
    forall|k: int|
        0 <= k < s.management@.len() ==> {
            &&& ((#[trigger] s.management@[k]).saving_account_id matches Some(x)
                ==> has_account_of_kind(s.accounts@, x@, AccountKind::Saving))
            &&& (s.management@[k].checking_account_id matches Some(x)
                ==> has_account_of_kind(s.accounts@, x@, AccountKind::Checking))
        }
}

/// An account is referenced by index rows of at most one subbranch.
pub open spec fn single_home(s: BankState) -> bool {
    forall|k1: int, k2: int, id: Seq<char>|
        0 <= k1 < s.management@.len() && 0 <= k2 < s.management@.len()
            && #[trigger] row_references(s.management@[k1], id)
            && #[trigger] row_references(s.management@[k2], id)
            ==> s.management@[k1].subbranch_name@ == s.management@[k2].subbranch_name@
}

/// All stored dates are well formed.
pub open spec fn dates_wf(s: BankState) -> bool {
    &&& forall|i: int|
        0 <= i < s.accounts@.len() ==> date_wf((#[trigger] s.accounts@[i]).open_date)
    &&& forall|i: int|
        0 <= i < s.payments@.len() ==> date_wf((#[trigger] s.payments@[i]).date)
}

/// Structural well-formedness of the whole state.
pub open spec fn state_wf(s: BankState) -> bool {
    &&& accounts_unique(s.accounts@)
    &&& subbranches_unique(s.subbranches@)
    &&& management_unique(s.management@)
    &&& loans_unique(s.loans@)
    &&& slots_resolve(s)
    &&& single_home(s)
    &&& dates_wf(s)
}

/// Is the account attached to this subbranch through some index row?
pub open spec fn attached(s: BankState, sb: Seq<char>, id: Seq<char>) -> bool {
    exists|k: int|
        0 <= k < s.management@.len() && (#[trigger] s.management@[k]).subbranch_name@
            == sb && row_references(s.management@[k], id)
}

/// The sum of the balances of the accounts in `accts` that are attached to
/// the subbranch through the index rows of `s`.
pub open spec fn attached_sum(accts: Seq<AccountRecord>, s: BankState, sb: Seq<char>) -> DecModel
    decreases accts.len(),
{
    if accts.len() == 0 {
        dec_zero()
    } else {
        let rest = attached_sum(accts.drop_last(), s, sb);
        if attached(s, sb, accts.last().account_id@) {
            dec_add(rest, accts.last().balance@)
        } else {
            rest
        }
    }
}

/// Every subbranch's running asset total equals the sum of the balances of
/// the accounts attached to it.
pub open spec fn assets_ok(s: BankState) -> bool {
    forall|j: int|
        0 <= j < s.subbranches@.len() ==> dec_eq(
            (#[trigger] s.subbranches@[j]).subbranch_asset@,
            attached_sum(s.accounts@, s, s.subbranches@[j].subbranch_name@),
        )
}

/// In every well-formed state, a (subbranch, client) pair is indexed by at
/// most one account-management row — so a client holds at most one saving
/// account and at most one checking account per subbranch, one per slot of
/// its single row.
pub proof fn lemma_index_row_unique(s: BankState, i: int, j: int)
    requires
        state_wf(s),
        0 <= i < s.management@.len(),
        0 <= j < s.management@.len(),
        s.management@[i].subbranch_name@ == s.management@[j].subbranch_name@,
        s.management@[i].client_id@ == s.management@[j].client_id@,
    ensures
        i == j,
{
    if i < j {
        assert(!(s.management@[i].subbranch_name@ == s.management@[j].subbranch_name@
            && s.management@[i].client_id@ == s.management@[j].client_id@));
    } else if j < i {
        assert(!(s.management@[j].subbranch_name@ == s.management@[i].subbranch_name@
            && s.management@[j].client_id@ == s.management@[i].client_id@));
    }
}

impl BankState {
    /// A state with no rows at all.
    pub fn new() -> (r: BankState)
        ensures
            r.accounts@.len() == 0,
            r.owns@.len() == 0,
            r.management@.len() == 0,
            r.subbranches@.len() == 0,
            r.loans@.len() == 0,
            r.payments@.len() == 0,
            r.receive_loans@.len() == 0,
            state_wf(r),
            assets_ok(r),
    {
        let s = BankState {
            accounts: Vec::new(),
            owns: Vec::new(),
            management: Vec::new(),
            subbranches: Vec::new(),
            loans: Vec::new(),
            payments: Vec::new(),
            receive_loans: Vec::new(),
        };
        s
    }
}

/// The raw submission of the new-account form: every field as entered.
#[derive(Clone, Debug)]
pub struct AccountSubmit {
    pub client_ids: String,
    pub account_type: String,
    pub balance: String,
    pub currency_type: String,
    pub subbranch_name: String,
    pub overdraft: String,
    pub interest: String,
}

} // verus!
