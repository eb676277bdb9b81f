//! The account ledger writer, subbranch asset ledger and transaction
//! coordination.
//!
//! Every mutating operation is atomic: it validates everything against the
//! incoming state first and only then writes, so a failed operation leaves
//! the state exactly as it was.  The contracts spell the resulting state
//! out; the public lemmas below prove that the ledger's standing invariants
//! survive each write.

use vstd::prelude::*;
use crate::calendar::{Date, date_wf};
use crate::decimal::{DecModel, Decimal, add_fits, dec_add, dec_eq, sub_fits};
use crate::errors::BankError;
use crate::models::{
    Account, AccountDetail, AccountKind, AccountManagement, AccountRecord, AccountSubmit,
    BankState, CheckingAccount, Loan, OwnRecord, Payment, SavingAccount, Subbranch,
    accounts_unique, attached, attached_sum, assets_ok, dates_wf, detail_kind,
    has_account_of_kind, loans_unique, management_unique, row_references, single_home,
    slots_resolve, state_wf, subbranches_unique,
};
use crate::parsing::{
    contains_str, get_list_from_input, parse_decimal, parse_fits, spec_parse_decimal,
    spec_split_ws, str_eq, vec_contains_str,
};
use crate::host::{current_date, current_timestamp, fresh_account_id};

verus! {

/// All table views of the two states agree.
pub open spec fn same_state(a: BankState, b: BankState) -> bool {
    &&& a.accounts@ == b.accounts@
    &&& a.owns@ == b.owns@
    &&& a.management@ == b.management@
    &&& a.subbranches@ == b.subbranches@
    &&& a.loans@ == b.loans@
    &&& a.payments@ == b.payments@
    &&& a.receive_loans@ == b.receive_loans@
}

/// The non-account tables of the two states agree.
pub open spec fn same_aux_tables(a: BankState, b: BankState) -> bool {
    &&& a.loans@ == b.loans@
    &&& a.payments@ == b.payments@
    &&& a.receive_loans@ == b.receive_loans@
}

/// Is there a subbranch row with this name?
pub open spec fn has_subbranch(sbs: Seq<Subbranch>, name: Seq<char>) -> bool {
    exists|j: int| 0 <= j < sbs.len() && (#[trigger] sbs[j]).subbranch_name@ == name
}

/// The index of the subbranch row with this name.
pub open spec fn subbranch_index(sbs: Seq<Subbranch>, name: Seq<char>) -> int {
    choose|j: int| 0 <= j < sbs.len() && (#[trigger] sbs[j]).subbranch_name@ == name
}

/// Is there an account row with this identifier?
pub open spec fn has_account(accts: Seq<AccountRecord>, id: Seq<char>) -> bool {
    exists|i: int| 0 <= i < accts.len() && (#[trigger] accts[i]).account_id@ == id
}

/// The index of the account row with this identifier.
pub open spec fn account_index(accts: Seq<AccountRecord>, id: Seq<char>) -> int {
    choose|i: int| 0 <= i < accts.len() && (#[trigger] accts[i]).account_id@ == id
}

impl Subbranch {
    /// A field-for-field copy.
    pub fn duplicate(&self) -> (r: Subbranch)
        ensures
            r == *self,
    {
        Subbranch {
            subbranch_name: self.subbranch_name.clone(),
            city: self.city.clone(),
            subbranch_asset: self.subbranch_asset,
        }
    }
}

impl Loan {
    /// A field-for-field copy.
    pub fn duplicate(&self) -> (r: Loan)
        ensures
            r == *self,
    {
        Loan {
            loan_id: self.loan_id.clone(),
            amount: self.amount,
            subbranch_name: self.subbranch_name.clone(),
        }
    }
}

/// Look a subbranch up by name.
///
/// Returns a copy of its row; `NotFound` exactly when no row has the name.
pub fn query_subbranch(s: &BankState, subbranch: &str) -> (r: Result<
    Subbranch,
    BankError,
>)
    ensures
        r matches Ok(sb) ==> has_subbranch(s.subbranches@, subbranch@)
            && (exists|j: int|
            0 <= j < s.subbranches@.len() && #[trigger] s.subbranches@[j] == sb)
            && sb.subbranch_name@ == subbranch@,
        r is Ok <==> has_subbranch(s.subbranches@, subbranch@),
        r matches Err(e) ==> e == BankError::NotFound,
{
    let n = s.subbranches.len();
    let mut j: usize = 0;
    while j < n
        invariant
            j <= n,
            n == s.subbranches@.len(),
            forall|t: int|
                0 <= t < j ==> (#[trigger] s.subbranches@[t]).subbranch_name@
                    != subbranch@,
        decreases n - j,
    {
        if str_eq(s.subbranches[j].subbranch_name.as_str(), subbranch) {
            let row = s.subbranches[j].duplicate();
            return Ok(row);
        }
        j = j + 1;
    }
    Err(BankError::NotFound)
}

/// Read a subbranch's running asset total; `NotFound` exactly when the
/// subbranch does not exist.
pub fn get_asset(s: &BankState, subbranch: &str) -> (r: Result<Decimal, BankError>)
    ensures
        r matches Ok(a) ==> has_subbranch(s.subbranches@, subbranch@)
            && (exists|j: int|
            0 <= j < s.subbranches@.len() && (#[trigger] s.subbranches@[j]).subbranch_name@
                == subbranch@ && s.subbranches@[j].subbranch_asset == a),
        r is Ok <==> has_subbranch(s.subbranches@, subbranch@),
        r matches Err(e) ==> e == BankError::NotFound,
{
    match query_subbranch(s, subbranch) {
        Ok(sb) => Ok(sb.subbranch_asset),
        Err(e) => Err(e),
    }
}

/// Overwrite the asset total of every subbranch row carrying this name.
///
/// The ledger does no arithmetic here: callers compute the new total.  A
/// name that matches no row leaves the state unchanged, as an update
/// matching zero rows does.
pub fn set_subbranch_asset(s: &mut BankState, subbranch: &str, new_asset: &Decimal) -> (r:
    Result<(), BankError>)
    ensures
        r is Ok,
        final(s).accounts@ == old(s).accounts@,
        final(s).owns@ == old(s).owns@,
        final(s).management@ == old(s).management@,
        same_aux_tables(*final(s), *old(s)),
        final(s).subbranches@.len() == old(s).subbranches@.len(),
        forall|j: int|
            0 <= j < old(s).subbranches@.len() ==> final(s).subbranches@[j] == (if (
            #[trigger] old(s).subbranches@[j]).subbranch_name@ == subbranch@ {
                (Subbranch {
                    subbranch_name: old(s).subbranches@[j].subbranch_name,
                    city: old(s).subbranches@[j].city,
                    subbranch_asset: *new_asset,
                })
            } else {
                old(s).subbranches@[j]
            }),
{
    let n = s.subbranches.len();
    let mut j: usize = 0;
    while j < n
        invariant
            j <= n,
            n == s.subbranches@.len(),
            s.accounts@ == old(s).accounts@,
            s.owns@ == old(s).owns@,
            s.management@ == old(s).management@,
            same_aux_tables(*s, *old(s)),
            s.subbranches@.len() == old(s).subbranches@.len(),
            forall|t: int|
                j <= t < n ==> #[trigger] s.subbranches@[t] == old(s).subbranches@[t],
            forall|t: int|
                0 <= t < j ==> s.subbranches@[t] == (if (#[trigger] old(
                    s,
                ).subbranches@[t]).subbranch_name@ == subbranch@ {
                    (Subbranch {
                        subbranch_name: old(s).subbranches@[t].subbranch_name,
                        city: old(s).subbranches@[t].city,
                        subbranch_asset: *new_asset,
                    })
                } else {
                    old(s).subbranches@[t]
                }),
        decreases n - j,
    {
        if str_eq(s.subbranches[j].subbranch_name.as_str(), subbranch) {
            s.subbranches[j].subbranch_asset = *new_asset;
        }
        j = j + 1;
    }
    Ok(())
}

/// The account-type tag a submission names, if recognized.
pub open spec fn spec_kind_of(t: Seq<char>) -> Option<AccountKind> {
    if t == "savingAccount"@ {
        Some(AccountKind::Saving)
    } else if t == "checkingAccount"@ {
        Some(AccountKind::Checking)
    } else {
        None
    }
}

/// Recognize the account-type tag of a submission.
pub fn kind_of(t: &str) -> (r: Option<AccountKind>)
    ensures
        r == spec_kind_of(t@),
{
    if str_eq(t, "savingAccount") {
        Some(AccountKind::Saving)
    } else if str_eq(t, "checkingAccount") {
        Some(AccountKind::Checking)
    } else {
        None
    }
}

pub open spec fn row_key_is(row: AccountManagement, sb: Seq<char>, client: Seq<char>) -> bool {
    row.subbranch_name@ == sb && row.client_id@ == client
}

/// Is there an index row for this (subbranch, client) pair?
pub open spec fn has_row(
    rows: Seq<AccountManagement>,
    sb: Seq<char>,
    client: Seq<char>,
) -> bool {
    exists|k: int| 0 <= k < rows.len() && row_key_is(#[trigger] rows[k], sb, client)
}

/// The index of the row for this (subbranch, client) pair.
pub open spec fn row_index(
    rows: Seq<AccountManagement>,
    sb: Seq<char>,
    client: Seq<char>,
) -> int {
    choose|k: int| 0 <= k < rows.len() && row_key_is(#[trigger] rows[k], sb, client)
}

/// The other account kind.
pub open spec fn other_kind(k: AccountKind) -> AccountKind {
    match k {
        AccountKind::Saving => AccountKind::Checking,
        AccountKind::Checking => AccountKind::Saving,
    }
}

/// The slot of an index row that matches an account kind.
pub open spec fn slot_of(row: AccountManagement, kind: AccountKind) -> Option<String> {
    match kind {
        AccountKind::Saving => row.saving_account_id,
        AccountKind::Checking => row.checking_account_id,
    }
}

/// The row with the matching slot filled and everything else untouched.
pub open spec fn row_with_slot(
    row: AccountManagement,
    kind: AccountKind,
    id: String,
) -> AccountManagement {
    match kind {
        AccountKind::Saving => AccountManagement {
            subbranch_name: row.subbranch_name,
            client_id: row.client_id,
            saving_account_id: Some(id),
            checking_account_id: row.checking_account_id,
        },
        AccountKind::Checking => AccountManagement {
            subbranch_name: row.subbranch_name,
            client_id: row.client_id,
            saving_account_id: row.saving_account_id,
            checking_account_id: Some(id),
        },
    }
}

/// A brand-new index row with only the matching slot filled.
pub open spec fn fresh_row(
    sb: String,
    client: String,
    kind: AccountKind,
    id: String,
) -> AccountManagement {
    match kind {
        AccountKind::Saving => AccountManagement {
            subbranch_name: sb,
            client_id: client,
            saving_account_id: Some(id),
            checking_account_id: None,
        },
        AccountKind::Checking => AccountManagement {
            subbranch_name: sb,
            client_id: client,
            saving_account_id: None,
            checking_account_id: Some(id),
        },
    }
}

/// May this account be put into the client's slot of this kind?
pub open spec fn attach_ok(
    rows: Seq<AccountManagement>,
    sb: Seq<char>,
    client: Seq<char>,
    kind: AccountKind,
) -> bool {
    !has_row(rows, sb, client) || slot_of(rows[row_index(rows, sb, client)], kind)
        is None
}

/// The index rows after one successful attachment.
pub open spec fn attach_rows(
    rows: Seq<AccountManagement>,
    sb: String,
    client: String,
    kind: AccountKind,
    id: String,
) -> Seq<AccountManagement> {
    if has_row(rows, sb@, client@) {
        let k = row_index(rows, sb@, client@);
        rows.update(k, row_with_slot(rows[k], kind, id))
    } else {
        rows.push(fresh_row(sb, client, kind, id))
    }
}

/// Every index row that references this account lies at this subbranch.
pub open spec fn home_ok(rows: Seq<AccountManagement>, sb: Seq<char>, id: Seq<char>) -> bool {
    forall|k: int|
        0 <= k < rows.len() && row_references(#[trigger] rows[k], id)
            ==> rows[k].subbranch_name@ == sb
}

/// A field-for-field copy of an optional identifier.
fn dup_opt_string(o: &Option<String>) -> (r: Option<String>)
    ensures
        r == *o,
{
    match o {
        Some(x) => Some(x.clone()),
        None => None,
    }
}

/// Insert an ownership edge and index the account under the client's slot
/// for its kind, at a caller-supplied timestamp.
///
/// Fails with `Constraint`, leaving the state untouched, exactly when the
/// account type is not recognized or the client already holds an account of
/// that kind at that subbranch.
#[verifier::loop_isolation(false)]
pub fn add_owning_relation_at(
    s: &mut BankState,
    client_id: String,
    account_id: String,
    account_type: String,
    subbranch_name: String,
    visit_time: String,
) -> (r: Result<(), BankError>)
    requires
        management_unique(old(s).management@),
    ensures
        r is Ok <==> (spec_kind_of(account_type@) matches Some(kind) && attach_ok(
            old(s).management@,
            subbranch_name@,
            client_id@,
            kind,
        )),
        r matches Err(e) ==> e == BankError::Constraint && same_state(
            *final(s),
            *old(s),
        ),
        r is Ok ==> final(s).management@ == attach_rows(
            old(s).management@,
            subbranch_name,
            client_id,
            spec_kind_of(account_type@).unwrap(),
            account_id,
        ),
        r is Ok ==> final(s).owns@ == old(s).owns@.push(
            OwnRecord { account_id, client_id, last_visit_time: visit_time },
        ),
        final(s).accounts@ == old(s).accounts@,
        final(s).subbranches@ == old(s).subbranches@,
        same_aux_tables(*final(s), *old(s)),
        management_unique(final(s).management@),
{
    let kind = match kind_of(account_type.as_str()) {
        Some(k) => k,
        None => {
            return Err(BankError::Constraint);
        },
    };
    let n = s.management.len();
    let mut k: usize = 0;
    while k < n
        invariant
            k <= n,
            n == s.management@.len(),
            same_state(*s, *old(s)),
            forall|t: int|
                0 <= t < k ==> !row_key_is(
                    #[trigger] s.management@[t],
                    subbranch_name@,
                    client_id@,
                ),
        decreases n - k,
    {
        if str_eq(s.management[k].subbranch_name.as_str(), subbranch_name.as_str())
            && str_eq(s.management[k].client_id.as_str(), client_id.as_str()) {
            proof {
                assert(management_unique(s.management@));
                let rows = s.management@;
                assert(row_key_is(rows[k as int], subbranch_name@, client_id@));
                assert(has_row(rows, subbranch_name@, client_id@));
                let w = row_index(rows, subbranch_name@, client_id@);
                assert(row_key_is(rows[w], subbranch_name@, client_id@));
                if w < k as int {
                    assert(!(rows[w].subbranch_name@ == rows[k as int].subbranch_name@
                        && rows[w].client_id@ == rows[k as int].client_id@));
                } else if w > k as int {
                    assert(!(rows[k as int].subbranch_name@ == rows[w].subbranch_name@
                        && rows[k as int].client_id@ == rows[w].client_id@));
                }
                assert(w == k as int);
            }
            let occupied = match kind {
                AccountKind::Saving => s.management[k].saving_account_id.is_some(),
                AccountKind::Checking => s.management[k].checking_account_id.is_some(),
            };
            if occupied {
                return Err(BankError::Constraint);
            }
            let row_sb = s.management[k].subbranch_name.clone();
            let row_client = s.management[k].client_id.clone();
            let new_row = match kind {
                AccountKind::Saving => AccountManagement {
                    subbranch_name: row_sb,
                    client_id: row_client,
                    saving_account_id: Some(account_id.clone()),
                    checking_account_id: dup_opt_string(&s.management[k].checking_account_id),
                },
                AccountKind::Checking => AccountManagement {
                    subbranch_name: row_sb,
                    client_id: row_client,
                    saving_account_id: dup_opt_string(&s.management[k].saving_account_id),
                    checking_account_id: Some(account_id.clone()),
                },
            };
            s.management[k] = new_row;
            s.owns.push(OwnRecord { account_id, client_id, last_visit_time: visit_time });
            proof {
                lemma_management_unique_update(old(s).management@, s.management@, k as int);
            }
            return Ok(());
        }
        k = k + 1;
    }
    let new_row = match kind {
        AccountKind::Saving => AccountManagement {
            subbranch_name: subbranch_name.clone(),
            client_id: client_id.clone(),
            saving_account_id: Some(account_id.clone()),
            checking_account_id: None,
        },
        AccountKind::Checking => AccountManagement {
            subbranch_name: subbranch_name.clone(),
            client_id: client_id.clone(),
            saving_account_id: None,
            checking_account_id: Some(account_id.clone()),
        },
    };
    s.management.push(new_row);
    s.owns.push(OwnRecord { account_id, client_id, last_visit_time: visit_time });
    proof {
        assert forall|i: int, j: int| 0 <= i < j < s.management@.len() implies !((
        #[trigger] s.management@[i]).subbranch_name@ == (#[trigger] s.management@[j]).subbranch_name@
            && s.management@[i].client_id@ == s.management@[j].client_id@) by {
            if j == s.management@.len() - 1 {
                assert(!row_key_is(old(s).management@[i], subbranch_name@, client_id@));
            }
        }
    }
    Ok(())
}

/// Replacing a row with one carrying the same key keeps the keys unique.
proof fn lemma_management_unique_update(
    rows: Seq<AccountManagement>,
    rows2: Seq<AccountManagement>,
    k: int,
)
    requires
        management_unique(rows),
        0 <= k < rows.len(),
        rows2.len() == rows.len(),
        rows2[k].subbranch_name@ == rows[k].subbranch_name@,
        rows2[k].client_id@ == rows[k].client_id@,
        forall|t: int| 0 <= t < rows.len() && t != k ==> rows2[t] == rows[t],
    ensures
        management_unique(rows2),
{
    assert forall|i: int, j: int| 0 <= i < j < rows2.len() implies !((
    #[trigger] rows2[i]).subbranch_name@ == (#[trigger] rows2[j]).subbranch_name@
        && rows2[i].client_id@ == rows2[j].client_id@) by {
        assert(!(rows[i].subbranch_name@ == rows[j].subbranch_name@ && rows[i].client_id@
            == rows[j].client_id@));
    }
}

/// Insert an ownership edge at the current time and index the account under
/// the client's slot for its kind.
pub fn add_owning_relation(
    s: &mut BankState,
    client_id: String,
    account_id: String,
    account_type: String,
    subbranch_name: String,
) -> (r: Result<(), BankError>)
    requires
        management_unique(old(s).management@),
    ensures
        r is Ok <==> (spec_kind_of(account_type@) matches Some(kind) && attach_ok(
            old(s).management@,
            subbranch_name@,
            client_id@,
            kind,
        )),
        r matches Err(e) ==> e == BankError::Constraint && same_state(
            *final(s),
            *old(s),
        ),
        r is Ok ==> {
            &&& final(s).owns@.len() == old(s).owns@.len() + 1
            &&& final(s).owns@.last().account_id == account_id
            &&& final(s).owns@.last().client_id == client_id
            &&& forall|j: int|
                0 <= j < old(s).owns@.len() ==> final(s).owns@[j] == old(s).owns@[j]
        },
        r is Ok ==> final(s).management@ == attach_rows(
            old(s).management@,
            subbranch_name,
            client_id,
            spec_kind_of(account_type@).unwrap(),
            account_id,
        ),
        final(s).accounts@ == old(s).accounts@,
        final(s).subbranches@ == old(s).subbranches@,
        same_aux_tables(*final(s), *old(s)),
        management_unique(final(s).management@),
{
    let visit_time = current_timestamp();
    add_owning_relation_at(s, client_id, account_id, account_type, subbranch_name, visit_time)
}


/// Views of a list of strings.
pub open spec fn views_of(cl: Seq<String>) -> Seq<Seq<char>> {
    cl.map_values(|c: String| c@)
}

/// All entries of the list are distinct.
pub open spec fn views_distinct(cs: Seq<Seq<char>>) -> bool {
    forall|i: int, j: int| 0 <= i < j < cs.len() ==> cs[i] != cs[j]
}

/// The index rows after attaching the account for the first `i` clients in
/// turn.
pub open spec fn attach_fold(
    rows: Seq<AccountManagement>,
    cl: Seq<String>,
    sb: String,
    kind: AccountKind,
    id: String,
    i: int,
) -> Seq<AccountManagement>
    decreases i,
{
    if i <= 0 {
        rows
    } else {
        attach_rows(attach_fold(rows, cl, sb, kind, id, i - 1), sb, cl[i - 1], kind, id)
    }
}

/// What one whole pass of attachments does to the index rows.
///
/// Assuming the clients are distinct and each attachment is allowed against
/// the starting rows, the fold keeps old rows' keys and positions, touches
/// only rows of the named subbranch keyed by one of the clients, appends
/// rows only for that subbranch, adds references only to the new account,
/// and stays key-unique.
proof fn lemma_attach_fold(
    rows: Seq<AccountManagement>,
    cl: Seq<String>,
    sb: String,
    kind: AccountKind,
    id: String,
    i: int,
)
    requires
        0 <= i <= cl.len(),
        management_unique(rows),
        views_distinct(views_of(cl)),
        forall|j: int| 0 <= j < cl.len() ==> attach_ok(rows, sb@, (#[trigger] cl[j])@, kind),
    ensures
        attach_fold(rows, cl, sb, kind, id, i).len() >= rows.len(),
        management_unique(attach_fold(rows, cl, sb, kind, id, i)),
        forall|k: int|
            0 <= k < rows.len() ==> (#[trigger] attach_fold(rows, cl, sb, kind, id, i)[k])
                .subbranch_name@ == rows[k].subbranch_name@ && attach_fold(
                rows,
                cl,
                sb,
                kind,
                id,
                i,
            )[k].client_id@ == rows[k].client_id@,
        forall|k: int|
            0 <= k < rows.len() && !(rows[k].subbranch_name@ == sb@ && (exists|j: int|
                0 <= j < i && rows[k].client_id@ == (#[trigger] cl[j])@))
                ==> #[trigger] attach_fold(rows, cl, sb, kind, id, i)[k] == rows[k],
        forall|k: int|
            rows.len() <= k < attach_fold(rows, cl, sb, kind, id, i).len()
                ==> (#[trigger] attach_fold(rows, cl, sb, kind, id, i)[k]).subbranch_name@
                == sb@,
        forall|k: int, idv: Seq<char>|
            0 <= k < attach_fold(rows, cl, sb, kind, id, i).len() && idv != id@
                ==> (#[trigger] row_references(attach_fold(rows, cl, sb, kind, id, i)[k], idv)
                <==> (k < rows.len() && row_references(rows[k], idv))),
        forall|k: int|
            0 <= k < attach_fold(rows, cl, sb, kind, id, i).len() ==> {
                &&& ((#[trigger] attach_fold(rows, cl, sb, kind, id, i)[k]).saving_account_id
                    == (if k < rows.len() {
                    rows[k].saving_account_id
                } else {
                    None::<String>
                }) || attach_fold(rows, cl, sb, kind, id, i)[k].saving_account_id == Some(id))
                &&& (attach_fold(rows, cl, sb, kind, id, i)[k].checking_account_id == (if k
                    < rows.len() {
                    rows[k].checking_account_id
                } else {
                    None::<String>
                }) || attach_fold(rows, cl, sb, kind, id, i)[k].checking_account_id == Some(
                    id,
                ))
            },
        forall|k: int|
            0 <= k < attach_fold(rows, cl, sb, kind, id, i).len() ==> slot_of(
                #[trigger] attach_fold(rows, cl, sb, kind, id, i)[k],
                other_kind(kind),
            ) == (if k < rows.len() {
                slot_of(rows[k], other_kind(kind))
            } else {
                None::<String>
            }),
        forall|j: int|
            i <= j < cl.len() ==> attach_ok(
                attach_fold(rows, cl, sb, kind, id, i),
                sb@,
                (#[trigger] cl[j])@,
                kind,
            ),
        i >= 1 ==> (exists|k: int|
            0 <= k < attach_fold(rows, cl, sb, kind, id, i).len() && (#[trigger] attach_fold(
                rows,
                cl,
                sb,
                kind,
                id,
                i,
            )[k]).subbranch_name@ == sb@ && row_references(
                attach_fold(rows, cl, sb, kind, id, i)[k],
                id@,
            )),
    decreases i,
{
    if i > 0 {
        lemma_attach_fold(rows, cl, sb, kind, id, i - 1);
        let f0 = attach_fold(rows, cl, sb, kind, id, i - 1);
        let f1 = attach_fold(rows, cl, sb, kind, id, i);
        let c = cl[i - 1];
        assert(views_of(cl)[i - 1] == c@);
        assert(attach_ok(f0, sb@, c@, kind));
        if has_row(f0, sb@, c@) {
            let k0 = row_index(f0, sb@, c@);
            assert(row_key_is(f0[k0], sb@, c@));
            assert(f1 == f0.update(k0, row_with_slot(f0[k0], kind, id)));
            assert(f1[k0].subbranch_name@ == f0[k0].subbranch_name@);
            assert(f1[k0].client_id@ == f0[k0].client_id@);
            lemma_management_unique_update(f0, f1, k0);
            assert(slot_of(f0[k0], kind) is None);
            assert forall|k: int, idv: Seq<char>|
                0 <= k < f1.len() && idv != id@ implies (#[trigger] row_references(
                f1[k],
                idv,
            ) <==> (k < rows.len() && row_references(rows[k], idv))) by {
                if k == k0 {
                    assert(row_references(f1[k0], idv) == row_references(f0[k0], idv));
                } else {
                    assert(f1[k] == f0[k]);
                }
                assert(row_references(f0[k], idv) <==> (k < rows.len() && row_references(
                    rows[k],
                    idv,
                )));
            }
            assert(row_references(f1[k0], id@));
            assert(f1[k0].subbranch_name@ == sb@);
            // a row keyed by a distinct, not-yet-attached client cannot be
            // the updated one
            assert forall|j: int| i <= j < cl.len() implies attach_ok(
                f1,
                sb@,
                (#[trigger] cl[j])@,
                kind,
            ) by {
                assert(views_of(cl)[j] == cl[j]@);
                assert(cl[j]@ != c@);
                if has_row(f1, sb@, cl[j]@) {
                    let w = row_index(f1, sb@, cl[j]@);
                    assert(row_key_is(f1[w], sb@, cl[j]@));
                    assert(w != k0);
                    assert(f1[w] == f0[w]);
                    assert(has_row(f0, sb@, cl[j]@));
                    let w0 = row_index(f0, sb@, cl[j]@);
                    assert(row_key_is(f0[w0], sb@, cl[j]@));
                    if w0 != w {
                        assert(!(f0[w0].subbranch_name@ == f0[w].subbranch_name@
                            && f0[w0].client_id@ == f0[w].client_id@));
                    }
                    assert(slot_of(f1[w], kind) is None);
                }
            }
        } else {
            assert(f1 == f0.push(fresh_row(sb, c, kind, id)));
            assert forall|i2: int, j2: int| 0 <= i2 < j2 < f1.len() implies !((
            #[trigger] f1[i2]).subbranch_name@ == (#[trigger] f1[j2]).subbranch_name@
                && f1[i2].client_id@ == f1[j2].client_id@) by {
                if j2 == f1.len() - 1 {
                    if i2 < rows.len() {
                        if f1[i2].subbranch_name@ == sb@ && f1[i2].client_id@ == c@ {
                            assert(row_key_is(f0[i2], sb@, c@));
                            assert(has_row(f0, sb@, c@));
                        }
                    }
                }
            }
            assert forall|k: int, idv: Seq<char>|
                0 <= k < f1.len() && idv != id@ implies (#[trigger] row_references(
                f1[k],
                idv,
            ) <==> (k < rows.len() && row_references(rows[k], idv))) by {
                if k < f0.len() {
                    assert(f1[k] == f0[k]);
                    assert(row_references(f0[k], idv) <==> (k < rows.len()
                        && row_references(rows[k], idv)));
                } else {
                    assert(f1[k] == fresh_row(sb, c, kind, id));
                }
            }
            assert(row_references(f1[f1.len() - 1], id@));
            assert(f1[f1.len() - 1].subbranch_name@ == sb@);
            assert forall|j: int| i <= j < cl.len() implies attach_ok(
                f1,
                sb@,
                (#[trigger] cl[j])@,
                kind,
            ) by {
                assert(views_of(cl)[j] == cl[j]@);
                assert(cl[j]@ != c@);
                if has_row(f1, sb@, cl[j]@) {
                    let w = row_index(f1, sb@, cl[j]@);
                    assert(row_key_is(f1[w], sb@, cl[j]@));
                    assert(w != f1.len() - 1);
                    assert(f1[w] == f0[w]);
                    assert(has_row(f0, sb@, cl[j]@));
                    let w0 = row_index(f0, sb@, cl[j]@);
                    assert(row_key_is(f0[w0], sb@, cl[j]@));
                    if w0 != w {
                        assert(!(f0[w0].subbranch_name@ == f0[w].subbranch_name@
                            && f0[w0].client_id@ == f0[w].client_id@));
                    }
                    assert(slot_of(f1[w], kind) is None);
                }
            }
        }
    }
}


/// The string parses to a decimal that the representation can hold.
pub open spec fn parses(sv: Seq<char>) -> bool {
    spec_parse_decimal(sv) matches Some(m) && parse_fits(m)
}

/// The parsed decimal.
pub open spec fn parsed(sv: Seq<char>) -> crate::decimal::DecModel {
    spec_parse_decimal(sv).unwrap()
}

/// The user-entered fields of the submission are well formed.
pub open spec fn entity_validation_ok(sub: AccountSubmit) -> bool {
    &&& spec_kind_of(sub.account_type@) is Some
    &&& parses(sub.balance@)
    &&& (spec_kind_of(sub.account_type@) == Some(AccountKind::Saving) ==> parses(
        sub.interest@,
    ))
    &&& (spec_kind_of(sub.account_type@) == Some(AccountKind::Checking) ==> parses(
        sub.overdraft@,
    ))
}

/// All conditions for inserting the account rows themselves.
pub open spec fn entity_checks(s: BankState, sub: AccountSubmit, id: Seq<char>) -> bool {
    entity_validation_ok(sub) && !has_account(s.accounts@, id)
}

/// The error the entity insertion reports when it fails.
pub open spec fn entity_error(s: BankState, sub: AccountSubmit, id: Seq<char>) -> BankError {
    if !entity_validation_ok(sub) {
        BankError::Validation
    } else {
        BankError::Storage
    }
}

/// The inserted account row carries exactly what the submission says.
pub open spec fn record_matches(
    rec: AccountRecord,
    sub: AccountSubmit,
    id: String,
    open_date: Date,
) -> bool {
    &&& rec.account_id == id
    &&& rec.balance@ == parsed(sub.balance@)
    &&& rec.open_date == open_date
    &&& detail_kind(rec.detail) == spec_kind_of(sub.account_type@).unwrap()
    &&& (rec.detail matches AccountDetail::Saving { interest, currency_type }
        ==> interest@ == parsed(sub.interest@) && currency_type@ == sub.currency_type@)
    &&& (rec.detail matches AccountDetail::Checking { overdraft } ==> overdraft@ == parsed(
        sub.overdraft@,
    ))
}

/// Insert the account row for a caller-supplied identifier and date.
///
/// Parses every numeric field and the account type; fails with `Validation`
/// on malformed input and with `Storage` when the identifier collides, in
/// both cases leaving the state untouched.
#[verifier::loop_isolation(false)]
pub fn add_account_entity_at(
    s: &mut BankState,
    sub: &AccountSubmit,
    account_id: String,
    open_date: Date,
) -> (r: Result<(), BankError>)
    requires
        date_wf(open_date),
    ensures
        r is Ok <==> entity_checks(*old(s), *sub, account_id@),
        r matches Err(e) ==> same_state(*final(s), *old(s)) && e == entity_error(
            *old(s),
            *sub,
            account_id@,
        ),
        r is Ok ==> {
            &&& final(s).accounts@.len() == old(s).accounts@.len() + 1
            &&& forall|i: int|
                0 <= i < old(s).accounts@.len() ==> final(s).accounts@[i] == old(
                    s,
                ).accounts@[i]
            &&& record_matches(final(s).accounts@.last(), *sub, account_id, open_date)
            &&& final(s).owns@ == old(s).owns@
            &&& final(s).management@ == old(s).management@
            &&& final(s).subbranches@ == old(s).subbranches@
            &&& same_aux_tables(*final(s), *old(s))
        },
{
    let kind = match kind_of(sub.account_type.as_str()) {
        Some(k) => k,
        None => {
            return Err(BankError::Validation);
        },
    };
    let balance = match parse_decimal(sub.balance.as_str()) {
        Ok(b) => b,
        Err(_) => {
            return Err(BankError::Validation);
        },
    };
    let detail = match kind {
        AccountKind::Saving => {
            let interest = match parse_decimal(sub.interest.as_str()) {
                Ok(v) => v,
                Err(_) => {
                    return Err(BankError::Validation);
                },
            };
            AccountDetail::Saving { interest, currency_type: sub.currency_type.clone() }
        },
        AccountKind::Checking => {
            let overdraft = match parse_decimal(sub.overdraft.as_str()) {
                Ok(v) => v,
                Err(_) => {
                    return Err(BankError::Validation);
                },
            };
            AccountDetail::Checking { overdraft }
        },
    };
    let n = s.accounts.len();
    let mut i: usize = 0;
    while i < n
        invariant
            i <= n,
            n == s.accounts@.len(),
            same_state(*s, *old(s)),
            forall|t: int|
                0 <= t < i ==> (#[trigger] s.accounts@[t]).account_id@ != account_id@,
        decreases n - i,
    {
        if str_eq(s.accounts[i].account_id.as_str(), account_id.as_str()) {
            return Err(BankError::Storage);
        }
        i = i + 1;
    }
    s.accounts.push(
        AccountRecord { account_id, balance, open_date, detail },
    );
    Ok(())
}

/// Create the account rows: a fresh identifier, today as the opening date.
///
/// This is the entity half of account creation; ownership fan-out and the
/// asset update happen in [`add_new_account_and_own`].
pub fn add_account_entity(s: &mut BankState, sub: &AccountSubmit) -> (r: Result<
    String,
    BankError,
>)
    ensures
        r matches Err(e) ==> same_state(*final(s), *old(s)) && (e == BankError::Validation
            || e == BankError::Storage) && (e == BankError::Validation
            <==> !entity_validation_ok(*sub)),
        r matches Ok(id) ==> (exists|d: Date|
            {
                &&& #[trigger] date_wf(d)
                &&& final(s).accounts@.len() == old(s).accounts@.len() + 1
                &&& (forall|i: int|
                    0 <= i < old(s).accounts@.len() ==> final(s).accounts@[i] == old(
                        s,
                    ).accounts@[i])
                &&& record_matches(final(s).accounts@.last(), *sub, id, d)
                &&& final(s).owns@ == old(s).owns@
                &&& final(s).management@ == old(s).management@
                &&& final(s).subbranches@ == old(s).subbranches@
                &&& same_aux_tables(*final(s), *old(s))
            }),
{
    let account_id = fresh_account_id();
    let (y, m, d) = current_date();
    let open_date = Date { year: y, month: m, day: d };
    let id_copy = account_id.clone();
    match add_account_entity_at(s, sub, account_id, open_date) {
        Ok(()) => {
            proof {
                assert(date_wf(open_date));
            }
            Ok(id_copy)
        },
        Err(e) => Err(e),
    }
}


/// The client list is free of duplicates and every attachment is allowed
/// against these index rows.
pub open spec fn attaches_ok(s: BankState, sub: AccountSubmit) -> bool {
    let split = spec_split_ws(sub.client_ids@);
    let kind = spec_kind_of(sub.account_type@).unwrap();
    views_distinct(split) && (forall|j: int|
        0 <= j < split.len() ==> attach_ok(
            s.management@,
            sub.subbranch_name@,
            #[trigger] split[j],
            kind,
        ))
}

/// Everything account creation with ownership fan-out checks before it
/// writes.
pub open spec fn create_checks(s: BankState, sub: AccountSubmit, id: Seq<char>) -> bool {
    &&& entity_checks(s, sub, id)
    &&& attaches_ok(s, sub)
    &&& has_subbranch(s.subbranches@, sub.subbranch_name@)
    &&& add_fits(
        s.subbranches@[subbranch_index(s.subbranches@, sub.subbranch_name@)]
            .subbranch_asset@,
        parsed(sub.balance@),
    )
}

/// The error account creation reports, by the order the checks run in.
pub open spec fn create_error(s: BankState, sub: AccountSubmit, id: Seq<char>) -> BankError {
    if !entity_validation_ok(sub) {
        BankError::Validation
    } else if has_account(s.accounts@, id) {
        BankError::Storage
    } else if !attaches_ok(s, sub) {
        BankError::Constraint
    } else if !has_subbranch(s.subbranches@, sub.subbranch_name@) {
        BankError::NotFound
    } else {
        BankError::Validation
    }
}

/// The full effect of a successful account creation: one account row, one
/// ownership edge per client, the index rows attached in client order, and
/// the subbranch asset raised by the opening balance.
pub open spec fn create_effect(
    pre: BankState,
    post: BankState,
    sub: AccountSubmit,
    account_id: String,
    open_date: Date,
    cl: Seq<String>,
) -> bool {
    &&& views_of(cl) == spec_split_ws(sub.client_ids@)
    &&& post.accounts@.len() == pre.accounts@.len() + 1
    &&& (forall|i: int|
        0 <= i < pre.accounts@.len() ==> post.accounts@[i] == pre.accounts@[i])
    &&& record_matches(post.accounts@.last(), sub, account_id, open_date)
    &&& post.management@ == attach_fold(
        pre.management@,
        cl,
        sub.subbranch_name,
        spec_kind_of(sub.account_type@).unwrap(),
        account_id,
        cl.len() as int,
    )
    &&& post.owns@.len() == pre.owns@.len() + cl.len()
    &&& (forall|t: int| 0 <= t < pre.owns@.len() ==> post.owns@[t] == pre.owns@[t])
    &&& (forall|t: int|
        pre.owns@.len() <= t < post.owns@.len() ==> (#[trigger] post.owns@[t]).account_id
            == account_id && post.owns@[t].client_id == cl[t - pre.owns@.len()])
    &&& post.subbranches@.len() == pre.subbranches@.len()
    &&& (forall|j: int|
        0 <= j < pre.subbranches@.len() && (#[trigger] pre.subbranches@[j]).subbranch_name@
            != sub.subbranch_name@ ==> post.subbranches@[j] == pre.subbranches@[j])
    &&& (forall|j: int|
        0 <= j < pre.subbranches@.len() && (#[trigger] pre.subbranches@[j]).subbranch_name@
            == sub.subbranch_name@ ==> post.subbranches@[j].subbranch_name == pre
            .subbranches@[j].subbranch_name && post.subbranches@[j].city == pre
            .subbranches@[j].city && post.subbranches@[j].subbranch_asset@ == dec_add(
            pre.subbranches@[j].subbranch_asset@,
            parsed(sub.balance@),
        ))
    &&& same_aux_tables(post, pre)
}

/// Equal attachment verdicts give equal balance sums.
proof fn lemma_attached_sum_congruent(
    accts: Seq<AccountRecord>,
    s1: BankState,
    s2: BankState,
    sb: Seq<char>,
)
    requires
        forall|i: int|
            0 <= i < accts.len() ==> attached(s1, sb, (#[trigger] accts[i]).account_id@)
                == attached(s2, sb, accts[i].account_id@),
    ensures
        attached_sum(accts, s1, sb) == attached_sum(accts, s2, sb),
    decreases accts.len(),
{
    if accts.len() > 0 {
        let d = accts.drop_last();
        assert(forall|i: int| 0 <= i < d.len() ==> d[i] == accts[i]);
        lemma_attached_sum_congruent(d, s1, s2, sb);
        assert(accts.last() == accts[accts.len() - 1]);
    }
}

/// No index row references an identifier that no account row carries.
proof fn lemma_no_refs_for_unknown_id(s: BankState, id: Seq<char>)
    requires
        slots_resolve(s),
        !has_account(s.accounts@, id),
    ensures
        forall|k: int|
            0 <= k < s.management@.len() ==> !row_references(#[trigger] s.management@[k], id),
{
    assert forall|k: int| 0 <= k < s.management@.len() implies !row_references(
        #[trigger] s.management@[k],
        id,
    ) by {
        if row_references(s.management@[k], id) {
            match s.management@[k].saving_account_id {
                Some(x) => {
                    if x@ == id {
                        assert(has_account_of_kind(s.accounts@, x@, AccountKind::Saving));
                        let i = choose|i: int|
                            0 <= i < s.accounts@.len() && (#[trigger] s.accounts@[i])
                                .account_id@ == x@ && detail_kind(s.accounts@[i].detail)
                                == AccountKind::Saving;
                        assert(s.accounts@[i].account_id@ == id);
                    }
                },
                None => {},
            }
            match s.management@[k].checking_account_id {
                Some(x) => {
                    if x@ == id {
                        assert(has_account_of_kind(s.accounts@, x@, AccountKind::Checking));
                        let i = choose|i: int|
                            0 <= i < s.accounts@.len() && (#[trigger] s.accounts@[i])
                                .account_id@ == x@ && detail_kind(s.accounts@[i].detail)
                                == AccountKind::Checking;
                        assert(s.accounts@[i].account_id@ == id);
                    }
                },
                None => {},
            }
        }
    }
}

/// Account creation keeps the state well formed, and keeps every
/// subbranch's asset total equal to the sum of its attached balances.
///
/// These are the two standing invariants of the ledger: index rows stay
/// unique per (subbranch, client) with every slot resolving to a matching
/// account, and the asset ledger stays consistent with the account table.
/// The asset half asks for at least one owner: an account created with no
/// owners raises the subbranch asset without being reachable through any
/// ownership edge, and that state the sum equation cannot describe.
pub proof fn lemma_create_preserves_invariants(
    pre: BankState,
    post: BankState,
    sub: AccountSubmit,
    account_id: String,
    open_date: Date,
    cl: Seq<String>,
)
    requires
        state_wf(pre),
        date_wf(open_date),
        create_checks(pre, sub, account_id@),
        create_effect(pre, post, sub, account_id, open_date, cl),
    ensures
        state_wf(post),
        assets_ok(pre) && cl.len() >= 1 ==> assets_ok(post),
{
    let kind = spec_kind_of(sub.account_type@).unwrap();
    let sb = sub.subbranch_name@;
    let id = account_id@;
    let rows = pre.management@;
    let m = cl.len() as int;
    let f = attach_fold(rows, cl, sub.subbranch_name, kind, account_id, m);
    let rec = post.accounts@.last();
    assert(forall|j: int|
        0 <= j < views_of(cl).len() ==> views_of(cl)[j] == (#[trigger] cl[j])@);
    lemma_attach_fold(rows, cl, sub.subbranch_name, kind, account_id, m);
    lemma_no_refs_for_unknown_id(pre, id);
    assert(post.management@ == f);

    // referencing the new id forces the row to lie at the named subbranch
    assert forall|k: int|
        0 <= k < f.len() && row_references(#[trigger] f[k], id) implies f[k].subbranch_name@
        == sb by {
        if k < rows.len() {
            match f[k].saving_account_id {
                Some(x) => {
                    if x@ == id {
                        if f[k].saving_account_id == rows[k].saving_account_id {
                            assert(row_references(rows[k], id));
                        } else {
                            assert(f[k] != rows[k]);
                            assert(rows[k].subbranch_name@ == sb && (exists|j: int|
                                0 <= j < m && rows[k].client_id@ == (#[trigger] cl[j])@));
                        }
                    }
                },
                None => {},
            }
            match f[k].checking_account_id {
                Some(x) => {
                    if x@ == id {
                        if f[k].checking_account_id == rows[k].checking_account_id {
                            assert(row_references(rows[k], id));
                        } else {
                            assert(f[k] != rows[k]);
                            assert(rows[k].subbranch_name@ == sb && (exists|j: int|
                                0 <= j < m && rows[k].client_id@ == (#[trigger] cl[j])@));
                        }
                    }
                },
                None => {},
            }
        }
    }

    // well-formedness of the new state
    assert(accounts_unique(post.accounts@)) by {
        assert forall|i: int, j: int| 0 <= i < j < post.accounts@.len() implies (
        #[trigger] post.accounts@[i]).account_id@ != (#[trigger] post.accounts@[j])
            .account_id@ by {
            if j == post.accounts@.len() - 1 {
                assert(post.accounts@[i] == pre.accounts@[i]);
                assert(!has_account(pre.accounts@, id));
            }
        }
    }
    assert(subbranches_unique(post.subbranches@)) by {
        assert forall|i: int, j: int| 0 <= i < j < post.subbranches@.len() implies (
        #[trigger] post.subbranches@[i]).subbranch_name@ != (#[trigger] post.subbranches@[j])
            .subbranch_name@ by {
            assert(post.subbranches@[i].subbranch_name@ == pre.subbranches@[i]
                .subbranch_name@);
            assert(post.subbranches@[j].subbranch_name@ == pre.subbranches@[j]
                .subbranch_name@);
        }
    }
    assert(dates_wf(post)) by {
        assert forall|i: int| 0 <= i < post.accounts@.len() implies date_wf(
            (#[trigger] post.accounts@[i]).open_date,
        ) by {
            if i < pre.accounts@.len() {
                assert(post.accounts@[i] == pre.accounts@[i]);
            } else {
                assert(post.accounts@[i] == rec);
            }
        }
    }
    assert(slots_resolve(post)) by {
        assert forall|k: int| 0 <= k < post.management@.len() implies {
            &&& ((#[trigger] post.management@[k]).saving_account_id matches Some(x)
                ==> has_account_of_kind(post.accounts@, x@, AccountKind::Saving))
            &&& (post.management@[k].checking_account_id matches Some(x)
                ==> has_account_of_kind(post.accounts@, x@, AccountKind::Checking))
        } by {
            let old_saving: Option<String> = if k < rows.len() {
                rows[k].saving_account_id
            } else {
                None
            };
            let old_checking: Option<String> = if k < rows.len() {
                rows[k].checking_account_id
            } else {
                None
            };
            match f[k].saving_account_id {
                Some(x) => {
                    if f[k].saving_account_id == old_saving {
                        assert(has_account_of_kind(pre.accounts@, x@, AccountKind::Saving));
                        let i = choose|i: int|
                            0 <= i < pre.accounts@.len() && (#[trigger] pre.accounts@[i])
                                .account_id@ == x@ && detail_kind(pre.accounts@[i].detail)
                                == AccountKind::Saving;
                        assert(post.accounts@[i] == pre.accounts@[i]);
                        assert(has_account_of_kind(post.accounts@, x@, AccountKind::Saving));
                    } else {
                        assert(f[k].saving_account_id == Some(account_id));
                        assert(x == account_id);
                        if kind != AccountKind::Saving {
                            assert(slot_of(f[k], other_kind(kind)) == old_saving);
                        }
                        assert(kind == AccountKind::Saving);
                        assert(detail_kind(rec.detail) == AccountKind::Saving);
                        assert(post.accounts@[post.accounts@.len() - 1] == rec);
                        assert(has_account_of_kind(post.accounts@, x@, AccountKind::Saving));
                    }
                },
                None => {},
            }
            match f[k].checking_account_id {
                Some(x) => {
                    if f[k].checking_account_id == old_checking {
                        assert(has_account_of_kind(
                            pre.accounts@,
                            x@,
                            AccountKind::Checking,
                        ));
                        let i = choose|i: int|
                            0 <= i < pre.accounts@.len() && (#[trigger] pre.accounts@[i])
                                .account_id@ == x@ && detail_kind(pre.accounts@[i].detail)
                                == AccountKind::Checking;
                        assert(post.accounts@[i] == pre.accounts@[i]);
                        assert(has_account_of_kind(
                            post.accounts@,
                            x@,
                            AccountKind::Checking,
                        ));
                    } else {
                        assert(f[k].checking_account_id == Some(account_id));
                        assert(x == account_id);
                        if kind != AccountKind::Checking {
                            assert(slot_of(f[k], other_kind(kind)) == old_checking);
                        }
                        assert(kind == AccountKind::Checking);
                        assert(detail_kind(rec.detail) == AccountKind::Checking);
                        assert(post.accounts@[post.accounts@.len() - 1] == rec);
                        assert(has_account_of_kind(
                            post.accounts@,
                            x@,
                            AccountKind::Checking,
                        ));
                    }
                },
                None => {},
            }
        }
    }
    assert(single_home(post)) by {
        assert forall|k1: int, k2: int, idv: Seq<char>|
            0 <= k1 < post.management@.len() && 0 <= k2 < post.management@.len()
                && #[trigger] row_references(post.management@[k1], idv)
                && #[trigger] row_references(post.management@[k2], idv) implies post
            .management@[k1].subbranch_name@ == post.management@[k2].subbranch_name@ by {
            if idv == id {
                assert(f[k1].subbranch_name@ == sb);
                assert(f[k2].subbranch_name@ == sb);
            } else {
                assert(k1 < rows.len() && row_references(rows[k1], idv));
                assert(k2 < rows.len() && row_references(rows[k2], idv));
                assert(f[k1].subbranch_name@ == rows[k1].subbranch_name@);
                assert(f[k2].subbranch_name@ == rows[k2].subbranch_name@);
            }
        }
    }
    assert(state_wf(post));

    // the asset equation
    if assets_ok(pre) && cl.len() >= 1 {
        // the new account is attached exactly at the named subbranch
        assert(attached(post, sb, id)) by {
            let k = choose|k: int|
                0 <= k < f.len() && (#[trigger] f[k]).subbranch_name@ == sb
                    && row_references(f[k], id);
            assert(0 <= k < post.management@.len() && post.management@[k].subbranch_name@
                == sb && row_references(post.management@[k], id));
        }
        assert forall|j: int| 0 <= j < post.subbranches@.len() implies dec_eq(
            (#[trigger] post.subbranches@[j]).subbranch_asset@,
            attached_sum(post.accounts@, post, post.subbranches@[j].subbranch_name@),
        ) by {
            let name = pre.subbranches@[j].subbranch_name@;
            assert(post.subbranches@[j].subbranch_name@ == name);
            // old accounts keep their attachment verdicts
            assert forall|i: int|
                0 <= i < pre.accounts@.len() implies attached(
                post,
                name,
                (#[trigger] pre.accounts@[i]).account_id@,
            ) == attached(pre, name, pre.accounts@[i].account_id@) by {
                let aid = pre.accounts@[i].account_id@;
                assert(has_account(pre.accounts@, aid));
                assert(aid != id);
                if attached(pre, name, aid) {
                    let k = choose|k: int|
                        0 <= k < rows.len() && (#[trigger] rows[k]).subbranch_name@ == name
                            && row_references(rows[k], aid);
                    assert(row_references(f[k], aid));
                    assert(f[k].subbranch_name@ == name);
                    assert(attached(post, name, aid));
                }
                if attached(post, name, aid) {
                    let k = choose|k: int|
                        0 <= k < f.len() && (#[trigger] f[k]).subbranch_name@ == name
                            && row_references(f[k], aid);
                    assert(k < rows.len() && row_references(rows[k], aid));
                    assert(rows[k].subbranch_name@ == name);
                    assert(attached(pre, name, aid));
                }
            }
            lemma_attached_sum_congruent(pre.accounts@, post, pre, name);
            assert(pre.accounts@ == post.accounts@.drop_last());
            if name == sb {
                assert(attached(post, name, rec.account_id@));
                assert(attached_sum(post.accounts@, post, name) == dec_add(
                    attached_sum(pre.accounts@, pre, name),
                    rec.balance@,
                ));
                crate::decimal::lemma_dec_add_congruent(
                    pre.subbranches@[j].subbranch_asset@,
                    attached_sum(pre.accounts@, pre, name),
                    rec.balance@,
                );
            } else {
                assert(!attached(post, name, rec.account_id@)) by {
                    if attached(post, name, id) {
                        let k = choose|k: int|
                            0 <= k < f.len() && (#[trigger] f[k]).subbranch_name@ == name
                                && row_references(f[k], id);
                        assert(f[k].subbranch_name@ == sb);
                    }
                }
                assert(attached_sum(post.accounts@, post, name) == attached_sum(
                    pre.accounts@,
                    pre,
                    name,
                ));
                assert(post.subbranches@[j] == pre.subbranches@[j]);
            }
        }
    }
}


/// May this account kind still be attached for this client at this
/// subbranch?
#[verifier::loop_isolation(false)]
fn check_attach_ok(s: &BankState, sb: &str, client: &str, kind: AccountKind) -> (r: bool)
    requires
        management_unique(s.management@),
    ensures
        r == attach_ok(s.management@, sb@, client@, kind),
{
    let n = s.management.len();
    let mut k: usize = 0;
    while k < n
        invariant
            k <= n,
            n == s.management@.len(),
            forall|t: int|
                0 <= t < k ==> !row_key_is(#[trigger] s.management@[t], sb@, client@),
        decreases n - k,
    {
        if str_eq(s.management[k].subbranch_name.as_str(), sb)
            && str_eq(s.management[k].client_id.as_str(), client) {
            proof {
                let rows = s.management@;
                assert(row_key_is(rows[k as int], sb@, client@));
                assert(has_row(rows, sb@, client@));
                let w = row_index(rows, sb@, client@);
                assert(row_key_is(rows[w], sb@, client@));
                if w < k as int {
                    assert(!(rows[w].subbranch_name@ == rows[k as int].subbranch_name@
                        && rows[w].client_id@ == rows[k as int].client_id@));
                } else if w > k as int {
                    assert(!(rows[k as int].subbranch_name@ == rows[w].subbranch_name@
                        && rows[k as int].client_id@ == rows[w].client_id@));
                }
                assert(w == k as int);
            }
            let occupied = match kind {
                AccountKind::Saving => s.management[k].saving_account_id.is_some(),
                AccountKind::Checking => s.management[k].checking_account_id.is_some(),
            };
            return !occupied;
        }
        k = k + 1;
    }
    true
}

/// Create an account with its ownership fan-out and asset update, for a
/// caller-supplied identifier, opening date and visit timestamp.
///
/// Validates everything first — the account type tag, every numeric field,
/// identifier freshness, the client list (a repeated client fails, as the
/// second attachment would), each index slot, the subbranch, and the asset
/// sum — and only then writes the account row, the ownership edges, the
/// index rows and the new asset total.  Any failure leaves the state
/// exactly as it was.
#[verifier::loop_isolation(false)]
pub fn add_new_account_and_own_at(
    s: &mut BankState,
    sub: &AccountSubmit,
    account_id: String,
    open_date: Date,
    visit_time: String,
) -> (r: Result<(), BankError>)
    requires
        state_wf(*old(s)),
        date_wf(open_date),
    ensures
        r is Ok <==> create_checks(*old(s), *sub, account_id@),
        r matches Err(e) ==> same_state(*final(s), *old(s)) && e == create_error(
            *old(s),
            *sub,
            account_id@,
        ),
        r is Ok ==> (exists|cl: Seq<String>|
            #[trigger] create_effect(*old(s), *final(s), *sub, account_id, open_date, cl)),
        r is Ok ==> state_wf(*final(s)),
        r is Ok && assets_ok(*old(s)) && spec_split_ws(sub.client_ids@).len() >= 1
            ==> assets_ok(*final(s)),
{
    let ghost pre = *s;
    // validate the submission fields
    let kind = match kind_of(sub.account_type.as_str()) {
        Some(k) => k,
        None => {
            return Err(BankError::Validation);
        },
    };
    let balance = match parse_decimal(sub.balance.as_str()) {
        Ok(b) => b,
        Err(_) => {
            return Err(BankError::Validation);
        },
    };
    match kind {
        AccountKind::Saving => {
            match parse_decimal(sub.interest.as_str()) {
                Ok(_) => {},
                Err(_) => {
                    return Err(BankError::Validation);
                },
            }
        },
        AccountKind::Checking => {
            match parse_decimal(sub.overdraft.as_str()) {
                Ok(_) => {},
                Err(_) => {
                    return Err(BankError::Validation);
                },
            }
        },
    }
    // identifier freshness
    let na = s.accounts.len();
    let mut i: usize = 0;
    while i < na
        invariant
            i <= na,
            na == s.accounts@.len(),
            same_state(*s, pre),
            forall|t: int|
                0 <= t < i ==> (#[trigger] s.accounts@[t]).account_id@ != account_id@,
        decreases na - i,
    {
        if str_eq(s.accounts[i].account_id.as_str(), account_id.as_str()) {
            return Err(BankError::Storage);
        }
        i = i + 1;
    }
    // the client list: no duplicates, every slot still free
    let clients = get_list_from_input(sub.client_ids.as_str());
    let ghost split = spec_split_ws(sub.client_ids@);
    proof {
        assert(views_of(clients@) == split);
        assert(forall|j: int|
            0 <= j < clients@.len() ==> views_of(clients@)[j] == (#[trigger] clients@[j])@);
    }
    let m = clients.len();
    let mut ci: usize = 0;
    while ci < m
        invariant
            ci <= m,
            m == clients@.len(),
            same_state(*s, pre),
            forall|j1: int, j2: int|
                0 <= j1 < j2 < ci ==> (#[trigger] clients@[j1])@ != (
                #[trigger] clients@[j2])@,
            forall|j: int|
                0 <= j < ci ==> attach_ok(
                    s.management@,
                    sub.subbranch_name@,
                    (#[trigger] clients@[j])@,
                    kind,
                ),
        decreases m - ci,
    {
        let mut cj: usize = 0;
        while cj < ci
            invariant
                cj <= ci < m,
                m == clients@.len(),
                forall|j: int|
                    0 <= j < cj ==> (#[trigger] clients@[j])@ != clients@[ci as int]@,
            decreases ci - cj,
        {
            if str_eq(clients[cj].as_str(), clients[ci].as_str()) {
                proof {
                    assert(split[cj as int] == split[ci as int]);
                    assert(!views_distinct(split));
                }
                return Err(BankError::Constraint);
            }
            cj = cj + 1;
        }
        if !check_attach_ok(s, sub.subbranch_name.as_str(), clients[ci].as_str(), kind) {
            proof {
                assert(!attach_ok(pre.management@, sub.subbranch_name@, split[ci as int],
                    kind));
            }
            return Err(BankError::Constraint);
        }
        ci = ci + 1;
    }
    // the subbranch and the new asset total
    let nsb = s.subbranches.len();
    let mut sbi: usize = 0;
    let mut found = false;
    while sbi < nsb
        invariant
            sbi <= nsb,
            nsb == s.subbranches@.len(),
            same_state(*s, pre),
            !found,
            forall|t: int|
                0 <= t < sbi ==> (#[trigger] s.subbranches@[t]).subbranch_name@ != sub
                    .subbranch_name@,
        decreases nsb - sbi,
    {
        if str_eq(s.subbranches[sbi].subbranch_name.as_str(), sub.subbranch_name.as_str()) {
            found = true;
            break;
        }
        sbi = sbi + 1;
    }
    if !found {
        return Err(BankError::NotFound);
    }
    proof {
        let sbs = s.subbranches@;
        assert(has_subbranch(sbs, sub.subbranch_name@));
        let w = subbranch_index(sbs, sub.subbranch_name@);
        assert(sbs[w].subbranch_name@ == sub.subbranch_name@);
        if w < sbi as int {
            assert(sbs[w].subbranch_name@ != sbs[sbi as int].subbranch_name@);
        } else if w > sbi as int {
            assert(sbs[sbi as int].subbranch_name@ != sbs[w].subbranch_name@);
        }
        assert(w == sbi as int);
    }
    let cur_asset = s.subbranches[sbi].subbranch_asset;
    let new_asset = match cur_asset.checked_add(&balance) {
        Some(v) => v,
        None => {
            return Err(BankError::Validation);
        },
    };
    // all checks passed: write the account row
    proof {
        assert(create_checks(pre, *sub, account_id@));
    }
    match add_account_entity_at(s, sub, account_id.clone(), open_date) {
        Ok(()) => {},
        Err(e) => {
            return Err(e);
        },
    }
    let ghost s1 = *s;
    let ghost kspec = spec_kind_of(sub.account_type@).unwrap();
    // attach every client
    let mut ai: usize = 0;
    while ai < m
        invariant
            ai <= m,
            m == clients@.len(),
            s.accounts@ == s1.accounts@,
            s.subbranches@ == s1.subbranches@,
            same_aux_tables(*s, s1),
            s.management@ == attach_fold(
                pre.management@,
                clients@,
                sub.subbranch_name,
                kspec,
                account_id,
                ai as int,
            ),
            management_unique(s.management@),
            s.owns@.len() == s1.owns@.len() + ai,
            forall|t: int| 0 <= t < s1.owns@.len() ==> s.owns@[t] == s1.owns@[t],
            forall|t: int|
                s1.owns@.len() <= t < s.owns@.len() ==> (#[trigger] s.owns@[t]).account_id
                    == account_id && s.owns@[t].client_id == clients@[t - s1.owns@.len()]
                    && s.owns@[t].last_visit_time == visit_time,
        decreases m - ai,
    {
        proof {
            lemma_attach_fold(
                pre.management@,
                clients@,
                sub.subbranch_name,
                kspec,
                account_id,
                ai as int,
            );
            lemma_attach_fold(
                pre.management@,
                clients@,
                sub.subbranch_name,
                kspec,
                account_id,
                ai + 1,
            );
        }
        let client = clients[ai].clone();
        match add_owning_relation_at(
            s,
            client,
            account_id.clone(),
            sub.account_type.clone(),
            sub.subbranch_name.clone(),
            visit_time.clone(),
        ) {
            Ok(()) => {},
            Err(_) => {
                proof {
                    assert(false);
                }
                return Err(BankError::Constraint);
            },
        }
        ai = ai + 1;
    }
    // raise the subbranch asset by the opening balance
    s.subbranches[sbi].subbranch_asset = new_asset;
    proof {
        assert(create_effect(pre, *s, *sub, account_id, open_date, clients@)) by {
            assert(views_of(clients@) == split);
            assert(s.subbranches@ =~= pre.subbranches@.update(
                sbi as int,
                Subbranch {
                    subbranch_name: pre.subbranches@[sbi as int].subbranch_name,
                    city: pre.subbranches@[sbi as int].city,
                    subbranch_asset: new_asset,
                },
            ));
            assert forall|j: int|
                0 <= j < pre.subbranches@.len() && (#[trigger] pre.subbranches@[j])
                    .subbranch_name@ != sub.subbranch_name@ implies s.subbranches@[j]
                == pre.subbranches@[j] by {
                assert(j != sbi as int);
            }
            assert forall|j: int|
                0 <= j < pre.subbranches@.len() && (#[trigger] pre.subbranches@[j])
                    .subbranch_name@ == sub.subbranch_name@ implies s.subbranches@[j]
                .subbranch_name == pre.subbranches@[j].subbranch_name && s.subbranches@[j]
                .city == pre.subbranches@[j].city && s.subbranches@[j].subbranch_asset@
                == dec_add(pre.subbranches@[j].subbranch_asset@, parsed(sub.balance@)) by {
                if j != sbi as int {
                    assert(pre.subbranches@[j].subbranch_name@ == pre.subbranches@[
                        sbi as int].subbranch_name@);
                }
            }
        }
        lemma_create_preserves_invariants(pre, *s, *sub, account_id, open_date, clients@);
    }
    Ok(())
}

/// The post state records a complete account creation for this identifier:
/// some well-formed opening date and some client list drawn from the
/// submission witness the full effect.
pub open spec fn created_with(
    pre: BankState,
    post: BankState,
    sub: AccountSubmit,
    id: String,
) -> bool {
    exists|d: Date, cl: Seq<String>|
        date_wf(d) && #[trigger] create_effect(pre, post, sub, id, d, cl)
}

/// Create an account, attach every listed client, and raise the subbranch
/// asset by the opening balance — all atomically, as one unit of work.
///
/// Returns the fresh account identifier.  On any failure nothing is
/// persisted and the error says which check refused the submission.
pub fn add_new_account_and_own(s: &mut BankState, sub: &AccountSubmit) -> (r: Result<
    String,
    BankError,
>)
    requires
        state_wf(*old(s)),
    ensures
        r matches Err(e) ==> same_state(*final(s), *old(s)) && (exists|id: Seq<char>|
            #[trigger] create_error(*old(s), *sub, id) == e),
        r matches Ok(id) ==> create_checks(*old(s), *sub, id@) && created_with(
            *old(s),
            *final(s),
            *sub,
            id,
        ),
        r is Ok ==> state_wf(*final(s)),
        r is Ok && assets_ok(*old(s)) && spec_split_ws(sub.client_ids@).len() >= 1
            ==> assets_ok(*final(s)),
{
    let account_id = fresh_account_id();
    let (y, mo, d) = current_date();
    let open_date = Date { year: y, month: mo, day: d };
    let visit_time = current_timestamp();
    let id_copy = account_id.clone();
    let ghost id_snap = account_id;
    match add_new_account_and_own_at(s, sub, account_id, open_date, visit_time) {
        Ok(()) => {
            proof {
                assert(date_wf(open_date));
                let cl0 = choose|cl: Seq<String>|
                    #[trigger] create_effect(*old(s), *s, *sub, id_snap, open_date, cl);
                assert(create_effect(*old(s), *s, *sub, id_copy, open_date, cl0));
                assert(create_checks(*old(s), *sub, id_copy@));
                assert(created_with(*old(s), *s, *sub, id_copy));
            }
            Ok(id_copy)
        },
        Err(e) => {
            proof {
                assert(create_error(*old(s), *sub, id_copy@) == e);
            }
            Err(e)
        },
    }
}

/// The transaction coordinator behind the new-account form: reject a
/// missing submission, otherwise run the whole creation atomically.
pub fn submit(s: &mut BankState, form: Option<&AccountSubmit>) -> (r: Result<
    String,
    BankError,
>)
    requires
        state_wf(*old(s)),
    ensures
        form is None ==> r == Result::<String, BankError>::Err(BankError::Validation)
            && same_state(*final(s), *old(s)),
        r is Err ==> same_state(*final(s), *old(s)),
        form matches Some(sub) ==> (r matches Err(e) ==> (exists|id: Seq<char>|
            #[trigger] create_error(*old(s), *sub, id) == e)),
        r is Ok ==> state_wf(*final(s)),
        form matches Some(sub) ==> (r matches Ok(id) ==> create_checks(*old(s), *sub, id@)
            && created_with(*old(s), *final(s), *sub, id)),
        form matches Some(sub) ==> (r is Ok && assets_ok(*old(s)) && spec_split_ws(
            sub.client_ids@,
        ).len() >= 1 ==> assets_ok(*final(s))),
{
    match form {
        None => Err(BankError::Validation),
        Some(sub) => add_new_account_and_own(s, sub),
    }
}


/// Membership in the views of a string list is membership in the list.
proof fn lemma_map_view_contains(ss: Seq<String>, v: Seq<char>)
    ensures
        ss.map_values(|t: String| t@).contains(v) <==> contains_str(ss, v),
{
    let mapped = ss.map_values(|t: String| t@);
    if mapped.contains(v) {
        let j = choose|j: int| 0 <= j < mapped.len() && #[trigger] mapped[j] == v;
        assert(ss[j]@ == v);
        assert(contains_str(ss, v));
    }
    if contains_str(ss, v) {
        let j = choose|j: int| 0 <= j < ss.len() && (#[trigger] ss[j])@ == v;
        assert(mapped[j] == v);
    }
}

/// The distinct identifiers in the kind's slot over the subbranch's index
/// rows, in first-occurrence order.
pub open spec fn collect_slot_ids(
    rows: Seq<AccountManagement>,
    sb: Seq<char>,
    kind: AccountKind,
) -> Seq<Seq<char>>
    decreases rows.len(),
{
    if rows.len() == 0 {
        Seq::empty()
    } else {
        let rest = collect_slot_ids(rows.drop_last(), sb, kind);
        if rows.last().subbranch_name@ == sb && (slot_of(rows.last(), kind) matches Some(x)
            && !rest.contains(x@)) {
            rest.push(slot_of(rows.last(), kind).unwrap()@)
        } else {
            rest
        }
    }
}

/// The saving- and checking-account identifiers the subbranch's index rows
/// point at, each list free of duplicates.
#[verifier::loop_isolation(false)]
pub fn query_associated_account(s: &BankState, subbranch: &str) -> (r: (
    Vec<String>,
    Vec<String>,
))
    ensures
        r.0@.map_values(|t: String| t@) == collect_slot_ids(
            s.management@,
            subbranch@,
            AccountKind::Saving,
        ),
        r.1@.map_values(|t: String| t@) == collect_slot_ids(
            s.management@,
            subbranch@,
            AccountKind::Checking,
        ),
{
    let mut saving: Vec<String> = Vec::new();
    let mut checking: Vec<String> = Vec::new();
    let n = s.management.len();
    let mut i: usize = 0;
    proof {
        assert(s.management@.subrange(0, 0) =~= Seq::<AccountManagement>::empty());
    }
    while i < n
        invariant
            i <= n,
            n == s.management@.len(),
            saving@.map_values(|t: String| t@) == collect_slot_ids(
                s.management@.subrange(0, i as int),
                subbranch@,
                AccountKind::Saving,
            ),
            checking@.map_values(|t: String| t@) == collect_slot_ids(
                s.management@.subrange(0, i as int),
                subbranch@,
                AccountKind::Checking,
            ),
        decreases n - i,
    {
        let ghost pfx = s.management@.subrange(0, i as int);
        proof {
            assert(s.management@.subrange(0, i + 1).drop_last() =~= pfx);
            assert(s.management@.subrange(0, i + 1).last() == s.management@[i as int]);
            assert(forall|j: int|
                0 <= j < saving@.len() ==> saving@.map_values(|t: String| t@)[j] == (
                #[trigger] saving@[j])@);
            assert(forall|j: int|
                0 <= j < checking@.len() ==> checking@.map_values(|t: String| t@)[j] == (
                #[trigger] checking@[j])@);
        }
        if str_eq(s.management[i].subbranch_name.as_str(), subbranch) {
            match &s.management[i].saving_account_id {
                Some(x) => {
                    if !vec_contains_str(&saving, x.as_str()) {
                        let ghost sv0 = saving@;
                        saving.push(x.clone());
                        proof {
                            assert(saving@.map_values(|t: String| t@) =~= sv0.map_values(
                                |t: String| t@,
                            ).push(x@));
                            lemma_map_view_contains(sv0, x@);
                        }
                    } else {
                        proof {
                            lemma_map_view_contains(saving@, x@);
                        }
                    }
                },
                None => {},
            }
            match &s.management[i].checking_account_id {
                Some(x) => {
                    if !vec_contains_str(&checking, x.as_str()) {
                        let ghost cv0 = checking@;
                        checking.push(x.clone());
                        proof {
                            assert(checking@.map_values(|t: String| t@) =~= cv0.map_values(
                                |t: String| t@,
                            ).push(x@));
                            lemma_map_view_contains(cv0, x@);
                        }
                    } else {
                        proof {
                            lemma_map_view_contains(checking@, x@);
                        }
                    }
                },
                None => {},
            }
        }
        i = i + 1;
    }
    proof {
        assert(s.management@.subrange(0, n as int) =~= s.management@);
    }
    (saving, checking)
}

/// The loans booked at a subbranch, in table order.
pub open spec fn loans_of(loans: Seq<Loan>, sb: Seq<char>) -> Seq<Loan>
    decreases loans.len(),
{
    if loans.len() == 0 {
        Seq::empty()
    } else {
        let rest = loans_of(loans.drop_last(), sb);
        if loans.last().subbranch_name@ == sb {
            rest.push(loans.last())
        } else {
            rest
        }
    }
}

/// All loans booked at the subbranch.
#[verifier::loop_isolation(false)]
pub fn query_associated_loans(s: &BankState, subbranch: &str) -> (r: Vec<Loan>)
    ensures
        r@ == loans_of(s.loans@, subbranch@),
{
    let mut out: Vec<Loan> = Vec::new();
    let n = s.loans.len();
    let mut i: usize = 0;
    proof {
        assert(s.loans@.subrange(0, 0) =~= Seq::<Loan>::empty());
    }
    while i < n
        invariant
            i <= n,
            n == s.loans@.len(),
            out@ == loans_of(s.loans@.subrange(0, i as int), subbranch@),
        decreases n - i,
    {
        proof {
            assert(s.loans@.subrange(0, i + 1).drop_last() =~= s.loans@.subrange(
                0,
                i as int,
            ));
            assert(s.loans@.subrange(0, i + 1).last() == s.loans@[i as int]);
        }
        if str_eq(s.loans[i].subbranch_name.as_str(), subbranch) {
            out.push(s.loans[i].duplicate());
        }
        i = i + 1;
    }
    proof {
        assert(s.loans@.subrange(0, n as int) =~= s.loans@);
    }
    out
}

/// The index of the account row with this identifier, if any.
#[verifier::loop_isolation(false)]
pub fn find_account(s: &BankState, id: &str) -> (r: Option<usize>)
    ensures
        r matches Some(i) ==> i < s.accounts@.len() && s.accounts@[i as int].account_id@
            == id@,
        r is Some <==> has_account(s.accounts@, id@),
{
    let n = s.accounts.len();
    let mut i: usize = 0;
    while i < n
        invariant
            i <= n,
            n == s.accounts@.len(),
            forall|t: int| 0 <= t < i ==> (#[trigger] s.accounts@[t]).account_id@ != id@,
        decreases n - i,
    {
        if str_eq(s.accounts[i].account_id.as_str(), id) {
            return Some(i);
        }
        i = i + 1;
    }
    None
}


/// A blank new-account form: every field starts empty.
pub fn new_account() -> (r: AccountSubmit)
    ensures
        r.client_ids@ == Seq::<char>::empty(),
        r.account_type@ == Seq::<char>::empty(),
        r.balance@ == Seq::<char>::empty(),
        r.currency_type@ == Seq::<char>::empty(),
        r.subbranch_name@ == Seq::<char>::empty(),
        r.overdraft@ == Seq::<char>::empty(),
        r.interest@ == Seq::<char>::empty(),
{
    AccountSubmit {
        client_ids: String::new(),
        account_type: String::new(),
        balance: String::new(),
        currency_type: String::new(),
        subbranch_name: String::new(),
        overdraft: String::new(),
        interest: String::new(),
    }
}

/// An account as read back from the store, with its variant data.
#[derive(Clone, Debug)]
pub enum SpecificAccount {
    Saving(SavingAccount),
    Checking(CheckingAccount),
}

/// Does this read-back value render that stored record?
pub open spec fn renders_record(sa: SpecificAccount, rec: AccountRecord) -> bool {
    match sa {
        SpecificAccount::Saving(v) => rec.detail matches AccountDetail::Saving {
            interest,
            currency_type,
        } && v.account_id == rec.account_id && v.balance == rec.balance && v.open_date
            == rec.open_date && v.interest == interest && v.currency_type == currency_type,
        SpecificAccount::Checking(v) => rec.detail matches AccountDetail::Checking {
            overdraft,
        } && v.account_id == rec.account_id && v.balance == rec.balance && v.open_date
            == rec.open_date && v.overdraft == overdraft,
    }
}

/// Read an account back by its identifier.
///
/// `NotFound` exactly when no account row carries it.
pub fn query_account_by_id(s: &BankState, id: &str) -> (r: Result<
    SpecificAccount,
    BankError,
>)
    ensures
        r is Ok <==> has_account(s.accounts@, id@),
        r matches Ok(sa) ==> (exists|i: int|
            0 <= i < s.accounts@.len() && (#[trigger] s.accounts@[i]).account_id@ == id@
                && renders_record(sa, s.accounts@[i])),
        r matches Err(e) ==> e == BankError::NotFound,
{
    match find_account(s, id) {
        None => Err(BankError::NotFound),
        Some(i) => {
            let rec = &s.accounts[i];
            match &rec.detail {
                AccountDetail::Saving { interest, currency_type } => Ok(
                    SpecificAccount::Saving(
                        SavingAccount {
                            account_id: rec.account_id.clone(),
                            balance: rec.balance,
                            open_date: rec.open_date,
                            interest: *interest,
                            currency_type: currency_type.clone(),
                        },
                    ),
                ),
                AccountDetail::Checking { overdraft } => Ok(
                    SpecificAccount::Checking(
                        CheckingAccount {
                            account_id: rec.account_id.clone(),
                            balance: rec.balance,
                            open_date: rec.open_date,
                            overdraft: *overdraft,
                        },
                    ),
                ),
            }
        },
    }
}

/// The clients that own this account, joined into one space-separated
/// field, and the account itself — what the edit form is filled from.
#[derive(Clone, Debug)]
pub struct EditAccountContext {
    pub account: SpecificAccount,
    pub client_ids: String,
}

/// The owning clients of an account, in edge order.
pub open spec fn owners_of(edges: Seq<OwnRecord>, id: Seq<char>) -> Seq<Seq<char>>
    decreases edges.len(),
{
    if edges.len() == 0 {
        Seq::empty()
    } else {
        let rest = owners_of(edges.drop_last(), id);
        if edges.last().account_id@ == id {
            rest.push(edges.last().client_id@)
        } else {
            rest
        }
    }
}

/// Fetch what the account-edit form shows: the account's stored fields and
/// its owners joined with single spaces (with one leading space when any
/// owner exists, as the form writes it).
///
/// `NotFound` exactly when the account does not exist.
#[verifier::loop_isolation(false)]
pub fn get_edit_account(s: &BankState, id: &str) -> (r: Result<
    EditAccountContext,
    BankError,
>)
    ensures
        r is Ok <==> has_account(s.accounts@, id@),
        r matches Err(e) ==> e == BankError::NotFound,
        r matches Ok(ctx) ==> (exists|i: int|
            0 <= i < s.accounts@.len() && (#[trigger] s.accounts@[i]).account_id@ == id@
                && renders_record(ctx.account, s.accounts@[i])) && ctx.client_ids@
            == spec_joined(owners_of(s.owns@, id@)),
{
    let account = match query_account_by_id(s, id) {
        Ok(sa) => sa,
        Err(e) => {
            return Err(e);
        },
    };
    let mut joined = String::new();
    let n = s.owns.len();
    let mut i: usize = 0;
    proof {
        assert(s.owns@.subrange(0, 0) =~= Seq::<OwnRecord>::empty());
        assert(joined@ =~= spec_joined(owners_of(s.owns@.subrange(0, 0), id@)));
    }
    while i < n
        invariant
            i <= n,
            n == s.owns@.len(),
            joined@ == spec_joined(owners_of(s.owns@.subrange(0, i as int), id@)),
        decreases n - i,
    {
        proof {
            assert(s.owns@.subrange(0, i + 1).drop_last() =~= s.owns@.subrange(
                0,
                i as int,
            ));
            assert(s.owns@.subrange(0, i + 1).last() == s.owns@[i as int]);
        }
        if str_eq(s.owns[i].account_id.as_str(), id) {
            let ghost owners_pfx = owners_of(s.owns@.subrange(0, i as int), id@);
            joined.append(" ");
            joined.append(s.owns[i].client_id.as_str());
            proof {
                reveal_strlit(" ");
                assert(" "@ =~= seq![' ']);
                let owners_now = owners_of(s.owns@.subrange(0, i + 1), id@);
                assert(owners_now == owners_pfx.push(s.owns@[i as int].client_id@));
                assert(owners_now.drop_last() =~= owners_pfx);
                assert(owners_now.last() == s.owns@[i as int].client_id@);
                assert(joined@ =~= spec_joined(owners_now));
            }
        }
        i = i + 1;
    }
    proof {
        assert(s.owns@.subrange(0, n as int) =~= s.owns@);
    }
    Ok(EditAccountContext { account, client_ids: joined })
}

/// The owner list joined with one space before each entry.
pub open spec fn spec_joined(names: Seq<Seq<char>>) -> Seq<char>
    decreases names.len(),
{
    if names.len() == 0 {
        Seq::empty()
    } else {
        spec_joined(names.drop_last()) + seq![' '] + names.last()
    }
}


/// The ownership edges with every edge of this account removed.
pub open spec fn owns_without(edges: Seq<OwnRecord>, id: Seq<char>) -> Seq<OwnRecord>
    decreases edges.len(),
{
    if edges.len() == 0 {
        Seq::empty()
    } else {
        let rest = owns_without(edges.drop_last(), id);
        if edges.last().account_id@ == id {
            rest
        } else {
            rest.push(edges.last())
        }
    }
}

/// The index row with every slot holding this identifier emptied.
pub open spec fn row_cleared(row: AccountManagement, id: Seq<char>) -> AccountManagement {
    AccountManagement {
        subbranch_name: row.subbranch_name,
        client_id: row.client_id,
        saving_account_id: if row.saving_account_id matches Some(x) && x@ == id {
            None
        } else {
            row.saving_account_id
        },
        checking_account_id: if row.checking_account_id matches Some(x) && x@ == id {
            None
        } else {
            row.checking_account_id
        },
    }
}

/// Is the account referenced by any index row?
pub open spec fn has_home(s: BankState, id: Seq<char>) -> bool {
    exists|k: int|
        0 <= k < s.management@.len() && row_references(#[trigger] s.management@[k], id)
}

/// The subbranch whose index rows reference the account.
pub open spec fn home_name(s: BankState, id: Seq<char>) -> Seq<char> {
    s.management@[choose|k: int|
        0 <= k < s.management@.len() && row_references(#[trigger] s.management@[k], id)]
        .subbranch_name@
}

/// The asset write-back of a deletion stays representable.
pub open spec fn delete_fits(s: BankState, id: Seq<char>) -> bool {
    has_home(s, id) && has_subbranch(s.subbranches@, home_name(s, id)) ==> sub_fits(
        s.subbranches@[subbranch_index(s.subbranches@, home_name(s, id))]
            .subbranch_asset@,
        s.accounts@[account_index(s.accounts@, id)].balance@,
    )
}

/// Delete an account: its row, all of its ownership edges, every index slot
/// holding it, and its balance out of its subbranch's asset total.
///
/// `NotFound` exactly when the account does not exist; `Validation` when the
/// asset difference cannot be represented.  Any failure leaves the state
/// untouched.  An account referenced by no index row (one created with no
/// owners) belongs to no subbranch, so no asset total changes.
#[verifier::loop_isolation(false)]
pub fn delete_account(s: &mut BankState, id: &str) -> (r: Result<(), BankError>)
    requires
        state_wf(*old(s)),
    ensures
        r is Ok <==> has_account(old(s).accounts@, id@) && delete_fits(*old(s), id@),
        r matches Err(e) ==> same_state(*final(s), *old(s)) && e == (if !has_account(
            old(s).accounts@,
            id@,
        ) {
            BankError::NotFound
        } else {
            BankError::Validation
        }),
        r is Ok ==> {
            &&& final(s).accounts@ == old(s).accounts@.remove(
                account_index(old(s).accounts@, id@),
            )
            &&& final(s).owns@ == owns_without(old(s).owns@, id@)
            &&& final(s).management@.len() == old(s).management@.len()
            &&& (forall|k: int|
                0 <= k < old(s).management@.len() ==> final(s).management@[k]
                    == row_cleared(#[trigger] old(s).management@[k], id@))
            &&& final(s).subbranches@.len() == old(s).subbranches@.len()
            &&& (forall|j: int|
                0 <= j < old(s).subbranches@.len() && !(has_home(*old(s), id@) && (
                #[trigger] old(s).subbranches@[j]).subbranch_name@ == home_name(
                    *old(s),
                    id@,
                )) ==> final(s).subbranches@[j] == old(s).subbranches@[j])
            &&& (forall|j: int|
                0 <= j < old(s).subbranches@.len() && has_home(*old(s), id@) && (
                #[trigger] old(s).subbranches@[j]).subbranch_name@ == home_name(
                    *old(s),
                    id@,
                ) ==> final(s).subbranches@[j].subbranch_name == old(s).subbranches@[j]
                    .subbranch_name && final(s).subbranches@[j].city == old(
                    s,
                ).subbranches@[j].city && final(s).subbranches@[j].subbranch_asset@
                    == crate::decimal::dec_sub(
                    old(s).subbranches@[j].subbranch_asset@,
                    old(s).accounts@[account_index(old(s).accounts@, id@)].balance@,
                ))
            &&& same_aux_tables(*final(s), *old(s))
            &&& state_wf(*final(s))
        },
        r is Ok && assets_ok(*old(s)) ==> assets_ok(*final(s)),
{
    let ghost pre = *s;
    let ai = match find_account(s, id) {
        None => {
            return Err(BankError::NotFound);
        },
        Some(i) => i,
    };
    proof {
        let w = account_index(s.accounts@, id@);
        assert(s.accounts@[w].account_id@ == id@);
        if w < ai as int {
            assert(s.accounts@[w].account_id@ != s.accounts@[ai as int].account_id@);
        } else if w > ai as int {
            assert(s.accounts@[ai as int].account_id@ != s.accounts@[w].account_id@);
        }
        assert(w == ai as int);
    }
    let balance = s.accounts[ai].balance;
    // the subbranch the account is attached to, if any
    let nm = s.management.len();
    let mut mk: usize = 0;
    let mut home: Option<String> = None;
    while mk < nm
        invariant
            mk <= nm,
            nm == s.management@.len(),
            same_state(*s, pre),
            home is None,
            forall|t: int|
                0 <= t < mk ==> !row_references(#[trigger] s.management@[t], id@),
        decreases nm - mk,
    {
        let row = &s.management[mk];
        let refs = match &row.saving_account_id {
            Some(x) => str_eq(x.as_str(), id),
            None => false,
        } || match &row.checking_account_id {
            Some(x) => str_eq(x.as_str(), id),
            None => false,
        };
        if refs {
            home = Some(row.subbranch_name.clone());
            break;
        }
        mk = mk + 1;
    }
    let mut new_asset: Option<(usize, Decimal)> = None;
    match &home {
        None => {
            proof {
                assert(!has_home(*s, id@));
            }
        },
        Some(hn) => {
            proof {
                assert(row_references(s.management@[mk as int], id@));
                assert(has_home(*s, id@));
                let k0 = choose|k: int|
                    0 <= k < s.management@.len() && row_references(
                        #[trigger] s.management@[k],
                        id@,
                    );
                assert(s.management@[k0].subbranch_name@ == s.management@[mk as int]
                    .subbranch_name@);
                assert(hn@ == home_name(*s, id@));
            }
            let nsb = s.subbranches.len();
            let mut sj: usize = 0;
            let mut found = false;
            while sj < nsb
                invariant
                    sj <= nsb,
                    nsb == s.subbranches@.len(),
                    same_state(*s, pre),
                    !found,
                    forall|t: int|
                        0 <= t < sj ==> (#[trigger] s.subbranches@[t]).subbranch_name@
                            != hn@,
                decreases nsb - sj,
            {
                if str_eq(s.subbranches[sj].subbranch_name.as_str(), hn.as_str()) {
                    found = true;
                    break;
                }
                sj = sj + 1;
            }
            if found {
                proof {
                    let w = subbranch_index(s.subbranches@, hn@);
                    assert(s.subbranches@[w].subbranch_name@ == hn@);
                    if w < sj as int {
                        assert(s.subbranches@[w].subbranch_name@ != s.subbranches@[
                            sj as int].subbranch_name@);
                    } else if w > sj as int {
                        assert(s.subbranches@[sj as int].subbranch_name@ != s.subbranches@[
                            w].subbranch_name@);
                    }
                    assert(w == sj as int);
                }
                match s.subbranches[sj].subbranch_asset.checked_sub(&balance) {
                    None => {
                        return Err(BankError::Validation);
                    },
                    Some(v) => {
                        new_asset = Some((sj, v));
                    },
                }
            }
        },
    }
    // all checks passed: remove the account row, its edges and references
    s.accounts.remove(ai);
    let mut kept: Vec<OwnRecord> = Vec::new();
    let no = s.owns.len();
    let mut oi: usize = 0;
    proof {
        assert(s.owns@.subrange(0, 0) =~= Seq::<OwnRecord>::empty());
    }
    while oi < no
        invariant
            oi <= no,
            no == s.owns@.len(),
            s.owns@ == pre.owns@,
            kept@ == owns_without(s.owns@.subrange(0, oi as int), id@),
        decreases no - oi,
    {
        proof {
            assert(s.owns@.subrange(0, oi + 1).drop_last() =~= s.owns@.subrange(
                0,
                oi as int,
            ));
            assert(s.owns@.subrange(0, oi + 1).last() == s.owns@[oi as int]);
        }
        if !str_eq(s.owns[oi].account_id.as_str(), id) {
            let e = &s.owns[oi];
            kept.push(
                OwnRecord {
                    account_id: e.account_id.clone(),
                    client_id: e.client_id.clone(),
                    last_visit_time: e.last_visit_time.clone(),
                },
            );
        }
        oi = oi + 1;
    }
    proof {
        assert(s.owns@.subrange(0, no as int) =~= s.owns@);
    }
    s.owns = kept;
    let nr = s.management.len();
    let mut rk: usize = 0;
    while rk < nr
        invariant
            rk <= nr,
            nr == s.management@.len(),
            s.management@.len() == pre.management@.len(),
            forall|t: int|
                rk <= t < nr ==> #[trigger] s.management@[t] == pre.management@[t],
            forall|t: int|
                0 <= t < rk ==> #[trigger] s.management@[t] == row_cleared(
                    pre.management@[t],
                    id@,
                ),
            s.accounts@ == pre.accounts@.remove(ai as int),
            s.owns@ == owns_without(pre.owns@, id@),
            s.subbranches@ == pre.subbranches@,
            same_aux_tables(*s, pre),
        decreases nr - rk,
    {
        let row = &s.management[rk];
        let new_saving = match &row.saving_account_id {
            Some(x) => {
                if str_eq(x.as_str(), id) {
                    None
                } else {
                    Some(x.clone())
                }
            },
            None => None,
        };
        let new_checking = match &row.checking_account_id {
            Some(x) => {
                if str_eq(x.as_str(), id) {
                    None
                } else {
                    Some(x.clone())
                }
            },
            None => None,
        };
        let new_row = AccountManagement {
            subbranch_name: row.subbranch_name.clone(),
            client_id: row.client_id.clone(),
            saving_account_id: new_saving,
            checking_account_id: new_checking,
        };
        s.management[rk] = new_row;
        rk = rk + 1;
    }
    match new_asset {
        None => {},
        Some((sj, v)) => {
            s.subbranches[sj].subbranch_asset = v;
        },
    }
    proof {
        lemma_delete_preserves_wf(pre, *s, id@, ai as int);
        if assets_ok(pre) {
            lemma_delete_preserves_assets(pre, *s, id@);
        }
    }
    Ok(())
}

/// Deleting an account keeps the state well formed.
proof fn lemma_delete_preserves_wf(pre: BankState, post: BankState, id: Seq<char>, ai: int)
    requires
        state_wf(pre),
        0 <= ai < pre.accounts@.len(),
        pre.accounts@[ai].account_id@ == id,
        post.accounts@ == pre.accounts@.remove(ai),
        post.management@.len() == pre.management@.len(),
        forall|k: int|
            0 <= k < pre.management@.len() ==> post.management@[k] == row_cleared(
                #[trigger] pre.management@[k],
                id,
            ),
        post.subbranches@.len() == pre.subbranches@.len(),
        forall|j: int|
            0 <= j < pre.subbranches@.len() ==> (#[trigger] post.subbranches@[j])
                .subbranch_name@ == pre.subbranches@[j].subbranch_name@,
        post.loans@ == pre.loans@,
        post.payments@ == pre.payments@,
    ensures
        state_wf(post),
{
    assert(forall|t: int|
        0 <= t < post.accounts@.len() ==> #[trigger] post.accounts@[t] == (if t < ai {
            pre.accounts@[t]
        } else {
            pre.accounts@[t + 1]
        }));
    assert(accounts_unique(post.accounts@)) by {
        assert forall|i: int, j: int| 0 <= i < j < post.accounts@.len() implies (
        #[trigger] post.accounts@[i]).account_id@ != (#[trigger] post.accounts@[j])
            .account_id@ by {
            let pi = if i < ai { i } else { i + 1 };
            let pj = if j < ai { j } else { j + 1 };
            assert(pre.accounts@[pi].account_id@ != pre.accounts@[pj].account_id@);
        }
    }
    assert(slots_resolve(post)) by {
        assert forall|k: int| 0 <= k < post.management@.len() implies {
            &&& ((#[trigger] post.management@[k]).saving_account_id matches Some(x)
                ==> has_account_of_kind(post.accounts@, x@, AccountKind::Saving))
            &&& (post.management@[k].checking_account_id matches Some(x)
                ==> has_account_of_kind(post.accounts@, x@, AccountKind::Checking))
        } by {
            match post.management@[k].saving_account_id {
                Some(x) => {
                    assert(pre.management@[k].saving_account_id == Some(x));
                    assert(x@ != id);
                    assert(has_account_of_kind(pre.accounts@, x@, AccountKind::Saving));
                    let w = choose|w: int|
                        0 <= w < pre.accounts@.len() && (#[trigger] pre.accounts@[w])
                            .account_id@ == x@ && detail_kind(pre.accounts@[w].detail)
                            == AccountKind::Saving;
                    assert(w != ai);
                    let w2 = if w < ai { w } else { w - 1 };
                    assert(post.accounts@[w2] == pre.accounts@[w]);
                    assert(has_account_of_kind(post.accounts@, x@, AccountKind::Saving));
                },
                None => {},
            }
            match post.management@[k].checking_account_id {
                Some(x) => {
                    assert(pre.management@[k].checking_account_id == Some(x));
                    assert(x@ != id);
                    assert(has_account_of_kind(pre.accounts@, x@, AccountKind::Checking));
                    let w = choose|w: int|
                        0 <= w < pre.accounts@.len() && (#[trigger] pre.accounts@[w])
                            .account_id@ == x@ && detail_kind(pre.accounts@[w].detail)
                            == AccountKind::Checking;
                    assert(w != ai);
                    let w2 = if w < ai { w } else { w - 1 };
                    assert(post.accounts@[w2] == pre.accounts@[w]);
                    assert(has_account_of_kind(post.accounts@, x@, AccountKind::Checking));
                },
                None => {},
            }
        }
    }
    assert(management_unique(post.management@)) by {
        assert forall|i: int, j: int| 0 <= i < j < post.management@.len() implies !((
        #[trigger] post.management@[i]).subbranch_name@ == (#[trigger] post.management@[j])
            .subbranch_name@ && post.management@[i].client_id@ == post.management@[j]
            .client_id@) by {
            assert(!(pre.management@[i].subbranch_name@ == pre.management@[j]
                .subbranch_name@ && pre.management@[i].client_id@ == pre.management@[j]
                .client_id@));
        }
    }
    assert(single_home(post)) by {
        assert forall|k1: int, k2: int, idv: Seq<char>|
            0 <= k1 < post.management@.len() && 0 <= k2 < post.management@.len()
                && #[trigger] row_references(post.management@[k1], idv)
                && #[trigger] row_references(post.management@[k2], idv) implies post
            .management@[k1].subbranch_name@ == post.management@[k2].subbranch_name@ by {
            assert(row_references(pre.management@[k1], idv));
            assert(row_references(pre.management@[k2], idv));
        }
    }
    assert(dates_wf(post)) by {
        assert forall|i: int| 0 <= i < post.accounts@.len() implies date_wf(
            (#[trigger] post.accounts@[i]).open_date,
        ) by {
            let pi = if i < ai { i } else { i + 1 };
            assert(date_wf(pre.accounts@[pi].open_date));
        }
    }
}


/// The fields of the saving-account edit form, as entered.
#[derive(Clone, Debug)]
pub struct SavingAccountSubmit {
    pub client_ids: String,
    pub balance: String,
    pub currency_type: String,
    pub interest: String,
}

/// The fields of the checking-account edit form, as entered.
#[derive(Clone, Debug)]
pub struct CheckingAccountSubmit {
    pub client_ids: String,
    pub balance: String,
    pub overdraft: String,
}

/// Is there an ownership edge between this account and this client?
pub open spec fn has_edge(edges: Seq<OwnRecord>, id: Seq<char>, c: Seq<char>) -> bool {
    exists|i: int|
        0 <= i < edges.len() && (#[trigger] edges[i]).account_id@ == id && edges[i]
            .client_id@ == c
}

/// The edges kept through a reconcile: every other account's edges, and the
/// account's edges to clients that stay listed.
pub open spec fn owns_reconciled(edges: Seq<OwnRecord>, id: Seq<char>, cl: Seq<String>) -> Seq<
    OwnRecord,
>
    decreases edges.len(),
{
    if edges.len() == 0 {
        Seq::empty()
    } else {
        let rest = owns_reconciled(edges.drop_last(), id, cl);
        if edges.last().account_id@ != id || contains_str(cl, edges.last().client_id@) {
            rest.push(edges.last())
        } else {
            rest
        }
    }
}

/// The listed clients that hold no edge to the account yet.
pub open spec fn added_clients(cl: Seq<String>, edges: Seq<OwnRecord>, id: Seq<char>) -> Seq<
    String,
>
    decreases cl.len(),
{
    if cl.len() == 0 {
        Seq::empty()
    } else {
        let rest = added_clients(cl.drop_last(), edges, id);
        if !has_edge(edges, id, cl.last()@) {
            rest.push(cl.last())
        } else {
            rest
        }
    }
}

/// The added clients that have no index row at the home subbranch yet.
pub open spec fn rows_missing(
    added: Seq<String>,
    rows: Seq<AccountManagement>,
    home: Seq<char>,
) -> Seq<String>
    decreases added.len(),
{
    if added.len() == 0 {
        Seq::empty()
    } else {
        let rest = rows_missing(added.drop_last(), rows, home);
        if !has_row(rows, home, added.last()@) {
            rest.push(added.last())
        } else {
            rest
        }
    }
}

/// One index row after the reconcile: the account enters the kind's slot of
/// listed clients at the home subbranch when that slot is free or already
/// holds it, and leaves every slot of unlisted clients.
pub open spec fn row_reconciled(
    row: AccountManagement,
    home: Seq<char>,
    cl: Seq<String>,
    kind: AccountKind,
    id: String,
) -> AccountManagement {
    let listed = row.subbranch_name@ == home && contains_str(cl, row.client_id@);
    let slot = slot_of(row, kind);
    let new_slot: Option<String> = if listed {
        if slot is None || (slot matches Some(x) && x@ == id@) {
            Some(id)
        } else {
            slot
        }
    } else {
        if slot matches Some(x) && x@ == id@ {
            None
        } else {
            slot
        }
    };
    match kind {
        AccountKind::Saving => AccountManagement {
            subbranch_name: row.subbranch_name,
            client_id: row.client_id,
            saving_account_id: new_slot,
            checking_account_id: row.checking_account_id,
        },
        AccountKind::Checking => AccountManagement {
            subbranch_name: row.subbranch_name,
            client_id: row.client_id,
            saving_account_id: row.saving_account_id,
            checking_account_id: new_slot,
        },
    }
}

/// Copy a client list without its duplicates, first occurrences kept.
#[verifier::loop_isolation(false)]
fn dedup_clients(v: Vec<String>) -> (r: Vec<String>)
    ensures
        forall|i: int, j: int| 0 <= i < j < r@.len() ==> (#[trigger] r@[i])@ != (#[trigger] r@[j])@,
        forall|c: Seq<char>| contains_str(r@, c) <==> contains_str(v@, c),
{
    let mut out: Vec<String> = Vec::new();
    let n = v.len();
    let mut i: usize = 0;
    while i < n
        invariant
            i <= n,
            n == v@.len(),
            forall|a: int, b: int|
                0 <= a < b < out@.len() ==> (#[trigger] out@[a])@ != (#[trigger] out@[b])@,
            forall|c: Seq<char>|
                #[trigger] contains_str(out@, c) ==> contains_str(v@, c),
            forall|j: int|
                0 <= j < i ==> contains_str(out@, (#[trigger] v@[j])@),
        decreases n - i,
    {
        if !vec_contains_str(&out, v[i].as_str()) {
            let ghost out0 = out@;
            out.push(v[i].clone());
            proof {
                assert forall|c: Seq<char>| #[trigger] contains_str(out@, c) implies
                    contains_str(v@, c) by {
                    let j = choose|j: int| 0 <= j < out@.len() && (#[trigger] out@[j])@ == c;
                    if j < out0.len() {
                        assert(contains_str(out0, c));
                    } else {
                        assert(v@[i as int]@ == c);
                    }
                }
                assert(out@[out@.len() - 1]@ == v@[i as int]@);
                assert(contains_str(out@, v@[i as int]@));
                assert forall|j: int| 0 <= j < i implies contains_str(
                    out@,
                    (#[trigger] v@[j])@,
                ) by {
                    let w = choose|w: int|
                        0 <= w < out0.len() && (#[trigger] out0[w])@ == v@[j]@;
                    assert(out@[w]@ == v@[j]@);
                }
            }
        }
        i = i + 1;
    }
    proof {
        assert forall|c: Seq<char>| contains_str(v@, c) implies contains_str(out@, c) by {
            let j = choose|j: int| 0 <= j < v@.len() && (#[trigger] v@[j])@ == c;
        }
    }
    out
}



/// A client with no edge appears among the added clients.
proof fn lemma_added_member(cl: Seq<String>, edges: Seq<OwnRecord>, id: Seq<char>, j: int)
    requires
        0 <= j < cl.len(),
        !has_edge(edges, id, cl[j]@),
    ensures
        added_clients(cl, edges, id).len() > 0,
        exists|w: int|
            0 <= w < added_clients(cl, edges, id).len() && (#[trigger] added_clients(
                cl,
                edges,
                id,
            )[w])@ == cl[j]@,
    decreases cl.len(),
{
    let d = cl.drop_last();
    assert(forall|a: int| 0 <= a < d.len() ==> d[a] == cl[a]);
    let rest = added_clients(d, edges, id);
    if j == cl.len() - 1 {
        assert(added_clients(cl, edges, id) == rest.push(cl.last()));
        assert(added_clients(cl, edges, id)[rest.len() as int]@ == cl[j]@);
    } else {
        lemma_added_member(d, edges, id, j);
        let w = choose|w: int|
            0 <= w < rest.len() && (#[trigger] rest[w])@ == d[j]@;
        assert(added_clients(cl, edges, id)[w]@ == cl[j]@);
    }
}

/// May this account enter the kind's slot for this client, counting a slot
/// it already holds as free?
pub open spec fn slot_free_or_self(
    rows: Seq<AccountManagement>,
    sb: Seq<char>,
    client: Seq<char>,
    kind: AccountKind,
    idv: Seq<char>,
) -> bool {
    !has_row(rows, sb, client) || slot_of(rows[row_index(rows, sb, client)], kind)
        is None || (slot_of(rows[row_index(rows, sb, client)], kind) matches Some(x)
        && x@ == idv)
}

/// Everything an account update checks before it writes.
pub open spec fn update_checks(
    s: BankState,
    id: Seq<char>,
    kind: AccountKind,
    new_balance: DecModel,
    cl: Seq<String>,
) -> bool {
    &&& has_account_of_kind(s.accounts@, id, kind)
    &&& (added_clients(cl, s.owns@, id).len() > 0 ==> has_home(s, id))
    &&& (forall|j: int|
        0 <= j < added_clients(cl, s.owns@, id).len() ==> slot_free_or_self(
            s.management@,
            home_name(s, id),
            (#[trigger] added_clients(cl, s.owns@, id)[j])@,
            kind,
            id,
        ))
    &&& (has_home(s, id) && has_subbranch(s.subbranches@, home_name(s, id)) ==> {
        let asset = s.subbranches@[subbranch_index(s.subbranches@, home_name(s, id))]
            .subbranch_asset@;
        let old_bal = s.accounts@[account_index(s.accounts@, id)].balance@;
        sub_fits(asset, old_bal) && add_fits(
            crate::decimal::dec_sub(asset, old_bal),
            new_balance,
        )
    })
}

/// Replace an account's stored fields and reconcile its owner set.
///
/// The new client list fully replaces the old one: edges to unlisted
/// clients go, the matching index slots are emptied, and every newly listed
/// client gets an edge and the slot at the account's home subbranch.  The
/// subbranch asset moves by the balance delta.  Any failure leaves the
/// state untouched.
#[verifier::loop_isolation(false)]
#[verifier::rlimit(60)]
fn update_account_and_own(
    s: &mut BankState,
    id: &str,
    kind: AccountKind,
    new_balance: Decimal,
    new_detail: AccountDetail,
    clients: Vec<String>,
    visit_time: String,
) -> (r: Result<(), BankError>)
    requires
        state_wf(*old(s)),
        detail_kind(new_detail) == kind,
        forall|i: int, j: int|
            0 <= i < j < clients@.len() ==> (#[trigger] clients@[i])@ != (
            #[trigger] clients@[j])@,
    ensures
        r matches Err(e) ==> same_state(*final(s), *old(s)) && (e == BankError::NotFound
            || e == BankError::Constraint || e == BankError::Validation) && (e
            == BankError::NotFound <==> !has_account_of_kind(old(s).accounts@, id@, kind)),
        r is Ok <==> update_checks(*old(s), id@, kind, new_balance@, clients@),
        r is Ok ==> update_effect(
            *old(s),
            *final(s),
            id@,
            kind,
            new_balance,
            new_detail,
            clients@,
        ),
{
    let ghost pre = *s;
    let ai = match find_account(s, id) {
        None => {
            return Err(BankError::NotFound);
        },
        Some(i) => i,
    };
    proof {
        let w = account_index(s.accounts@, id@);
        assert(s.accounts@[w].account_id@ == id@);
        if w < ai as int {
            assert(s.accounts@[w].account_id@ != s.accounts@[ai as int].account_id@);
        } else if w > ai as int {
            assert(s.accounts@[ai as int].account_id@ != s.accounts@[w].account_id@);
        }
        assert(w == ai as int);
    }
    let kind_matches = match (&s.accounts[ai].detail, kind) {
        (AccountDetail::Saving { .. }, AccountKind::Saving) => true,
        (AccountDetail::Checking { .. }, AccountKind::Checking) => true,
        _ => false,
    };
    if !kind_matches {
        proof {
            assert forall|i: int|
                0 <= i < s.accounts@.len() && (#[trigger] s.accounts@[i]).account_id@
                    == id@ implies detail_kind(s.accounts@[i].detail) != kind by {
                assert(i == ai as int);
            }
        }
        return Err(BankError::NotFound);
    }
    let old_balance = s.accounts[ai].balance;
    let id_string = s.accounts[ai].account_id.clone();
    // the home subbranch, if the account is indexed anywhere
    let nm = s.management.len();
    let mut mk: usize = 0;
    let mut home: Option<String> = None;
    while mk < nm
        invariant
            mk <= nm,
            nm == s.management@.len(),
            same_state(*s, pre),
            home is None,
            forall|t: int|
                0 <= t < mk ==> !row_references(#[trigger] s.management@[t], id@),
        decreases nm - mk,
    {
        let row = &s.management[mk];
        let refs = match &row.saving_account_id {
            Some(x) => str_eq(x.as_str(), id),
            None => false,
        } || match &row.checking_account_id {
            Some(x) => str_eq(x.as_str(), id),
            None => false,
        };
        if refs {
            home = Some(row.subbranch_name.clone());
            break;
        }
        mk = mk + 1;
    }
    proof {
        match &home {
            Some(hn) => {
                assert(row_references(s.management@[mk as int], id@));
                assert(has_home(*s, id@));
                let k0 = choose|k: int|
                    0 <= k < s.management@.len() && row_references(
                        #[trigger] s.management@[k],
                        id@,
                    );
                assert(hn@ == home_name(*s, id@));
            },
            None => {
                assert(!has_home(*s, id@));
            },
        }
    }
    // which listed clients are new, and which of those have no index row
    let mut added: Vec<String> = Vec::new();
    let mut missing: Vec<String> = Vec::new();
    let ncl = clients.len();
    let mut ci: usize = 0;
    proof {
        assert(clients@.subrange(0, 0) =~= Seq::<String>::empty());
    }
    while ci < ncl
        invariant
            ci <= ncl,
            ncl == clients@.len(),
            same_state(*s, pre),
            added@ == added_clients(clients@.subrange(0, ci as int), s.owns@, id@),
            home matches Some(hn) ==> missing@ == rows_missing(
                added@,
                s.management@,
                hn@,
            ),
            home is None ==> added@.len() == 0,
            forall|j: int|
                0 <= j < added@.len() ==> (home matches Some(hn) && slot_free_or_self(
                    s.management@,
                    hn@,
                    (#[trigger] added@[j])@,
                    kind,
                    id@,
                )),
        decreases ncl - ci,
    {
        proof {
            assert(clients@.subrange(0, ci + 1).drop_last() =~= clients@.subrange(
                0,
                ci as int,
            ));
            assert(clients@.subrange(0, ci + 1).last() == clients@[ci as int]);
        }
        let c = &clients[ci];
        let mut have_edge = false;
        let no = s.owns.len();
        let mut oi: usize = 0;
        while oi < no
            invariant
                oi <= no,
                no == s.owns@.len(),
                same_state(*s, pre),
                have_edge ==> has_edge(s.owns@, id@, clients@[ci as int]@),
                !have_edge ==> forall|t: int|
                    0 <= t < oi ==> !((#[trigger] s.owns@[t]).account_id@ == id@
                        && s.owns@[t].client_id@ == clients@[ci as int]@),
            decreases no - oi,
        {
            if str_eq(s.owns[oi].account_id.as_str(), id) && str_eq(
                s.owns[oi].client_id.as_str(),
                c.as_str(),
            ) {
                have_edge = true;
            }
            oi = oi + 1;
        }
        proof {
            assert(have_edge == has_edge(s.owns@, id@, clients@[ci as int]@));
        }
        if !have_edge {
            let hn = match &home {
                None => {
                    proof {
                        lemma_added_member(clients@, s.owns@, id@, ci as int);
                    }
                    return Err(BankError::Constraint);
                },
                Some(hn) => hn,
            };
            let ghost added0 = added@;
            let ghost missing0 = missing@;
            added.push(c.clone());
            // the slot must be free, or already hold this account
            let nr = s.management.len();
            let mut rk: usize = 0;
            let mut row_found = false;
            while rk < nr
                invariant
                    rk <= nr,
                    nr == s.management@.len(),
                    same_state(*s, pre),
                    !row_found,
                    forall|t: int|
                        0 <= t < rk ==> !row_key_is(
                            #[trigger] s.management@[t],
                            hn@,
                            clients@[ci as int]@,
                        ),
                decreases nr - rk,
            {
                if str_eq(s.management[rk].subbranch_name.as_str(), hn.as_str()) && str_eq(
                    s.management[rk].client_id.as_str(),
                    c.as_str(),
                ) {
                    row_found = true;
                    break;
                }
                rk = rk + 1;
            }
            if row_found {
                proof {
                    let rows = s.management@;
                    assert(row_key_is(rows[rk as int], hn@, clients@[ci as int]@));
                    assert(has_row(rows, hn@, clients@[ci as int]@));
                    let w = row_index(rows, hn@, clients@[ci as int]@);
                    assert(row_key_is(rows[w], hn@, clients@[ci as int]@));
                    if w < rk as int {
                        assert(!(rows[w].subbranch_name@ == rows[rk as int].subbranch_name@
                            && rows[w].client_id@ == rows[rk as int].client_id@));
                    } else if w > rk as int {
                        assert(!(rows[rk as int].subbranch_name@ == rows[w].subbranch_name@
                            && rows[rk as int].client_id@ == rows[w].client_id@));
                    }
                    assert(w == rk as int);
                }
                let slot_ok = match kind {
                    AccountKind::Saving => match &s.management[rk].saving_account_id {
                        None => true,
                        Some(x) => str_eq(x.as_str(), id),
                    },
                    AccountKind::Checking => match &s.management[rk].checking_account_id {
                        None => true,
                        Some(x) => str_eq(x.as_str(), id),
                    },
                };
                if !slot_ok {
                    proof {
                        lemma_added_member(clients@, s.owns@, id@, ci as int);
                        let w = choose|w: int|
                            0 <= w < added_clients(clients@, s.owns@, id@).len() && (
                            #[trigger] added_clients(clients@, s.owns@, id@)[w])@
                                == clients@[ci as int]@;
                        assert(!slot_free_or_self(
                            s.management@,
                            home_name(*s, id@),
                            added_clients(clients@, s.owns@, id@)[w]@,
                            kind,
                            id@,
                        ));
                    }
                    return Err(BankError::Constraint);
                }
            } else {
                missing.push(c.clone());
                proof {
                    assert(missing@ =~= missing0.push(clients@[ci as int]));
                }
            }
            proof {
                assert(added@ =~= added0.push(clients@[ci as int]));
                assert(rows_missing(added@, s.management@, hn@) == (if !has_row(
                    s.management@,
                    hn@,
                    clients@[ci as int]@,
                ) {
                    rows_missing(added0, s.management@, hn@).push(clients@[ci as int])
                } else {
                    rows_missing(added0, s.management@, hn@)
                })) by {
                    assert(added@.drop_last() =~= added0);
                }
            }
        }
        ci = ci + 1;
    }
    proof {
        assert(clients@.subrange(0, ncl as int) =~= clients@);
    }
    // the asset delta
    let mut new_asset: Option<(usize, Decimal)> = None;
    match &home {
        None => {},
        Some(hn) => {
            let nsb = s.subbranches.len();
            let mut sj: usize = 0;
            let mut found = false;
            while sj < nsb
                invariant
                    sj <= nsb,
                    nsb == s.subbranches@.len(),
                    same_state(*s, pre),
                    !found,
                    forall|t: int|
                        0 <= t < sj ==> (#[trigger] s.subbranches@[t]).subbranch_name@
                            != hn@,
                decreases nsb - sj,
            {
                if str_eq(s.subbranches[sj].subbranch_name.as_str(), hn.as_str()) {
                    found = true;
                    break;
                }
                sj = sj + 1;
            }
            if found {
                proof {
                    let w = subbranch_index(s.subbranches@, hn@);
                    assert(s.subbranches@[w].subbranch_name@ == hn@);
                    if w < sj as int {
                        assert(s.subbranches@[w].subbranch_name@ != s.subbranches@[
                            sj as int].subbranch_name@);
                    } else if w > sj as int {
                        assert(s.subbranches@[sj as int].subbranch_name@ != s.subbranches@[
                            w].subbranch_name@);
                    }
                    assert(w == sj as int);
                }
                let a1 = match s.subbranches[sj].subbranch_asset.checked_sub(&old_balance) {
                    None => {
                        return Err(BankError::Validation);
                    },
                    Some(v) => v,
                };
                let a2 = match a1.checked_add(&new_balance) {
                    None => {
                        return Err(BankError::Validation);
                    },
                    Some(v) => v,
                };
                new_asset = Some((sj, a2));
            }
        },
    }
    proof {
        assert(update_checks(pre, id@, kind, new_balance@, clients@));
    }
    // write the account row
    let ghost ndetail = new_detail;
    let open_date = s.accounts[ai].open_date;
    s.accounts[ai] = AccountRecord {
        account_id: id_string.clone(),
        balance: new_balance,
        open_date,
        detail: new_detail,
    };
    // reconcile the ownership edges
    let mut kept: Vec<OwnRecord> = Vec::new();
    let no = s.owns.len();
    let mut oi: usize = 0;
    proof {
        assert(s.owns@.subrange(0, 0) =~= Seq::<OwnRecord>::empty());
    }
    while oi < no
        invariant
            oi <= no,
            no == s.owns@.len(),
            s.owns@ == pre.owns@,
            kept@ == owns_reconciled(s.owns@.subrange(0, oi as int), id@, clients@),
        decreases no - oi,
    {
        proof {
            assert(s.owns@.subrange(0, oi + 1).drop_last() =~= s.owns@.subrange(
                0,
                oi as int,
            ));
            assert(s.owns@.subrange(0, oi + 1).last() == s.owns@[oi as int]);
        }
        let keep = !str_eq(s.owns[oi].account_id.as_str(), id) || vec_contains_str(
            &clients,
            s.owns[oi].client_id.as_str(),
        );
        if keep {
            let e = &s.owns[oi];
            kept.push(
                OwnRecord {
                    account_id: e.account_id.clone(),
                    client_id: e.client_id.clone(),
                    last_visit_time: e.last_visit_time.clone(),
                },
            );
        }
        oi = oi + 1;
    }
    proof {
        assert(s.owns@.subrange(0, no as int) =~= s.owns@);
    }
    s.owns = kept;
    let mut ei: usize = 0;
    let nad = added.len();
    while ei < nad
        invariant
            ei <= nad,
            nad == added@.len(),
            s.accounts@.len() == pre.accounts@.len(),
            forall|t: int|
                0 <= t < pre.accounts@.len() && t != ai as int ==> #[trigger] s.accounts@[
                    t] == pre.accounts@[t],
            s.accounts@[ai as int].account_id == id_string,
            s.accounts@[ai as int].balance == new_balance,
            s.accounts@[ai as int].open_date == pre.accounts@[ai as int].open_date,
            s.accounts@[ai as int].detail == ndetail,
            s.management@ == pre.management@,
            s.subbranches@ == pre.subbranches@,
            same_aux_tables(*s, pre),
            s.owns@.len() == owns_reconciled(pre.owns@, id@, clients@).len() + ei,
            forall|t: int|
                0 <= t < owns_reconciled(pre.owns@, id@, clients@).len() ==> s.owns@[t]
                    == owns_reconciled(pre.owns@, id@, clients@)[t],
            forall|t: int|
                owns_reconciled(pre.owns@, id@, clients@).len() <= t < s.owns@.len() ==> (
                #[trigger] s.owns@[t]).account_id@ == id@ && s.owns@[t].client_id
                    == added@[t - owns_reconciled(pre.owns@, id@, clients@).len()]
                    && s.owns@[t].last_visit_time == visit_time,
        decreases nad - ei,
    {
        s.owns.push(
            OwnRecord {
                account_id: id_string.clone(),
                client_id: added[ei].clone(),
                last_visit_time: visit_time.clone(),
            },
        );
        ei = ei + 1;
    }
    // reconcile the index rows
    match &home {
        None => {},
        Some(hn) => {
            let nr = s.management.len();
            let mut rk: usize = 0;
            while rk < nr
                invariant
                    rk <= nr,
                    nr == s.management@.len(),
                    s.accounts@.len() == pre.accounts@.len(),
                    forall|t: int|
                        0 <= t < pre.accounts@.len() && t != ai as int
                            ==> #[trigger] s.accounts@[t] == pre.accounts@[t],
                    s.accounts@[ai as int].account_id == id_string,
                    s.accounts@[ai as int].balance == new_balance,
                    s.accounts@[ai as int].open_date == pre.accounts@[ai as int].open_date,
                    s.accounts@[ai as int].detail == ndetail,
                    s.owns@.len() == owns_reconciled(pre.owns@, id@, clients@).len()
                        + added@.len(),
                    forall|t: int|
                        0 <= t < owns_reconciled(pre.owns@, id@, clients@).len()
                            ==> s.owns@[t] == owns_reconciled(pre.owns@, id@, clients@)[t],
                    forall|t: int|
                        owns_reconciled(pre.owns@, id@, clients@).len() <= t < s.owns@.len()
                            ==> (#[trigger] s.owns@[t]).account_id@ == id@ && s.owns@[t]
                            .client_id == added@[t - owns_reconciled(
                            pre.owns@,
                            id@,
                            clients@,
                        ).len()] && s.owns@[t].last_visit_time == visit_time,
                    s.management@.len() == pre.management@.len(),
                    forall|t: int|
                        rk <= t < nr ==> #[trigger] s.management@[t] == pre.management@[t],
                    forall|t: int|
                        0 <= t < rk ==> #[trigger] s.management@[t] == row_reconciled(
                            pre.management@[t],
                            hn@,
                            clients@,
                            kind,
                            id_string,
                        ),
                    s.subbranches@ == pre.subbranches@,
                    same_aux_tables(*s, pre),
                decreases nr - rk,
            {
                let row = &s.management[rk];
                let listed = str_eq(row.subbranch_name.as_str(), hn.as_str())
                    && vec_contains_str(&clients, row.client_id.as_str());
                let old_slot_opt = match kind {
                    AccountKind::Saving => &row.saving_account_id,
                    AccountKind::Checking => &row.checking_account_id,
                };
                let new_slot: Option<String> = if listed {
                    match old_slot_opt {
                        None => Some(id_string.clone()),
                        Some(x) => {
                            if str_eq(x.as_str(), id) {
                                Some(id_string.clone())
                            } else {
                                Some(x.clone())
                            }
                        },
                    }
                } else {
                    match old_slot_opt {
                        Some(x) => {
                            if str_eq(x.as_str(), id) {
                                None
                            } else {
                                Some(x.clone())
                            }
                        },
                        None => None,
                    }
                };
                let new_row = match kind {
                    AccountKind::Saving => AccountManagement {
                        subbranch_name: row.subbranch_name.clone(),
                        client_id: row.client_id.clone(),
                        saving_account_id: new_slot,
                        checking_account_id: dup_opt_string(&row.checking_account_id),
                    },
                    AccountKind::Checking => AccountManagement {
                        subbranch_name: row.subbranch_name.clone(),
                        client_id: row.client_id.clone(),
                        saving_account_id: dup_opt_string(&row.saving_account_id),
                        checking_account_id: new_slot,
                    },
                };
                proof {
                    assert(id_string@ == id@);
                }
                s.management[rk] = new_row;
                rk = rk + 1;
            }
            let nms = missing.len();
            let mut mi: usize = 0;
            while mi < nms
                invariant
                    mi <= nms,
                    nms == missing@.len(),
                    s.accounts@.len() == pre.accounts@.len(),
                    forall|t: int|
                        0 <= t < pre.accounts@.len() && t != ai as int
                            ==> #[trigger] s.accounts@[t] == pre.accounts@[t],
                    s.accounts@[ai as int].account_id == id_string,
                    s.accounts@[ai as int].balance == new_balance,
                    s.accounts@[ai as int].open_date == pre.accounts@[ai as int].open_date,
                    s.accounts@[ai as int].detail == ndetail,
                    s.owns@.len() == owns_reconciled(pre.owns@, id@, clients@).len()
                        + added@.len(),
                    forall|t: int|
                        0 <= t < owns_reconciled(pre.owns@, id@, clients@).len()
                            ==> s.owns@[t] == owns_reconciled(pre.owns@, id@, clients@)[t],
                    forall|t: int|
                        owns_reconciled(pre.owns@, id@, clients@).len() <= t < s.owns@.len()
                            ==> (#[trigger] s.owns@[t]).account_id@ == id@ && s.owns@[t]
                            .client_id == added@[t - owns_reconciled(
                            pre.owns@,
                            id@,
                            clients@,
                        ).len()] && s.owns@[t].last_visit_time == visit_time,
                    s.management@.len() == pre.management@.len() + mi,
                    forall|t: int|
                        0 <= t < pre.management@.len() ==> #[trigger] s.management@[t]
                            == row_reconciled(
                            pre.management@[t],
                            hn@,
                            clients@,
                            kind,
                            id_string,
                        ),
                    forall|t: int|
                        pre.management@.len() <= t < s.management@.len() ==> (
                        #[trigger] s.management@[t]).subbranch_name@ == hn@
                            && s.management@[t].client_id == missing@[t - pre.management@
                            .len()] && slot_of(s.management@[t], kind) == Some(id_string)
                            && slot_of(s.management@[t], other_kind(kind))
                            == None::<String>,
                    s.subbranches@ == pre.subbranches@,
                    same_aux_tables(*s, pre),
                decreases nms - mi,
            {
                let new_row = match kind {
                    AccountKind::Saving => AccountManagement {
                        subbranch_name: hn.clone(),
                        client_id: missing[mi].clone(),
                        saving_account_id: Some(id_string.clone()),
                        checking_account_id: None,
                    },
                    AccountKind::Checking => AccountManagement {
                        subbranch_name: hn.clone(),
                        client_id: missing[mi].clone(),
                        saving_account_id: None,
                        checking_account_id: Some(id_string.clone()),
                    },
                };
                s.management.push(new_row);
                mi = mi + 1;
            }
        },
    }
    match new_asset {
        None => {},
        Some((sj, v)) => {
            s.subbranches[sj].subbranch_asset = v;
        },
    }
    proof {
        assert(s.accounts@[ai as int].account_id == id_string);
        assert(id_string == pre.accounts@[ai as int].account_id);
        assert forall|j: int|
            0 <= j < pre.subbranches@.len() && !(has_home(pre, id@) && (
            #[trigger] pre.subbranches@[j]).subbranch_name@ == home_name(pre, id@))
            implies s.subbranches@[j] == pre.subbranches@[j] by {
            match new_asset {
                Some((sj, v)) => {
                    assert(j != sj as int);
                },
                None => {},
            }
        }
        assert(update_effect(pre, *s, id@, kind, new_balance, ndetail, clients@));
    }
    Ok(())
}


/// The full effect of a successful account update.
pub open spec fn update_effect(
    pre: BankState,
    post: BankState,
    id: Seq<char>,
    kind: AccountKind,
    new_balance: Decimal,
    nd: AccountDetail,
    cl: Seq<String>,
) -> bool {
    let ai = account_index(pre.accounts@, id);
    let idstr = pre.accounts@[ai].account_id;
    let old_bal = pre.accounts@[ai].balance@;
    let add = added_clients(cl, pre.owns@, id);
    let kept = owns_reconciled(pre.owns@, id, cl);
    &&& post.accounts@.len() == pre.accounts@.len()
    &&& (forall|t: int|
        0 <= t < pre.accounts@.len() && t != ai ==> #[trigger] post.accounts@[t] == pre
            .accounts@[t])
    &&& post.accounts@[ai].account_id@ == id
    &&& post.accounts@[ai].balance == new_balance
    &&& post.accounts@[ai].open_date == pre.accounts@[ai].open_date
    &&& post.accounts@[ai].detail == nd
    &&& post.owns@.len() == kept.len() + add.len()
    &&& (forall|t: int| 0 <= t < kept.len() ==> post.owns@[t] == kept[t])
    &&& (forall|t: int|
        kept.len() <= t < post.owns@.len() ==> (#[trigger] post.owns@[t]).account_id@
            == id && post.owns@[t].client_id == add[t - kept.len()])
    &&& (has_home(pre, id) ==> {
        let home = home_name(pre, id);
        let miss = rows_missing(add, pre.management@, home);
        &&& post.management@.len() == pre.management@.len() + miss.len()
        &&& (forall|k: int|
            0 <= k < pre.management@.len() ==> post.management@[k] == row_reconciled(
                #[trigger] pre.management@[k],
                home,
                cl,
                kind,
                idstr,
            ))
        &&& (forall|t: int|
            pre.management@.len() <= t < post.management@.len() ==> (
            #[trigger] post.management@[t]).subbranch_name@ == home && post.management@[t]
                .client_id == miss[t - pre.management@.len()] && slot_of(
                post.management@[t],
                kind,
            ) == Some(idstr) && slot_of(post.management@[t], other_kind(kind))
                == None::<String>)
    })
    &&& (!has_home(pre, id) ==> post.management@ == pre.management@)
    &&& post.subbranches@.len() == pre.subbranches@.len()
    &&& (forall|j: int|
        0 <= j < pre.subbranches@.len() && !(has_home(pre, id) && (
        #[trigger] pre.subbranches@[j]).subbranch_name@ == home_name(pre, id))
            ==> post.subbranches@[j] == pre.subbranches@[j])
    &&& (forall|j: int|
        0 <= j < pre.subbranches@.len() && has_home(pre, id) && (
        #[trigger] pre.subbranches@[j]).subbranch_name@ == home_name(pre, id)
            ==> post.subbranches@[j].subbranch_name == pre.subbranches@[j].subbranch_name
            && post.subbranches@[j].city == pre.subbranches@[j].city && post.subbranches@[
            j].subbranch_asset@ == dec_add(
            crate::decimal::dec_sub(pre.subbranches@[j].subbranch_asset@, old_bal),
            new_balance@,
        ))
    &&& same_aux_tables(post, pre)
}



/// A client stands among the added clients exactly when it is listed and
/// holds no edge yet.
proof fn lemma_added_clients_membership(cl: Seq<String>, edges: Seq<OwnRecord>, id: Seq<char>)
    ensures
        forall|c: Seq<char>|
            #[trigger] contains_str(added_clients(cl, edges, id), c) <==> (contains_str(
                cl,
                c,
            ) && !has_edge(edges, id, c)),
    decreases cl.len(),
{
    if cl.len() == 0 {
        assert forall|c: Seq<char>|
            #[trigger] contains_str(added_clients(cl, edges, id), c) implies false by {
            let w = choose|w: int|
                0 <= w < added_clients(cl, edges, id).len() && (#[trigger] added_clients(
                    cl,
                    edges,
                    id,
                )[w])@ == c;
        }
        assert forall|c: Seq<char>| #[trigger] contains_str(cl, c) implies false by {
            let w = choose|w: int| 0 <= w < cl.len() && (#[trigger] cl[w])@ == c;
        }
    } else {
        let d = cl.drop_last();
        assert(forall|a: int| 0 <= a < d.len() ==> d[a] == cl[a]);
        lemma_added_clients_membership(d, edges, id);
        let rest = added_clients(d, edges, id);
        let full = added_clients(cl, edges, id);
        assert forall|c: Seq<char>|
            #[trigger] contains_str(full, c) implies (contains_str(cl, c) && !has_edge(
            edges,
            id,
            c,
        )) by {
            let w = choose|w: int| 0 <= w < full.len() && (#[trigger] full[w])@ == c;
            if w < rest.len() {
                assert(contains_str(rest, c));
                let v = choose|v: int| 0 <= v < d.len() && (#[trigger] d[v])@ == c;
                assert(cl[v]@ == c);
            } else {
                assert(full[w] == cl.last());
                assert(cl[cl.len() - 1]@ == c);
            }
        }
        assert forall|c: Seq<char>|
            contains_str(cl, c) && !has_edge(edges, id, c) implies #[trigger] contains_str(
            full,
            c,
        ) by {
            let v = choose|v: int| 0 <= v < cl.len() && (#[trigger] cl[v])@ == c;
            if v < d.len() {
                assert(contains_str(d, c));
                assert(contains_str(rest, c));
                let w = choose|w: int| 0 <= w < rest.len() && (#[trigger] rest[w])@ == c;
                assert(full[w]@ == c);
            } else {
                assert(!has_edge(edges, id, cl.last()@));
                assert(full[full.len() - 1]@ == c);
            }
        }
    }
}

/// The update checks depend on the client list only through its set of
/// identifiers.
proof fn lemma_update_checks_same_set(
    s: BankState,
    id: Seq<char>,
    kind: AccountKind,
    b: DecModel,
    cl1: Seq<String>,
    cl2: Seq<String>,
)
    requires
        forall|c: Seq<char>| #[trigger] contains_str(cl1, c) <==> contains_str(cl2, c),
        update_checks(s, id, kind, b, cl1),
    ensures
        update_checks(s, id, kind, b, cl2),
{
    lemma_added_clients_membership(cl1, s.owns@, id);
    lemma_added_clients_membership(cl2, s.owns@, id);
    let add1 = added_clients(cl1, s.owns@, id);
    let add2 = added_clients(cl2, s.owns@, id);
    if add2.len() > 0 {
        assert(contains_str(add2, add2[0]@));
        assert(contains_str(add1, add2[0]@));
        assert(add1.len() > 0) by {
            let w = choose|w: int| 0 <= w < add1.len() && (#[trigger] add1[w])@ == add2[0]@;
        }
    }
    assert forall|j: int| 0 <= j < add2.len() implies slot_free_or_self(
        s.management@,
        home_name(s, id),
        (#[trigger] add2[j])@,
        kind,
        id,
    ) by {
        assert(contains_str(add2, add2[j]@));
        assert(contains_str(add1, add2[j]@));
        let w = choose|w: int| 0 <= w < add1.len() && (#[trigger] add1[w])@ == add2[j]@;
        assert(slot_free_or_self(s.management@, home_name(s, id), add1[w]@, kind, id));
    }
}

/// The deduplicated client list names exactly the identifiers written in
/// the form field.
pub open spec fn client_set_of(cl: Seq<String>, field: Seq<char>) -> bool {
    (forall|i: int, j: int|
        0 <= i < j < cl.len() ==> (#[trigger] cl[i])@ != (#[trigger] cl[j])@) && (forall|
        c: Seq<char>,
    | #[trigger] contains_str(cl, c) <==> spec_split_ws(field).contains(c))
}

/// Rewrite a saving account from its edit form: balance, interest, currency
/// type, and the full owner list.  Atomic; see [`update_effect`].
pub fn act_edit_saving_account(s: &mut BankState, id: &str, sub: &SavingAccountSubmit) -> (r:
    Result<(), BankError>)
    requires
        state_wf(*old(s)),
    ensures
        r is Err ==> same_state(*final(s), *old(s)),
        r matches Err(e) ==> e == BankError::NotFound || e == BankError::Constraint || e
            == BankError::Validation,
        !(parses(sub.balance@) && parses(sub.interest@)) ==> r == Result::<
            (),
            BankError,
        >::Err(BankError::Validation),
        r is Ok ==> parses(sub.balance@) && parses(sub.interest@),
        (parses(sub.balance@) && parses(sub.interest@) && (exists|cl: Seq<String>|
            #[trigger] client_set_of(cl, sub.client_ids@) && update_checks(
                *old(s),
                id@,
                AccountKind::Saving,
                parsed(sub.balance@),
                cl,
            ))) ==> r is Ok,
        r matches Err(e) ==> (e == BankError::NotFound <==> (parses(sub.balance@)
            && parses(sub.interest@) && !has_account_of_kind(
            old(s).accounts@,
            id@,
            AccountKind::Saving,
        ))),
        r is Ok ==> (exists|cl: Seq<String>, nd: AccountDetail, b: Decimal|
            client_set_of(cl, sub.client_ids@) && (nd matches AccountDetail::Saving {
                interest,
                currency_type,
            } && interest@ == parsed(sub.interest@) && currency_type@ == sub
                .currency_type@) && b@ == parsed(sub.balance@) && #[trigger] update_effect(
                *old(s),
                *final(s),
                id@,
                AccountKind::Saving,
                b,
                nd,
                cl,
            )),
{
    let balance = match parse_decimal(sub.balance.as_str()) {
        Ok(b) => b,
        Err(_) => {
            return Err(BankError::Validation);
        },
    };
    let interest = match parse_decimal(sub.interest.as_str()) {
        Ok(v) => v,
        Err(_) => {
            return Err(BankError::Validation);
        },
    };
    let raw = get_list_from_input(sub.client_ids.as_str());
    let ghost rawv = raw@;
    proof {
        assert(rawv.map_values(|t: String| t@) == spec_split_ws(sub.client_ids@));
    }
    let clients = dedup_clients(raw);
    proof {
        assert forall|c: Seq<char>|
            #[trigger] contains_str(clients@, c) == spec_split_ws(
                sub.client_ids@,
            ).contains(c) by {
            lemma_map_view_contains(rawv, c);
        }
    }
    let visit_time = current_timestamp();
    let detail = AccountDetail::Saving { interest, currency_type: sub.currency_type.clone() };
    let ghost nd = detail;
    let ghost cl = clients@;
    let ghost b = balance;
    match update_account_and_own(s, id, AccountKind::Saving, balance, detail, clients, visit_time) {
        Ok(()) => {
            proof {
                assert(update_effect(*old(s), *s, id@, AccountKind::Saving, b, nd, cl));
                assert(client_set_of(cl, sub.client_ids@));
            }
            Ok(())
        },
        Err(e) => {
            proof {
                assert(!update_checks(*old(s), id@, AccountKind::Saving, b@, cl));
                if exists|cl2: Seq<String>|
                    #[trigger] client_set_of(cl2, sub.client_ids@) && update_checks(
                        *old(s),
                        id@,
                        AccountKind::Saving,
                        parsed(sub.balance@),
                        cl2,
                    ) {
                    let cl2 = choose|cl2: Seq<String>|
                        #[trigger] client_set_of(cl2, sub.client_ids@) && update_checks(
                            *old(s),
                            id@,
                            AccountKind::Saving,
                            parsed(sub.balance@),
                            cl2,
                        );
                    assert(forall|c: Seq<char>|
                        #[trigger] contains_str(cl2, c) <==> contains_str(cl, c));
                    lemma_update_checks_same_set(
                        *old(s),
                        id@,
                        AccountKind::Saving,
                        parsed(sub.balance@),
                        cl2,
                        cl,
                    );
                }
            }
            Err(e)
        },
    }
}

/// Rewrite a checking account from its edit form: balance, overdraft, and
/// the full owner list.  Atomic; see [`update_effect`].
pub fn act_edit_checking_account(
    s: &mut BankState,
    id: &str,
    sub: &CheckingAccountSubmit,
) -> (r: Result<(), BankError>)
    requires
        state_wf(*old(s)),
    ensures
        r is Err ==> same_state(*final(s), *old(s)),
        r matches Err(e) ==> e == BankError::NotFound || e == BankError::Constraint || e
            == BankError::Validation,
        !(parses(sub.balance@) && parses(sub.overdraft@)) ==> r == Result::<
            (),
            BankError,
        >::Err(BankError::Validation),
        r is Ok ==> parses(sub.balance@) && parses(sub.overdraft@),
        (parses(sub.balance@) && parses(sub.overdraft@) && (exists|cl: Seq<String>|
            #[trigger] client_set_of(cl, sub.client_ids@) && update_checks(
                *old(s),
                id@,
                AccountKind::Checking,
                parsed(sub.balance@),
                cl,
            ))) ==> r is Ok,
        r matches Err(e) ==> (e == BankError::NotFound <==> (parses(sub.balance@)
            && parses(sub.overdraft@) && !has_account_of_kind(
            old(s).accounts@,
            id@,
            AccountKind::Checking,
        ))),
        r is Ok ==> (exists|cl: Seq<String>, nd: AccountDetail, b: Decimal|
            client_set_of(cl, sub.client_ids@) && (nd matches AccountDetail::Checking {
                overdraft,
            } && overdraft@ == parsed(sub.overdraft@)) && b@ == parsed(sub.balance@)
                && #[trigger] update_effect(
                *old(s),
                *final(s),
                id@,
                AccountKind::Checking,
                b,
                nd,
                cl,
            )),
{
    let balance = match parse_decimal(sub.balance.as_str()) {
        Ok(b) => b,
        Err(_) => {
            return Err(BankError::Validation);
        },
    };
    let overdraft = match parse_decimal(sub.overdraft.as_str()) {
        Ok(v) => v,
        Err(_) => {
            return Err(BankError::Validation);
        },
    };
    let raw = get_list_from_input(sub.client_ids.as_str());
    let ghost rawv = raw@;
    proof {
        assert(rawv.map_values(|t: String| t@) == spec_split_ws(sub.client_ids@));
    }
    let clients = dedup_clients(raw);
    proof {
        assert forall|c: Seq<char>|
            #[trigger] contains_str(clients@, c) == spec_split_ws(
                sub.client_ids@,
            ).contains(c) by {
            lemma_map_view_contains(rawv, c);
        }
    }
    let visit_time = current_timestamp();
    let detail = AccountDetail::Checking { overdraft };
    let ghost nd = detail;
    let ghost cl = clients@;
    let ghost b = balance;
    match update_account_and_own(
        s,
        id,
        AccountKind::Checking,
        balance,
        detail,
        clients,
        visit_time,
    ) {
        Ok(()) => {
            proof {
                assert(update_effect(*old(s), *s, id@, AccountKind::Checking, b, nd, cl));
                assert(client_set_of(cl, sub.client_ids@));
            }
            Ok(())
        },
        Err(e) => {
            proof {
                assert(!update_checks(*old(s), id@, AccountKind::Checking, b@, cl));
                if exists|cl2: Seq<String>|
                    #[trigger] client_set_of(cl2, sub.client_ids@) && update_checks(
                        *old(s),
                        id@,
                        AccountKind::Checking,
                        parsed(sub.balance@),
                        cl2,
                    ) {
                    let cl2 = choose|cl2: Seq<String>|
                        #[trigger] client_set_of(cl2, sub.client_ids@) && update_checks(
                            *old(s),
                            id@,
                            AccountKind::Checking,
                            parsed(sub.balance@),
                            cl2,
                        );
                    assert(forall|c: Seq<char>|
                        #[trigger] contains_str(cl2, c) <==> contains_str(cl, c));
                    lemma_update_checks_same_set(
                        *old(s),
                        id@,
                        AccountKind::Checking,
                        parsed(sub.balance@),
                        cl2,
                        cl,
                    );
                }
            }
            Err(e)
        },
    }
}


/// The largest balance scale among the account rows.
pub open spec fn max_bal_scale(accts: Seq<AccountRecord>) -> nat
    decreases accts.len(),
{
    if accts.len() == 0 {
        0
    } else {
        let rest = max_bal_scale(accts.drop_last());
        if accts.last().balance@.scale >= rest {
            accts.last().balance@.scale
        } else {
            rest
        }
    }
}

proof fn lemma_max_bal_scale(accts: Seq<AccountRecord>)
    ensures
        forall|i: int|
            0 <= i < accts.len() ==> (#[trigger] accts[i]).balance@.scale <= max_bal_scale(
                accts,
            ),
    decreases accts.len(),
{
    if accts.len() > 0 {
        let d = accts.drop_last();
        lemma_max_bal_scale(d);
        assert forall|i: int|
            0 <= i < accts.len() implies (#[trigger] accts[i]).balance@.scale
            <= max_bal_scale(accts) by {
            if i < d.len() {
                assert(d[i] == accts[i]);
            }
        }
    }
}

/// The attached-balance sum read as an integer at scale `sc`.
pub open spec fn att_sum_val(
    accts: Seq<AccountRecord>,
    s: BankState,
    sb: Seq<char>,
    sc: nat,
) -> int
    decreases accts.len(),
{
    if accts.len() == 0 {
        0
    } else {
        att_sum_val(accts.drop_last(), s, sb, sc) + (if attached(
            s,
            sb,
            accts.last().account_id@,
        ) {
            crate::decimal::val_at(accts.last().balance@, sc)
        } else {
            0
        })
    }
}

/// The decimal sum and its integer reading agree at any scale bounding
/// every balance.
proof fn lemma_att_sum_val(accts: Seq<AccountRecord>, s: BankState, sb: Seq<char>, sc: nat)
    requires
        forall|i: int|
            0 <= i < accts.len() ==> (#[trigger] accts[i]).balance@.scale <= sc,
    ensures
        attached_sum(accts, s, sb).scale <= sc,
        crate::decimal::val_at(attached_sum(accts, s, sb), sc) == att_sum_val(
            accts,
            s,
            sb,
            sc,
        ),
    decreases accts.len(),
{
    if accts.len() == 0 {
        vstd::arithmetic::mul::lemma_mul_basics(crate::decimal::pow10(sc));
    } else {
        let d = accts.drop_last();
        assert(forall|i: int| 0 <= i < d.len() ==> d[i] == accts[i]);
        lemma_att_sum_val(d, s, sb, sc);
        assert(accts.last() == accts[accts.len() - 1]);
        if attached(s, sb, accts.last().account_id@) {
            crate::decimal::lemma_val_at_add(
                attached_sum(d, s, sb),
                accts.last().balance@,
                sc,
            );
        }
    }
}

/// Removing one account removes exactly its contribution from the integer
/// reading.
proof fn lemma_att_sum_val_remove(
    accts: Seq<AccountRecord>,
    s: BankState,
    sb: Seq<char>,
    sc: nat,
    ai: int,
)
    requires
        0 <= ai < accts.len(),
    ensures
        att_sum_val(accts.remove(ai), s, sb, sc) == att_sum_val(accts, s, sb, sc) - (
        if attached(s, sb, accts[ai].account_id@) {
            crate::decimal::val_at(accts[ai].balance@, sc)
        } else {
            0
        }),
    decreases accts.len(),
{
    if ai == accts.len() - 1 {
        assert(accts.remove(ai) =~= accts.drop_last());
    } else {
        let d = accts.drop_last();
        lemma_att_sum_val_remove(d, s, sb, sc, ai);
        assert(accts.remove(ai).drop_last() =~= d.remove(ai));
        assert(accts.remove(ai).last() == accts.last());
    }
}

/// Deleting an account keeps every subbranch's asset total equal to the sum
/// of its attached balances.
///
/// This is the deletion half of the asset-ledger invariant: the account's
/// balance leaves its home subbranch's total exactly as the account leaves
/// that subbranch's attached set, and no other subbranch's equation moves.
pub proof fn lemma_delete_preserves_assets(pre: BankState, post: BankState, id: Seq<char>)
    requires
        state_wf(pre),
        assets_ok(pre),
        has_account(pre.accounts@, id),
        post.accounts@ == pre.accounts@.remove(account_index(pre.accounts@, id)),
        post.management@.len() == pre.management@.len(),
        forall|k: int|
            0 <= k < pre.management@.len() ==> post.management@[k] == row_cleared(
                #[trigger] pre.management@[k],
                id,
            ),
        post.subbranches@.len() == pre.subbranches@.len(),
        forall|j: int|
            0 <= j < pre.subbranches@.len() && !(has_home(pre, id) && (
            #[trigger] pre.subbranches@[j]).subbranch_name@ == home_name(pre, id))
                ==> post.subbranches@[j] == pre.subbranches@[j],
        forall|j: int|
            0 <= j < pre.subbranches@.len() && has_home(pre, id) && (
            #[trigger] pre.subbranches@[j]).subbranch_name@ == home_name(pre, id)
                ==> post.subbranches@[j].subbranch_name == pre.subbranches@[j]
                .subbranch_name && post.subbranches@[j].subbranch_asset@
                == crate::decimal::dec_sub(
                pre.subbranches@[j].subbranch_asset@,
                pre.accounts@[account_index(pre.accounts@, id)].balance@,
            ),
    ensures
        assets_ok(post),
{
    let ai = account_index(pre.accounts@, id);
    assert(pre.accounts@[ai].account_id@ == id);
    let bal = pre.accounts@[ai].balance@;
    lemma_max_bal_scale(pre.accounts@);
    assert(forall|t: int|
        0 <= t < post.accounts@.len() ==> #[trigger] post.accounts@[t] == (if t < ai {
            pre.accounts@[t]
        } else {
            pre.accounts@[t + 1]
        }));
    assert forall|j: int| 0 <= j < post.subbranches@.len() implies dec_eq(
        (#[trigger] post.subbranches@[j]).subbranch_asset@,
        attached_sum(post.accounts@, post, post.subbranches@[j].subbranch_name@),
    ) by {
        let name = pre.subbranches@[j].subbranch_name@;
        assert(post.subbranches@[j].subbranch_name@ == name);
        let asset = pre.subbranches@[j].subbranch_asset@;
        let sc0 = max_bal_scale(pre.accounts@);
        let sc = if asset.scale >= sc0 {
            asset.scale
        } else {
            sc0
        };
        // verdicts of the remaining accounts do not move
        assert forall|t: int|
            0 <= t < post.accounts@.len() implies attached(
            post,
            name,
            (#[trigger] post.accounts@[t]).account_id@,
        ) == attached(pre, name, post.accounts@[t].account_id@) by {
            let aid = post.accounts@[t].account_id@;
            let pt = if t < ai {
                t
            } else {
                t + 1
            };
            assert(post.accounts@[t] == pre.accounts@[pt]);
            assert(aid != id);
            if attached(pre, name, aid) {
                let k = choose|k: int|
                    0 <= k < pre.management@.len() && (#[trigger] pre.management@[k])
                        .subbranch_name@ == name && row_references(pre.management@[k], aid);
                assert(row_references(post.management@[k], aid));
                assert(post.management@[k].subbranch_name@ == name);
                assert(attached(post, name, aid));
            }
            if attached(post, name, aid) {
                let k = choose|k: int|
                    0 <= k < post.management@.len() && (#[trigger] post.management@[k])
                        .subbranch_name@ == name && row_references(post.management@[k], aid);
                assert(row_references(pre.management@[k], aid));
                assert(attached(pre, name, aid));
            }
        }
        lemma_attached_sum_congruent(post.accounts@, post, pre, name);
        lemma_att_sum_val(post.accounts@, pre, name, sc);
        lemma_att_sum_val(pre.accounts@, pre, name, sc);
        lemma_att_sum_val_remove(pre.accounts@, pre, name, sc, ai);
        assert(att_sum_val(post.accounts@, pre, name, sc) == att_sum_val(
            pre.accounts@,
            pre,
            name,
            sc,
        ) - (if attached(pre, name, id) {
            crate::decimal::val_at(bal, sc)
        } else {
            0
        }));
        crate::decimal::lemma_dec_eq_val(asset, attached_sum(pre.accounts@, pre, name), sc);
        if attached(pre, name, id) {
            // the account was attached here, so this is its home row
            let k = choose|k: int|
                0 <= k < pre.management@.len() && (#[trigger] pre.management@[k])
                    .subbranch_name@ == name && row_references(pre.management@[k], id);
            assert(has_home(pre, id));
            let k0 = choose|k0: int|
                0 <= k0 < pre.management@.len() && row_references(
                    #[trigger] pre.management@[k0],
                    id,
                );
            assert(home_name(pre, id) == name);
            assert(post.subbranches@[j].subbranch_asset@ == crate::decimal::dec_sub(
                asset,
                bal,
            ));
            crate::decimal::lemma_val_at_add(asset, crate::decimal::dec_neg(bal), sc);
            vstd::arithmetic::mul::lemma_mul_unary_negation(
                bal.mantissa,
                crate::decimal::pow10((sc - bal.scale) as nat),
            );
            crate::decimal::lemma_dec_eq_val(
                crate::decimal::dec_sub(asset, bal),
                attached_sum(post.accounts@, post, name),
                sc,
            );
        } else {
            assert(post.subbranches@[j] == pre.subbranches@[j]) by {
                if has_home(pre, id) && name == home_name(pre, id) {
                    let k0 = choose|k0: int|
                        0 <= k0 < pre.management@.len() && row_references(
                            #[trigger] pre.management@[k0],
                            id,
                        );
                    assert(pre.management@[k0].subbranch_name@ == name);
                    assert(attached(pre, name, id));
                }
            }
            crate::decimal::lemma_dec_eq_val(
                asset,
                attached_sum(post.accounts@, post, name),
                sc,
            );
        }
    }
}


} // verus!
