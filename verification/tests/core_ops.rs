use bank_core::calendar::Date;
use bank_core::decimal::Decimal;
use bank_core::errors::BankError;
use bank_core::ledger::{
    add_new_account_and_own, add_owning_relation, delete_account, get_asset,
    get_edit_account, new_account, query_account_by_id, query_associated_account,
    query_associated_loans, query_subbranch, set_subbranch_asset, submit,
    act_edit_saving_account, SavingAccountSubmit, SpecificAccount,
};
use bank_core::models::{AccountSubmit, BankState, Subbranch};
use bank_core::parsing::{get_list_from_input, parse_decimal, str_eq};

fn dec(s: &str) -> Decimal {
    parse_decimal(s).unwrap()
}

fn state_with_subbranch(name: &str, asset: &str) -> BankState {
    let mut s = BankState::new();
    s.subbranches.push(Subbranch {
        subbranch_name: name.to_string(),
        city: "Springfield".to_string(),
        subbranch_asset: dec(asset),
    });
    s
}

fn saving_submission(clients: &str, balance: &str, subbranch: &str) -> AccountSubmit {
    AccountSubmit {
        client_ids: clients.to_string(),
        account_type: "savingAccount".to_string(),
        balance: balance.to_string(),
        currency_type: "CNY".to_string(),
        subbranch_name: subbranch.to_string(),
        overdraft: String::new(),
        interest: "1.5".to_string(),
    }
}

fn checking_submission(clients: &str, balance: &str, subbranch: &str) -> AccountSubmit {
    AccountSubmit {
        client_ids: clients.to_string(),
        account_type: "checkingAccount".to_string(),
        balance: balance.to_string(),
        currency_type: String::new(),
        subbranch_name: subbranch.to_string(),
        overdraft: "200.00".to_string(),
        interest: String::new(),
    }
}

#[test]
fn round_trip_saving_account_balance() {
    let mut s = state_with_subbranch("Main", "0");
    let id = add_new_account_and_own(&mut s, &saving_submission("c1", "1000.00", "Main"))
        .unwrap();
    match query_account_by_id(&s, &id).unwrap() {
        SpecificAccount::Saving(v) => {
            assert!(v.balance.same_value(&dec("1000.00")));
            assert_eq!(v.balance.mantissa, 100000);
            assert_eq!(v.balance.scale, 2);
            assert!(v.interest.same_value(&dec("1.5")));
            assert_eq!(v.currency_type, "CNY");
            assert!((1..=12).contains(&v.open_date.month));
            assert!((1..=31).contains(&v.open_date.day));
        }
        SpecificAccount::Checking(_) => panic!("wrong variant"),
    }
}

#[test]
fn fresh_identifiers_are_hyphenated_uuids() {
    let mut s = state_with_subbranch("Main", "0");
    let a = add_new_account_and_own(&mut s, &saving_submission("c1", "1.00", "Main")).unwrap();
    let b = add_new_account_and_own(&mut s, &checking_submission("c1", "1.00", "Main"))
        .unwrap();
    assert_eq!(a.chars().count(), 36);
    assert_eq!(b.chars().count(), 36);
    assert_ne!(a, b);
}

#[test]
fn asset_total_tracks_created_balances() {
    let mut s = state_with_subbranch("Main", "10.50");
    add_new_account_and_own(&mut s, &saving_submission("c1", "1000.00", "Main")).unwrap();
    assert!(get_asset(&s, "Main").unwrap().same_value(&dec("1010.50")));
    add_new_account_and_own(&mut s, &checking_submission("c2", "500.25", "Main")).unwrap();
    assert!(get_asset(&s, "Main").unwrap().same_value(&dec("1510.75")));
}

#[test]
fn second_saving_account_for_same_client_is_refused() {
    let mut s = state_with_subbranch("Main", "0");
    let first = add_new_account_and_own(&mut s, &saving_submission("c1", "100.00", "Main"))
        .unwrap();
    let r = add_new_account_and_own(&mut s, &saving_submission("c1", "50.00", "Main"));
    assert_eq!(r.unwrap_err(), BankError::Constraint);
    // the index row still holds the first account, and nothing else changed
    assert_eq!(s.management.len(), 1);
    assert_eq!(s.management[0].saving_account_id.as_deref(), Some(first.as_str()));
    assert_eq!(s.accounts.len(), 1);
    assert_eq!(s.owns.len(), 1);
    assert!(get_asset(&s, "Main").unwrap().same_value(&dec("100.00")));
}

#[test]
fn saving_and_checking_share_an_index_row() {
    let mut s = state_with_subbranch("Main", "0");
    let a = add_new_account_and_own(&mut s, &saving_submission("c1", "10.00", "Main")).unwrap();
    let b = add_new_account_and_own(&mut s, &checking_submission("c1", "20.00", "Main"))
        .unwrap();
    assert_eq!(s.management.len(), 1);
    assert_eq!(s.management[0].saving_account_id.as_deref(), Some(a.as_str()));
    assert_eq!(s.management[0].checking_account_id.as_deref(), Some(b.as_str()));
    let (sv, cv) = query_associated_account(&s, "Main");
    assert_eq!(sv, vec![a]);
    assert_eq!(cv, vec![b]);
}

#[test]
fn duplicate_client_in_submission_aborts_whole_creation() {
    let mut s = state_with_subbranch("Main", "25.00");
    let r = add_new_account_and_own(&mut s, &saving_submission("c1 c1", "100.00", "Main"));
    assert_eq!(r.unwrap_err(), BankError::Constraint);
    assert_eq!(s.accounts.len(), 0);
    assert_eq!(s.owns.len(), 0);
    assert_eq!(s.management.len(), 0);
    assert!(get_asset(&s, "Main").unwrap().same_value(&dec("25.00")));
}

#[test]
fn creation_error_taxonomy() {
    let mut s = state_with_subbranch("Main", "0");
    let mut bad_type = saving_submission("c1", "10.00", "Main");
    bad_type.account_type = "bondAccount".to_string();
    assert_eq!(
        add_new_account_and_own(&mut s, &bad_type).unwrap_err(),
        BankError::Validation
    );
    let bad_balance = saving_submission("c1", "ten", "Main");
    assert_eq!(
        add_new_account_and_own(&mut s, &bad_balance).unwrap_err(),
        BankError::Validation
    );
    let bad_subbranch = saving_submission("c1", "10.00", "Elsewhere");
    assert_eq!(
        add_new_account_and_own(&mut s, &bad_subbranch).unwrap_err(),
        BankError::NotFound
    );
    assert_eq!(s.accounts.len(), 0);
}

#[test]
fn submit_without_form_is_a_validation_error() {
    let mut s = state_with_subbranch("Main", "0");
    assert_eq!(submit(&mut s, None).unwrap_err(), BankError::Validation);
    let sub = saving_submission("c1", "7.00", "Main");
    assert!(submit(&mut s, Some(&sub)).is_ok());
    assert_eq!(s.accounts.len(), 1);
}

#[test]
fn ownerless_account_is_allowed_and_still_counted() {
    let mut s = state_with_subbranch("Main", "0");
    let id = add_new_account_and_own(&mut s, &saving_submission("", "40.00", "Main")).unwrap();
    assert_eq!(s.owns.len(), 0);
    assert_eq!(s.management.len(), 0);
    assert!(get_asset(&s, "Main").unwrap().same_value(&dec("40.00")));
    assert!(query_account_by_id(&s, &id).is_ok());
}

#[test]
fn attach_owner_creates_or_updates_the_index_row() {
    let mut s = state_with_subbranch("Main", "0");
    let id = add_new_account_and_own(&mut s, &saving_submission("", "5.00", "Main")).unwrap();
    add_owning_relation(
        &mut s,
        "c9".to_string(),
        id.clone(),
        "savingAccount".to_string(),
        "Main".to_string(),
    )
    .unwrap();
    assert_eq!(s.management.len(), 1);
    assert_eq!(s.management[0].client_id, "c9");
    assert_eq!(s.management[0].saving_account_id.as_deref(), Some(id.as_str()));
    // the occupied slot refuses a second saving account
    let r = add_owning_relation(
        &mut s,
        "c9".to_string(),
        "other-id".to_string(),
        "savingAccount".to_string(),
        "Main".to_string(),
    );
    assert_eq!(r.unwrap_err(), BankError::Constraint);
    // and an unrecognized account type is a constraint error too
    let r2 = add_owning_relation(
        &mut s,
        "c9".to_string(),
        id,
        "bondAccount".to_string(),
        "Main".to_string(),
    );
    assert_eq!(r2.unwrap_err(), BankError::Constraint);
}

#[test]
fn delete_account_reverses_creation() {
    let mut s = state_with_subbranch("Main", "3.25");
    let id = add_new_account_and_own(&mut s, &saving_submission("c1 c2", "100.00", "Main"))
        .unwrap();
    assert_eq!(s.owns.len(), 2);
    delete_account(&mut s, &id).unwrap();
    assert_eq!(s.accounts.len(), 0);
    assert_eq!(s.owns.len(), 0);
    assert_eq!(s.management.len(), 2);
    assert!(s.management.iter().all(|r| r.saving_account_id.is_none()));
    assert!(get_asset(&s, "Main").unwrap().same_value(&dec("3.25")));
    assert_eq!(delete_account(&mut s, &id).unwrap_err(), BankError::NotFound);
}

#[test]
fn edit_saving_account_moves_balance_and_owners() {
    let mut s = state_with_subbranch("Main", "0");
    let id = add_new_account_and_own(&mut s, &saving_submission("c1", "1000.00", "Main"))
        .unwrap();
    let edit = SavingAccountSubmit {
        client_ids: "c2".to_string(),
        balance: "1200.00".to_string(),
        currency_type: "USD".to_string(),
        interest: "2.0".to_string(),
    };
    act_edit_saving_account(&mut s, &id, &edit).unwrap();
    assert!(get_asset(&s, "Main").unwrap().same_value(&dec("1200.00")));
    match query_account_by_id(&s, &id).unwrap() {
        SpecificAccount::Saving(v) => {
            assert!(v.balance.same_value(&dec("1200.00")));
            assert_eq!(v.currency_type, "USD");
            assert!(v.interest.same_value(&dec("2.0")));
        }
        SpecificAccount::Checking(_) => panic!("wrong variant"),
    }
    // c1 lost its edge and slot; c2 gained both
    assert!(s.owns.iter().all(|e| e.client_id != "c1"));
    assert!(s.owns.iter().any(|e| e.client_id == "c2" && e.account_id == id));
    let c1_row = s
        .management
        .iter()
        .find(|r| r.client_id == "c1")
        .unwrap();
    assert!(c1_row.saving_account_id.is_none());
    let c2_row = s
        .management
        .iter()
        .find(|r| r.client_id == "c2")
        .unwrap();
    assert_eq!(c2_row.saving_account_id.as_deref(), Some(id.as_str()));
}

#[test]
fn duplicated_client_in_edit_form_is_deduplicated() {
    let mut s = state_with_subbranch("Main", "0");
    let id = add_new_account_and_own(&mut s, &saving_submission("c1", "100.00", "Main"))
        .unwrap();
    // the repeated id collapses to one client: the edit succeeds and the
    // occupied-slot constraint is not tripped twice
    let edit = SavingAccountSubmit {
        client_ids: "c2 c2".to_string(),
        balance: "100.00".to_string(),
        currency_type: "CNY".to_string(),
        interest: "1.5".to_string(),
    };
    act_edit_saving_account(&mut s, &id, &edit).unwrap();
    assert_eq!(
        s.owns
            .iter()
            .filter(|e| e.client_id == "c2" && e.account_id == id)
            .count(),
        1
    );
    let c2_row = s
        .management
        .iter()
        .find(|r| r.client_id == "c2")
        .unwrap();
    assert_eq!(c2_row.saving_account_id.as_deref(), Some(id.as_str()));
    // keeping the sole owner listed twice is also fine
    let keep = SavingAccountSubmit {
        client_ids: "c2 c2".to_string(),
        balance: "100.00".to_string(),
        currency_type: "CNY".to_string(),
        interest: "1.5".to_string(),
    };
    act_edit_saving_account(&mut s, &id, &keep).unwrap();
    assert_eq!(s.owns.len(), 1);
}

#[test]
fn subbranch_queries_and_asset_writer() {
    let mut s = state_with_subbranch("Main", "7.00");
    let row = query_subbranch(&s, "Main").unwrap();
    assert_eq!(row.city, "Springfield");
    assert_eq!(
        query_subbranch(&s, "Nowhere").unwrap_err(),
        BankError::NotFound
    );
    set_subbranch_asset(&mut s, "Main", &dec("99.90")).unwrap();
    assert!(get_asset(&s, "Main").unwrap().same_value(&dec("99.90")));
    // a missing name updates nothing
    set_subbranch_asset(&mut s, "Nowhere", &dec("1")).unwrap();
    assert!(get_asset(&s, "Main").unwrap().same_value(&dec("99.90")));
}

#[test]
fn edit_context_joins_owner_list() {
    let mut s = state_with_subbranch("Main", "0");
    let id = add_new_account_and_own(&mut s, &saving_submission("c1 c2", "10.00", "Main"))
        .unwrap();
    let ctx = get_edit_account(&s, &id).unwrap();
    assert_eq!(ctx.client_ids, " c1 c2");
    assert_eq!(
        get_edit_account(&s, "missing").unwrap_err(),
        BankError::NotFound
    );
}

#[test]
fn blank_form_and_error_descriptions() {
    let blank = new_account();
    assert!(blank.balance.is_empty());
    assert!(blank.account_type.is_empty());
    assert_eq!(BankError::Constraint.describe(), "account constraint error");
    assert_eq!(BankError::Validation.describe(), "validation error");
    assert_eq!(BankError::NotFound.describe(), "not found");
    assert_eq!(BankError::Storage.describe(), "storage error");
}

#[test]
fn list_splitting_and_string_equality() {
    let ids = get_list_from_input("  a b\t\tc  ");
    assert_eq!(ids, vec!["a", "b", "c"]);
    assert!(get_list_from_input("").is_empty());
    assert!(str_eq("abc", "abc"));
    assert!(!str_eq("abc", "abd"));
    assert!(!str_eq("abc", "ab"));
}

#[test]
fn loans_query_filters_by_subbranch() {
    let mut s = state_with_subbranch("Main", "0");
    s.loans.push(bank_core::models::Loan {
        loan_id: "l1".to_string(),
        amount: dec("10"),
        subbranch_name: "Main".to_string(),
    });
    s.loans.push(bank_core::models::Loan {
        loan_id: "l2".to_string(),
        amount: dec("20"),
        subbranch_name: "Other".to_string(),
    });
    let ls = query_associated_loans(&s, "Main");
    assert_eq!(ls.len(), 1);
    assert_eq!(ls[0].loan_id, "l1");
}

#[test]
fn dates_compare_lexicographically() {
    let a = Date::new(2021, 2, 10).unwrap();
    let b = Date::new(2021, 5, 1).unwrap();
    assert!(a.le(&b));
    assert!(!b.le(&a));
    assert!(a.le(&a));
    assert!(Date::new(2021, 13, 1).is_none());
    assert!(Date::new(2021, 0, 1).is_none());
    assert!(Date::new(2021, 1, 32).is_none());
}
