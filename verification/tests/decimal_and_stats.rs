use bank_core::calendar::Date;
use bank_core::decimal::Decimal;
use bank_core::errors::BankError;
use bank_core::parsing::parse_decimal;
use bank_core::stats::{get_statistics, statistic_context, subbranch_profile, StatRecord};
use bank_core::ledger::add_new_account_and_own;
use bank_core::models::{AccountSubmit, BankState, Loan, Payment, Subbranch};

use bigdecimal::BigDecimal;
use std::str::FromStr;

fn dec(s: &str) -> Decimal {
    parse_decimal(s).unwrap()
}

#[test]
fn parse_keeps_the_written_scale() {
    let d = dec("1000.00");
    assert_eq!(d.mantissa, 100000);
    assert_eq!(d.scale, 2);
    assert_eq!(dec("0.5").mantissa, 5);
    assert_eq!(dec("0.5").scale, 1);
    assert_eq!(dec("-12.34").mantissa, -1234);
    assert_eq!(dec("+7").mantissa, 7);
    assert_eq!(dec("1.").mantissa, 1);
    assert_eq!(dec("1.").scale, 0);
    assert_eq!(dec(".25").mantissa, 25);
    assert_eq!(dec(".25").scale, 2);
}

#[test]
fn parse_rejects_malformed_numbers() {
    for bad in ["", "abc", "1.2.3", "-", "+", ".", "1,5", "1e5", " 1"] {
        assert_eq!(parse_decimal(bad).unwrap_err(), BankError::Validation, "{bad}");
    }
}

#[test]
fn checked_arithmetic_aligns_scales_exactly() {
    let sum = dec("1.5").checked_add(&dec("2.25")).unwrap();
    assert_eq!(sum.mantissa, 375);
    assert_eq!(sum.scale, 2);
    let diff = dec("10").checked_sub(&dec("0.01")).unwrap();
    assert_eq!(diff.mantissa, 999);
    assert_eq!(diff.scale, 2);
    let huge = Decimal { mantissa: i128::MAX, scale: 0 };
    assert!(huge.checked_add(&dec("1")).is_none());
    assert!(huge.checked_sub(&dec("-1")).is_none());
}

#[test]
fn same_value_ignores_trailing_zeros() {
    assert!(dec("1000.00").same_value(&dec("1000")));
    assert!(dec("0.50").same_value(&dec(".5")));
    assert!(dec("0").same_value(&dec("-0.000")));
    assert!(!dec("1000.01").same_value(&dec("1000.0100001")));
}

#[test]
fn addition_agrees_with_an_arbitrary_precision_library() {
    let ours = dec("1000.00").checked_add(&dec("0.1")).unwrap();
    let theirs = BigDecimal::from_str("1000.00").unwrap() + BigDecimal::from_str("0.1").unwrap();
    assert_eq!(theirs, BigDecimal::from_str("1000.10").unwrap());
    assert!(ours.same_value(&dec("1000.10")));
}

fn rec(amount: &str, y: i32, m: u32, d: u32) -> StatRecord {
    StatRecord { amount: dec(amount), date: Date::new(y, m, d).unwrap() }
}

#[test]
fn aggregation_buckets_one_window_year() {
    // window of one year starting 2021: the 2020 record is excluded
    let records = vec![
        rec("100", 2021, 2, 10),
        rec("50", 2021, 5, 1),
        rec("999", 2020, 12, 31),
    ];
    let start = Date::new(2021, 1, 1).unwrap();
    let grid = get_statistics(&records, start, 1).unwrap();
    // February lands in Q1, second month; May in Q2, second month
    assert!(grid[0][0][1].total.same_value(&dec("100")));
    assert_eq!(grid[0][0][1].count, 1);
    assert!(grid[0][1][1].total.same_value(&dec("50")));
    assert_eq!(grid[0][1][1].count, 1);
    assert!(grid[0][3][2].total.same_value(&dec("0")));
    assert_eq!(grid[0][3][2].count, 0);

    let view = statistic_context(&grid, 2021, 1).unwrap();
    assert_eq!(view.len(), 1);
    assert_eq!(view[0].year, 2021);
    assert_eq!(view[0].quarters[0].label, "Q1");
    assert!(view[0].quarters[0].total.total.same_value(&dec("100")));
    assert_eq!(view[0].quarters[0].total.count, 1);
    assert!(view[0].quarters[1].total.total.same_value(&dec("50")));
    assert_eq!(view[0].quarters[1].total.count, 1);
    assert!(view[0].total.total.same_value(&dec("150")));
    assert_eq!(view[0].total.count, 2);
}

#[test]
fn aggregation_of_nothing_is_an_all_zero_grid() {
    let start = Date::new(2020, 1, 1).unwrap();
    let grid = get_statistics(&Vec::new(), start, 5).unwrap();
    assert_eq!(grid.len(), 5);
    for y in &grid {
        assert_eq!(y.len(), 4);
        for q in y {
            assert_eq!(q.len(), 3);
            for c in q {
                assert!(c.total.same_value(&dec("0")));
                assert_eq!(c.count, 0);
            }
        }
    }
}

#[test]
fn report_is_ordered_most_recent_year_first() {
    let records = vec![rec("1", 2019, 1, 1), rec("2", 2023, 12, 31)];
    let start = Date::new(2019, 1, 1).unwrap();
    let grid = get_statistics(&records, start, 5).unwrap();
    let view = statistic_context(&grid, 2019, 5).unwrap();
    assert_eq!(view[0].year, 2023);
    assert_eq!(view[4].year, 2019);
    assert!(view[0].total.total.same_value(&dec("2")));
    assert!(view[4].total.total.same_value(&dec("1")));
    assert_eq!(view[0].quarters[3].months[2].label, "Dec");
    assert_eq!(view[0].quarters[0].months[0].label, "Jan");
    assert_eq!(view[0].quarters[2].months[2].label, "Sept");
}

#[test]
fn profile_reports_all_three_statistics() {
    let mut s = BankState::new();
    s.subbranches.push(Subbranch {
        subbranch_name: "Main".to_string(),
        city: "Springfield".to_string(),
        subbranch_asset: dec("0"),
    });
    let sub = AccountSubmit {
        client_ids: "c1".to_string(),
        account_type: "savingAccount".to_string(),
        balance: "100.00".to_string(),
        currency_type: "CNY".to_string(),
        subbranch_name: "Main".to_string(),
        overdraft: String::new(),
        interest: "1.5".to_string(),
    };
    add_new_account_and_own(&mut s, &sub).unwrap();
    s.loans.push(Loan {
        loan_id: "l1".to_string(),
        amount: dec("1000"),
        subbranch_name: "Main".to_string(),
    });
    s.payments.push(Payment {
        loan_id: "l1".to_string(),
        date: Date::new(2021, 3, 15).unwrap(),
        amount: dec("25.00"),
    });
    let ctx = subbranch_profile(&s, "Main", 2021).unwrap();
    assert_eq!(ctx.subbranch_name, "Main");
    assert_eq!(ctx.subbranch_city, "Springfield");
    assert!(ctx.subbranch_asset.same_value(&dec("100.00")));
    assert_eq!(ctx.saving.len(), 5);
    assert_eq!(ctx.payment.len(), 5);
    // the payment of March 2021 sits in the most recent year's Q1
    assert!(ctx.payment[0].quarters[0].total.total.same_value(&dec("25.00")));
    assert_eq!(ctx.payment[0].quarters[0].total.count, 1);
    assert_eq!(
        subbranch_profile(&s, "Nowhere", 2021).unwrap_err(),
        BankError::NotFound
    );
}
