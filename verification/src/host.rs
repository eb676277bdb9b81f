//! Values the core needs from the host environment: fresh identifiers and
//! the clock.  Everything here is a thin trusted wrapper around an outside
//! crate; the ledger takes the returned plain values and does the rest in
//! verified code.

use vstd::prelude::*;

verus! {

/// Relies on `uuid::Uuid::new_v4` and the `Display` impl of `Uuid`: a fresh
/// random identifier rendered in the hyphenated form, which is always 36
/// characters.  Nothing is assumed about which identifier comes back.
#[verifier::external_body]
pub(crate) fn fresh_account_id() -> (r: String)
    ensures
        r@.len() == 36,
{
    uuid::Uuid::new_v4().to_string()
}

/// Relies on `chrono::Local::now` and `Datelike` for today's date: the month
/// is documented to lie in 1..=12 and the day in 1..=31.  Nothing is assumed
/// about which date comes back.
#[verifier::external_body]
pub(crate) fn current_date() -> (r: (i32, u32, u32))
    ensures
        1 <= r.1 <= 12,
        1 <= r.2 <= 31,
{
    let today = chrono::Local::now().date_naive();
    (
        chrono::Datelike::year(&today),
        chrono::Datelike::month(&today),
        chrono::Datelike::day(&today),
    )
}

/// Relies on `chrono::Local::now` and its `%Y-%m-%d %T` formatting for the
/// last-visit timestamp written on ownership edges.  Nothing is assumed
/// about the value.
#[verifier::external_body]
pub(crate) fn current_timestamp() -> (r: String)
{
    chrono::Local::now().format("%Y-%m-%d %T").to_string()
}

} // verus!
