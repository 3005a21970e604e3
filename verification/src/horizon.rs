//! Length of a simulation in months, and the months that a report shows.

use vstd::prelude::*;

verus! {

/// Number of months in a year of the simulation.
pub const MONTHS_PER_YEAR: u64 = 12;

/// Months spanned by a horizon of `years` years.
pub open spec fn months_in(years: nat) -> nat {
    years * 12
}

/// Converts a horizon in years to months. The result is `None` exactly when
/// the month count does not fit in a `u64`.
pub fn horizon_months(years: u64) -> (months: Option<u64>)
    ensures
        months_in(years as nat) <= u64::MAX ==> months == Some(months_in(years as nat) as u64),
        months_in(years as nat) > u64::MAX ==> months is None,
{
    years.checked_mul(MONTHS_PER_YEAR)
}

/// A report shows the value of the first month of every year.
pub open spec fn is_snapshot(month: int) -> bool {
    month % 12 == 0
}

/// Whether a report shows the month with index `month`.
pub fn is_snapshot_month(month: usize) -> (shown: bool)
    ensures
        shown == is_snapshot(month as int),
{
    month % 12 == 0
}

/// The months that a report over `len` months shows, in increasing order:
/// every multiple of twelve below `len`, and nothing else.
pub fn snapshot_months(len: usize) -> (shown: Vec<usize>)
    ensures
        shown@.len() == (len + 11) / 12,
        forall|k: int| 0 <= k < shown@.len() ==> #[trigger] shown@[k] == 12 * k,
        forall|m: int| 0 <= m < len && is_snapshot(m) ==> shown@.contains(m as usize),
{
    let count: usize = if len % 12 == 0 {
        len / 12
    } else {
        len / 12 + 1
    };
    let mut shown: Vec<usize> = Vec::new();
    let mut k: usize = 0;
    while k < count
        invariant
            k <= count,
            count == (len + 11) / 12,
            shown@.len() == k,
            forall|j: int| 0 <= j < shown@.len() ==> #[trigger] shown@[j] == 12 * j,
        decreases count - k,
    {
        shown.push(12 * k);
        k += 1;
    }
    proof {
        assert forall|m: int| 0 <= m < len && is_snapshot(m) implies shown@.contains(
            m as usize,
        ) by {
            assert(m == 12 * (m / 12));
            assert(shown@[m / 12] == m);
        }
    }
    shown
}

} // verus!
