//! The thirty-day release-activity table: one date label per day, with the
//! per-day release and failure counts, oldest day first.
//!
//! Rendering a calendar label needs the calendar arithmetic of an outside
//! date library; everything around those two calls — the thirty-day window
//! and the reversal into oldest-first order — is verified.

use vstd::prelude::*;

verus! {

/// The label the date library renders for the day `days_ago` days before
/// the moment `epoch_secs`: day of month and abbreviated month name.
pub uninterp spec fn day_label_of(epoch_secs: i64, days_ago: u32) -> Seq<char>;

/// Relies on chrono's `DateTime::from_timestamp`, `checked_sub_signed` and
/// `format` with `"%d %b"`: together they render a label that depends on
/// the timestamp and the day offset alone, out-of-range inputs falling
/// back to the epoch instead of failing.
#[verifier::external_body]
fn day_label(epoch_secs: i64, days_ago: u32) -> (r: String)
    ensures
        r@ == day_label_of(epoch_secs, days_ago),
{
    let base = chrono::DateTime::from_timestamp(epoch_secs, 0).unwrap_or(
        chrono::DateTime::UNIX_EPOCH,
    );
    let date = base.checked_sub_signed(chrono::Duration::days(days_ago as i64)).unwrap_or(base)
        .naive_utc();
    format!("{}", date.format("%d %b"))
}

/// Relies on chrono's `Utc::now`: the moment of the call as seconds since
/// the epoch.  Nothing is assumed of the value.
#[verifier::external_body]
fn now_epoch_secs() -> i64 {
    chrono::Utc::now().timestamp()
}

/// Thirty labels in oldest-first order, all rendered from the one moment
/// `now`.
pub open spec fn labels_from(r: Seq<String>, now: i64) -> bool {
    forall|i: int| 0 <= i < 30 ==> (#[trigger] r[i])@ == day_label_of(now, (29 - i) as u32)
}

/// The assembled activity table, oldest day first.
pub struct ReleaseActivity {
    pub dates: Vec<String>,
    pub counts: Vec<i64>,
    pub failures: Vec<i64>,
}

fn reversed_strings(v: Vec<String>) -> (r: Vec<String>)
    ensures
        r@.len() == v@.len(),
        forall|i: int| 0 <= i < v@.len() ==> r@[i] == v@[v@.len() - 1 - i],
{
    let ghost src = v@;
    let ghost nn = src.len();
    let mut v = v;
    let mut r: Vec<String> = Vec::new();
    while v.len() > 0
        invariant
            nn == src.len(),
            v@.len() <= nn,
            v@ == src.subrange(0, v@.len() as int),
            r@.len() + v@.len() == nn,
            forall|i: int| 0 <= i < r@.len() ==> r@[i] == src[nn - 1 - i],
        decreases v@.len(),
    {
        let ghost j = v@.len() - 1;
        let s = v.pop().unwrap();
        proof {
            assert(s == src[j]);
            assert(v@ =~= src.subrange(0, j));
        }
        r.push(s);
    }
    r
}

fn reversed_counts(v: Vec<i64>) -> (r: Vec<i64>)
    ensures
        r@.len() == v@.len(),
        forall|i: int| 0 <= i < v@.len() ==> r@[i] == v@[v@.len() - 1 - i],
{
    let ghost src = v@;
    let ghost nn = src.len();
    let mut v = v;
    let mut r: Vec<i64> = Vec::new();
    while v.len() > 0
        invariant
            nn == src.len(),
            v@.len() <= nn,
            v@ == src.subrange(0, v@.len() as int),
            r@.len() + v@.len() == nn,
            forall|i: int| 0 <= i < r@.len() ==> r@[i] == src[nn - 1 - i],
        decreases v@.len(),
    {
        let ghost j = v@.len() - 1;
        let s = v.pop().unwrap();
        proof {
            assert(s == src[j]);
            assert(v@ =~= src.subrange(0, j));
        }
        r.push(s);
    }
    r
}

/// The thirty date labels before the moment `now_secs`, oldest first.
pub fn release_activity_labels(now_secs: i64) -> (r: Vec<String>)
    ensures
        r@.len() == 30,
        forall|i: int| 0 <= i < 30 ==> (#[trigger] r@[i])@ == day_label_of(
            now_secs,
            (29 - i) as u32,
        ),
{
    let mut dates: Vec<String> = Vec::new();
    let mut day: u32 = 0;
    while day < 30
        invariant
            day <= 30,
            dates@.len() == day,
            forall|i: int| 0 <= i < day ==> (#[trigger] dates@[i])@ == day_label_of(
                now_secs,
                i as u32,
            ),
        decreases 30 - day,
    {
        dates.push(day_label(now_secs, day));
        day += 1;
    }
    reversed_strings(dates)
}

/// The thirty date labels before the moment of the call, oldest first.
/// Which moment that is cannot be promised; what holds of every outcome is
/// that all thirty labels come from one clock reading.
pub fn current_activity_labels() -> (r: Vec<String>)
    ensures
        r@.len() == 30,
        exists|now: i64| #[trigger] labels_from(r@, now),
{
    let now = now_epoch_secs();
    let r = release_activity_labels(now);
    proof {
        assert(labels_from(r@, now));
    }
    r
}

/// The activity table for the thirty days before `now_secs`, given the
/// per-day release and failure counts with day zero as today: everything
/// reversed into oldest-first order, one date label per day.
pub fn assemble_release_activity(
    now_secs: i64,
    daily_counts: Vec<i64>,
    daily_failures: Vec<i64>,
) -> (r: ReleaseActivity)
    requires
        daily_counts@.len() == 30,
        daily_failures@.len() == 30,
    ensures
        r.dates@.len() == 30,
        r.counts@.len() == 30,
        r.failures@.len() == 30,
        forall|i: int| 0 <= i < 30 ==> (#[trigger] r.dates@[i])@ == day_label_of(
            now_secs,
            (29 - i) as u32,
        ),
        forall|i: int| 0 <= i < 30 ==> #[trigger] r.counts@[i] == daily_counts@[29 - i],
        forall|i: int| 0 <= i < 30 ==> #[trigger] r.failures@[i] == daily_failures@[29 - i],
{
    ReleaseActivity {
        dates: release_activity_labels(now_secs),
        counts: reversed_counts(daily_counts),
        failures: reversed_counts(daily_failures),
    }
}

} // verus!
