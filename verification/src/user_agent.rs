//! The notifier of a user's session: which marks of a budget it tells, once each.
use crate::config::{counted_period, Config};
use crate::db::{adverb, period_adverb};
use crate::double::{bits_positive, INFINITY_BITS};
use crate::text::{decimal, numbers_are_read_back, unsigned_value};
use vstd::prelude::*;
use vstd::string::*;

verus! {

/// Whether there is anything to look for: a budget is set, its marks are to be told, and
/// there is a session to tell them in.
pub open spec fn is_watching(cfg: Config, bus: bool, display: bool) -> bool {
    bits_positive(cfg.budget_gb) && cfg.notify_on_budget && (bus || display)
}

/// The budget period to look for, where there is anything to look for.
pub fn watched_period<'a>(cfg: &'a Config, bus: bool, display: bool) -> (r: Option<&'a str>)
    ensures
        r is Some <==> is_watching(*cfg, bus, display),
        r matches Some(p) ==> p@ == counted_period(cfg.budget_period@),
{
    match cfg.effective_budget() {
        Some((period, _)) => if cfg.notify_on_budget && (bus || display) {
            Some(period)
        } else {
            None
        },
        None => None,
    }
}

/// The mark of a budget.
#[derive(Clone, Copy, PartialEq, Eq, Structural, Debug)]
pub enum Mark {
    FourFifths,
    All,
}

/// The percent of a mark.
pub open spec fn percent(mark: Mark) -> Seq<char> {
    match mark {
        Mark::FourFifths => "80"@,
        Mark::All => "100"@,
    }
}

fn percent_label(mark: Mark) -> (r: &'static str)
    ensures
        r@ == percent(mark),
{
    match mark {
        Mark::FourFifths => "80",
        Mark::All => "100",
    }
}

/// What is told of a mark.
pub open spec fn notice_text(mark: Mark, period: Seq<char>, key: Seq<char>) -> Seq<char> {
    "NetMeter: "@ + percent(mark) + "% of "@ + adverb(period) + " budget used ("@ + key + ")"@
}

/// The name of the file that records that a mark was told.
pub open spec fn sentinel_text(mark: Mark, key: Seq<char>) -> Seq<char> {
    "budget-"@ + key + "-"@ + percent(mark) + ".sent"@
}

/// The name of the file that records that a mark was told.
pub fn sentinel_file(mark: Mark, key: &str) -> (r: String)
    ensures
        r@ == sentinel_text(mark, key@),
{
    let mut r = String::new();
    r.append("budget-");
    r.append(key);
    r.append("-");
    r.append(percent_label(mark));
    r.append(".sent");
    assert(r@ =~= sentinel_text(mark, key@));
    r
}

/// What is told of a mark: that a budget window has reached it, where this is recorded in
/// the database and was not told before.
pub fn notice(mark: Mark, crossed: i64, told: bool, period: &str, key: &str) -> (r: Option<String>)
    ensures
        r is Some <==> crossed == 1 && !told,
        r matches Some(s) ==> s@ == notice_text(mark, period@, key@),
{
    if crossed != 1 || told {
        return None;
    }
    let mut r = String::new();
    r.append("NetMeter: ");
    r.append(percent_label(mark));
    r.append("% of ");
    r.append(period_adverb(period));
    r.append(" budget used (");
    r.append(key);
    r.append(")");
    assert(r@ =~= notice_text(mark, period@, key@));
    Some(r)
}

/// The marks of one window are recorded in different files, so that telling one does not
/// keep back the other.
pub proof fn marks_are_recorded_apart(key: Seq<char>)
    ensures
        sentinel_text(Mark::FourFifths, key) != sentinel_text(Mark::All, key),
{
    reveal_strlit("budget-");
    reveal_strlit("-");
    reveal_strlit("80");
    reveal_strlit("100");
    reveal_strlit(".sent");
    assert(sentinel_text(Mark::FourFifths, key).len() == key.len() + 15);
    assert(sentinel_text(Mark::All, key).len() == key.len() + 16);
}

/// There is something to look for where a budget is set, its marks are to be told and there
/// is a session of either kind; nowhere else.
pub proof fn any_session_is_enough(cfg: Config, bus: bool, display: bool)
    ensures
        is_watching(cfg, bus, display) == is_watching(cfg, display, bus),
        is_watching(cfg, true, false) == is_watching(cfg, true, true),
        !is_watching(cfg, false, false),
        !cfg.notify_on_budget ==> !is_watching(cfg, bus, display),
        cfg.budget_gb == 0 ==> !is_watching(cfg, bus, display),
        cfg.notify_on_budget && 0 < cfg.budget_gb <= INFINITY_BITS ==> is_watching(cfg, true, false),
{
}

/// Every mark of every window is recorded in a file of its own.
pub proof fn every_mark_has_its_own_file(m: Mark, n: Mark, k: Seq<char>, l: Seq<char>)
    requires
        m != n || k != l,
    ensures
        sentinel_text(m, k) != sentinel_text(n, l),
{
    reveal_strlit("budget-");
    reveal_strlit("-");
    reveal_strlit("80");
    reveal_strlit("100");
    reveal_strlit(".sent");
    let (a, b) = (sentinel_text(m, k), sentinel_text(n, l));
    assert(a.len() == 7 + k.len() + 1 + percent(m).len() + 5);
    assert(b.len() == 7 + l.len() + 1 + percent(n).len() + 5);
    if a == b {
        if m == n {
            assert(a.subrange(7, 7 + k.len() as int) =~= k);
            assert(b.subrange(7, 7 + l.len() as int) =~= l);
        } else {
            let (x, y) = (percent(m), percent(n));
            assert(a[a.len() - 7] == x[x.len() - 2]);
            assert(b[b.len() - 7] == y[y.len() - 2]);
        }
    }
}

/// What is told of a mark names its percent, and ends with the key of its window in
/// brackets.
pub proof fn notices_name_their_window(mark: Mark, period: Seq<char>, key: Seq<char>)
    ensures
        ({
            let s = notice_text(mark, period, key);
            &&& s.skip(s.len() - key.len() - 2) == seq!['('] + key + seq![')']
            &&& unsigned_value(percent(Mark::FourFifths), 10, 100) == Some(80int)
            &&& unsigned_value(percent(Mark::All), 10, 100) == Some(100int)
        }),
{
    reveal_strlit("NetMeter: ");
    reveal_strlit("% of ");
    reveal_strlit(" budget used (");
    reveal_strlit(")");
    reveal_strlit("80");
    reveal_strlit("100");
    let s = notice_text(mark, period, key);
    assert(s.skip(s.len() - key.len() - 2) =~= seq!['('] + key + seq![')']);
    reveal_with_fuel(decimal, 4);
    assert("80"@ =~= decimal(80));
    assert("100"@ =~= decimal(100));
    numbers_are_read_back(80, 100);
    numbers_are_read_back(100, 100);
}

} // verus!
