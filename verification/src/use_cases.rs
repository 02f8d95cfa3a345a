//! Aggregation over parsed logs: merging logs by date, projecting a log
//! per mentioned person, computing last interactions, and assessing
//! reachout reminders.

use vstd::prelude::*;

use crate::config::{Config, SpecPerson};
use crate::date::{
    day_number, spec_date_le, spec_date_lt, spec_digit_val, spec_is_digit, Date,
};
use crate::log::{
    clone_entry_vec, parse_log_file_content, spec_parse_log, Day, Entry, Log, ParseError, SpecDay,
    SpecEntry,
};
use crate::text::{is_ws, spec_is_ws, spec_text_le};

verus! {

/// At most one day per date.
pub open spec fn spec_unique_dates(days: Seq<SpecDay>) -> bool {
    forall|i: int, j: int|
        0 <= i < j < days.len() ==> (#[trigger] days[i]).date != (#[trigger] days[j]).date
}

/// Days in ascending date order.
pub open spec fn spec_sorted_by_date(days: Seq<SpecDay>) -> bool {
    forall|i: int, j: int|
        0 <= i < j < days.len() ==> spec_date_le((#[trigger] days[i]).date, (#[trigger] days[j]).date)
}

/// Whether some day of `days` has the date `date`.
pub open spec fn spec_has_date(days: Seq<SpecDay>, date: Date) -> bool {
    exists|i: int| 0 <= i < days.len() && (#[trigger] days[i]).date == date
}

/// The day of `days` with the date `date` (the well-formed logs of this
/// library have at most one).
pub open spec fn spec_day_at(days: Seq<SpecDay>, date: Date) -> SpecDay {
    days[choose|i: int| 0 <= i < days.len() && (#[trigger] days[i]).date == date]
}

/// With unique dates, a day found at any index is the day of its date.
pub proof fn lemma_day_at_index(days: Seq<SpecDay>, i: int)
    requires
        spec_unique_dates(days),
        0 <= i < days.len(),
    ensures
        spec_has_date(days, days[i].date),
        spec_day_at(days, days[i].date) == days[i],
{
    let date = days[i].date;
    assert(spec_has_date(days, date));
    let j = choose|j: int| 0 <= j < days.len() && (#[trigger] days[j]).date == date;
    if j != i {
        if j < i {
            assert(days[j].date != days[i].date);
        } else {
            assert(days[i].date != days[j].date);
        }
    }
}

/// A merged view of one of `new`'s days: where `prev` has a day of the
/// same date, the previous entries come first.
pub open spec fn spec_merged_day(prev: Seq<SpecDay>, d: SpecDay) -> SpecDay {
    if spec_has_date(prev, d.date) {
        SpecDay { date: d.date, entries: spec_day_at(prev, d.date).entries + d.entries }
    } else {
        d
    }
}

/// Looks up the day of `days` with the given date.
fn find_day_index(days: &Vec<Day>, date: &Date) -> (r: Option<usize>)
    ensures
        (match r {
            Some(i) => i < days@.len() && days.deep_view()[i as int].date == *date
                && spec_has_date(days.deep_view(), *date),
            None => !spec_has_date(days.deep_view(), *date),
        }),
{
    let mut i: usize = 0;
    while i < days.len()
        invariant
            i <= days@.len(),
            forall|j: int| 0 <= j < i ==> (#[trigger] days.deep_view()[j]).date != *date,
        decreases days@.len() - i,
    {
        if days[i].date == *date {
            proof {
                assert(days.deep_view()[i as int].date == *date);
            }
            return Some(i);
        }
        i = i + 1;
    }
    None
}

/// Inserts a day of a fresh date into a sorted run of days, keeping the
/// order and touching no other day.
fn insert_day_sorted(out: &mut Vec<Day>, d: Day)
    requires
        spec_unique_dates(old(out).deep_view()),
        spec_sorted_by_date(old(out).deep_view()),
        !spec_has_date(old(out).deep_view(), d@.date),
    ensures
        spec_unique_dates(final(out).deep_view()),
        spec_sorted_by_date(final(out).deep_view()),
        forall|date: Date|
            spec_has_date(final(out).deep_view(), date) <==> (spec_has_date(
                old(out).deep_view(),
                date,
            ) || date == d@.date),
        spec_day_at(final(out).deep_view(), d@.date) == d@,
        forall|date: Date|
            date != d@.date && spec_has_date(old(out).deep_view(), date) ==> spec_has_date(
                final(out).deep_view(),
                date,
            ) && spec_day_at(final(out).deep_view(), date) == spec_day_at(
                old(out).deep_view(),
                date,
            ),
{
    let ghost dv0 = out.deep_view();
    let mut pos: usize = 0;
    let mut past = false;
    while !past && pos < out.len()
        invariant
            pos <= out@.len(),
            dv0 == out.deep_view(),
            forall|j: int| 0 <= j < pos ==> spec_date_le((#[trigger] dv0[j]).date, d@.date),
            past ==> pos < out@.len() && !spec_date_le(dv0[pos as int].date, d@.date),
        decreases out@.len() - pos, (if past {
            0int
        } else {
            1int
        }),
    {
        proof {
            assert(dv0[pos as int].date == out.deep_view()[pos as int].date);
        }
        if out[pos].date.is_on_or_before(&d.date) {
            pos = pos + 1;
        } else {
            past = true;
        }
    }
    // here every day before pos is on or before d, and if pos is within
    // the run, d is strictly after every day before it and strictly
    // before the day at pos
    out.insert(pos, d);
    proof {
        let dv = out.deep_view();
        assert(dv =~~= dv0.insert(pos as int, d@));
        assert(forall|j: int| 0 <= j < pos ==> dv[j] == dv0[j]);
        assert(dv[pos as int] == d@);
        assert(forall|j: int| pos < j < dv.len() ==> dv[j] == dv0[j - 1]);
        assert forall|j: int| 0 <= j < pos implies spec_date_le(dv0[j].date, d@.date)
            && dv0[j].date != d@.date by {
            assert(spec_has_date(dv0, dv0[j].date));
        }
        assert forall|i: int, j: int| 0 <= i < j < dv.len() implies spec_date_le(
            (#[trigger] dv[i]).date,
            (#[trigger] dv[j]).date,
        ) by {
            if i == pos {
                if pos as int + 1 <= j {
                    if pos as int == dv0.len() {
                    } else {
                        assert(dv[j] == dv0[j - 1]);
                        assert(!spec_date_le(dv0[pos as int].date, d@.date));
                        if j - 1 > pos {
                            assert(spec_date_le(dv0[pos as int].date, dv0[j - 1].date));
                        }
                    }
                }
            } else if j == pos {
                assert(dv[i] == dv0[i]);
            } else if i < pos && j > pos {
                assert(dv[i] == dv0[i] && dv[j] == dv0[j - 1]);
                if pos as int == dv0.len() {
                    assert(spec_date_le(dv0[i].date, dv0[j - 1].date));
                } else {
                    assert(spec_date_le(dv0[i].date, dv0[j - 1].date));
                }
            } else if j < pos {
                assert(dv[i] == dv0[i] && dv[j] == dv0[j]);
            } else {
                assert(dv[i] == dv0[i - 1] && dv[j] == dv0[j - 1]);
            }
        }
        assert forall|i: int, j: int| 0 <= i < j < dv.len() implies (#[trigger] dv[i]).date != (
        #[trigger] dv[j]).date by {
            if i == pos {
                assert(dv[j] == dv0[j - 1]);
                assert(spec_has_date(dv0, dv0[j - 1].date));
            } else if j == pos {
                assert(dv[i] == dv0[i]);
                assert(spec_has_date(dv0, dv0[i].date));
            } else {
                let i0 = if i < pos {
                    i
                } else {
                    i - 1
                };
                let j0 = if j < pos {
                    j
                } else {
                    j - 1
                };
                assert(dv[i] == dv0[i0] && dv[j] == dv0[j0]);
            }
        }
        assert forall|date: Date|
            spec_has_date(dv, date) implies (spec_has_date(dv0, date) || date == d@.date) by {
            let i = choose|i: int| 0 <= i < dv.len() && (#[trigger] dv[i]).date == date;
            if i < pos {
                assert(dv0[i].date == date);
            } else if i > pos {
                assert(dv0[i - 1].date == date);
            }
        }
        assert forall|date: Date|
            (spec_has_date(dv0, date) || date == d@.date) implies spec_has_date(dv, date) by {
            if date == d@.date {
                assert(dv[pos as int].date == date);
            } else {
                let i = choose|i: int| 0 <= i < dv0.len() && (#[trigger] dv0[i]).date == date;
                if i < pos {
                    assert(dv[i].date == date);
                } else {
                    assert(dv[i + 1].date == date);
                }
            }
        }
        lemma_day_at_index(dv, pos as int);
        assert forall|date: Date|
            date != d@.date && spec_has_date(dv0, date) implies spec_has_date(dv, date)
            && spec_day_at(dv, date) == spec_day_at(dv0, date) by {
            let i = choose|i: int| 0 <= i < dv0.len() && (#[trigger] dv0[i]).date == date;
            lemma_day_at_index(dv0, i);
            if i < pos {
                assert(dv[i].date == date);
                lemma_day_at_index(dv, i);
            } else {
                assert(dv[i + 1].date == date);
                lemma_day_at_index(dv, i + 1);
            }
        }
    }
}

/// The day of a date seen in both logs: the previous day's date, with the
/// previous entries before the new ones.
pub fn merge_days(previous: Day, new: Day) -> (r: Day)
    ensures
        r@.date == previous@.date,
        r@.entries == previous@.entries + new@.entries,
{
    let mut entries = previous.entries;
    let ghost prev_entries = entries.deep_view();
    let mut i: usize = 0;
    let new_entries = new.entries;
    while i < new_entries.len()
        invariant
            i <= new_entries@.len(),
            entries.deep_view() =~~= prev_entries + new_entries.deep_view().take(i as int),
        decreases new_entries@.len() - i,
    {
        let ghost before = entries.deep_view();
        entries.push(new_entries[i].duplicate());
        proof {
            assert(entries.deep_view() =~~= before.push(new_entries.deep_view()[i as int]));
            assert(entries.deep_view() =~~= prev_entries + new_entries.deep_view().take(i + 1));
        }
        i = i + 1;
    }
    proof {
        assert(new_entries.deep_view().take(new_entries@.len() as int)
            =~~= new_entries.deep_view());
    }
    Day { date: previous.date, entries }
}

/// `outd` holds exactly the dates of the first `k` days of `nv`.
pub open spec fn spec_same_dates_upto(outd: Seq<SpecDay>, nv: Seq<SpecDay>, k: int) -> bool {
    forall|date: Date|
        #![trigger spec_has_date(outd, date)]
        spec_has_date(outd, date) <==> spec_has_date(nv.take(k), date)
}

pub proof fn lemma_same_dates_upto(outd: Seq<SpecDay>, nv: Seq<SpecDay>, k: int, date: Date)
    requires
        spec_same_dates_upto(outd, nv, k),
    ensures
        spec_has_date(outd, date) <==> spec_has_date(nv.take(k), date),
{
}

/// For each date among the first `k` of `nv`, `outd` holds the day of
/// that date merged with `pv`'s.
pub open spec fn spec_merged_upto(
    outd: Seq<SpecDay>,
    pv: Seq<SpecDay>,
    nv: Seq<SpecDay>,
    k: int,
) -> bool {
    forall|date: Date|
        #![trigger spec_day_at(outd, date)]
        spec_has_date(nv.take(k), date) ==> spec_day_at(outd, date) == spec_merged_day(
            pv,
            spec_day_at(nv, date),
        )
}

pub proof fn lemma_merged_upto(
    outd: Seq<SpecDay>,
    pv: Seq<SpecDay>,
    nv: Seq<SpecDay>,
    k: int,
    date: Date,
)
    requires
        spec_merged_upto(outd, pv, nv, k),
        spec_has_date(nv.take(k), date),
    ensures
        spec_day_at(outd, date) == spec_merged_day(pv, spec_day_at(nv, date)),
{
    assert(spec_day_at(outd, date) == spec_merged_day(pv, spec_day_at(nv, date)) || spec_day_at(
        outd,
        date,
    ) != spec_merged_day(pv, spec_day_at(nv, date)));
}

/// `outd` holds exactly the dates of `nv` and of the first `k` days of
/// `pv`.
pub open spec fn spec_union_upto(
    outd: Seq<SpecDay>,
    nv: Seq<SpecDay>,
    pv: Seq<SpecDay>,
    k: int,
) -> bool {
    forall|date: Date|
        #![trigger spec_has_date(outd, date)]
        spec_has_date(outd, date) <==> (spec_has_date(nv, date) || spec_has_date(
            pv.take(k),
            date,
        ))
}

pub proof fn lemma_union_upto(
    outd: Seq<SpecDay>,
    nv: Seq<SpecDay>,
    pv: Seq<SpecDay>,
    k: int,
    date: Date,
)
    requires
        spec_union_upto(outd, nv, pv, k),
    ensures
        spec_has_date(outd, date) <==> (spec_has_date(nv, date) || spec_has_date(
            pv.take(k),
            date,
        )),
{
}

/// For each date of `nv`, `outd` holds the day of that date merged with
/// `pv`'s.
pub open spec fn spec_merged_all(outd: Seq<SpecDay>, pv: Seq<SpecDay>, nv: Seq<SpecDay>) -> bool {
    forall|date: Date|
        #![trigger spec_day_at(outd, date)]
        spec_has_date(nv, date) ==> spec_day_at(outd, date) == spec_merged_day(
            pv,
            spec_day_at(nv, date),
        )
}

pub proof fn lemma_merged_all(outd: Seq<SpecDay>, pv: Seq<SpecDay>, nv: Seq<SpecDay>, date: Date)
    requires
        spec_merged_all(outd, pv, nv),
        spec_has_date(nv, date),
    ensures
        spec_day_at(outd, date) == spec_merged_day(pv, spec_day_at(nv, date)),
{
    assert(spec_day_at(outd, date) == spec_day_at(outd, date));
}

/// For each date among the first `k` of `pv` that `nv` lacks, `outd`
/// keeps `pv`'s day unchanged.
pub open spec fn spec_kept_upto(
    outd: Seq<SpecDay>,
    pv: Seq<SpecDay>,
    nv: Seq<SpecDay>,
    k: int,
) -> bool {
    forall|date: Date|
        #![trigger spec_day_at(outd, date)]
        spec_has_date(pv.take(k), date) && !spec_has_date(nv, date) ==> spec_day_at(outd, date)
            == spec_day_at(pv, date)
}

pub proof fn lemma_kept_upto(
    outd: Seq<SpecDay>,
    pv: Seq<SpecDay>,
    nv: Seq<SpecDay>,
    k: int,
    date: Date,
)
    requires
        spec_kept_upto(outd, pv, nv, k),
        spec_has_date(pv.take(k), date),
        !spec_has_date(nv, date),
    ensures
        spec_day_at(outd, date) == spec_day_at(pv, date),
{
    assert(spec_day_at(outd, date) == spec_day_at(outd, date));
}

/// Merges two logs by date.  A date in both keeps the previous day's
/// entries before the new day's; a date in one keeps that day unchanged;
/// the result is in ascending date order.
#[verifier::rlimit(60)]
pub fn merge_logs(previous: Log, new: Log) -> (r: Log)
    requires
        spec_unique_dates(previous@),
        spec_unique_dates(new@),
    ensures
        spec_unique_dates(r@),
        spec_sorted_by_date(r@),
        forall|date: Date|
            spec_has_date(r@, date) <==> (spec_has_date(previous@, date) || spec_has_date(
                new@,
                date,
            )),
        forall|date: Date|
            spec_has_date(new@, date) ==> spec_day_at(r@, date) == spec_merged_day(
                previous@,
                spec_day_at(new@, date),
            ),
        forall|date: Date|
            spec_has_date(previous@, date) && !spec_has_date(new@, date) ==> spec_day_at(r@, date)
                == spec_day_at(previous@, date),
        spec_merge_post(r@, previous@, new@),
{
    let ghost pv = previous@;
    let ghost nv = new@;
    let mut out: Vec<Day> = Vec::new();
    proof {
        assert(out.deep_view() =~~= Seq::<SpecDay>::empty());
        assert forall|date: Date|
            spec_has_date(out.deep_view(), date) <==> spec_has_date(nv.take(0), date) by {
            assert(nv.take(0) =~= Seq::<SpecDay>::empty());
        }
        assert(spec_same_dates_upto(out.deep_view(), nv, 0));
        assert(spec_merged_upto(out.deep_view(), pv, nv, 0)) by {
            assert(nv.take(0) =~= Seq::<SpecDay>::empty());
        }
    }
    let mut i: usize = 0;
    while i < new.days.len()
        invariant
            i <= new.days@.len(),
            pv == previous@,
            nv == new@,
            nv.len() == new.days@.len(),
            spec_unique_dates(pv),
            spec_unique_dates(nv),
            spec_unique_dates(out.deep_view()),
            spec_sorted_by_date(out.deep_view()),
            spec_same_dates_upto(out.deep_view(), nv, i as int),
            spec_merged_upto(out.deep_view(), pv, nv, i as int),
        decreases new.days@.len() - i,
    {
        let ghost outv0 = out.deep_view();
        let ghost iold = i as int;
        let d = &new.days[i];
        proof {
            assert(nv[iold] == new.days@[iold]@);
            lemma_day_at_index(nv, iold);
            // the date of this day is fresh for `out`
            lemma_same_dates_upto(outv0, nv, iold, nv[iold].date);
            if spec_has_date(nv.take(iold), nv[iold].date) {
                let k = choose|k: int|
                    0 <= k < iold && (#[trigger] nv.take(iold)[k]).date == nv[iold].date;
                assert(nv[k].date == nv[iold].date);
            }
        }
        let merged: Day = match find_day_index(&previous.days, &d.date) {
            Some(pi) => {
                let prev_day = previous.days[pi].duplicate();
                proof {
                    lemma_day_at_index(pv, pi as int);
                }
                merge_days(prev_day, d.duplicate())
            },
            None => d.duplicate(),
        };
        proof {
            assert(merged@ == spec_merged_day(pv, nv[iold]));
        }
        insert_day_sorted(&mut out, merged);
        proof {
            let outd = out.deep_view();
            assert(spec_same_dates_upto(outd, nv, iold + 1)) by {
                assert forall|date: Date|
                    spec_has_date(outd, date) <==> spec_has_date(nv.take(iold + 1), date) by {
                    if spec_has_date(outd, date) {
                        if date == nv[iold].date {
                            assert(nv.take(iold + 1)[iold] == nv[iold]);
                            assert(spec_has_date(nv.take(iold + 1), date));
                        } else {
                            assert(spec_has_date(outv0, date));
                            lemma_same_dates_upto(outv0, nv, iold, date);
                            let k = choose|k: int|
                                0 <= k < iold && (#[trigger] nv.take(iold)[k]).date == date;
                            assert(nv.take(iold + 1)[k].date == date);
                            assert(spec_has_date(nv.take(iold + 1), date));
                        }
                    }
                    if spec_has_date(nv.take(iold + 1), date) {
                        let k = choose|k: int|
                            0 <= k < iold + 1 && (#[trigger] nv.take(iold + 1)[k]).date == date;
                        assert(nv[k].date == date);
                        if k < iold {
                            assert(nv.take(iold)[k].date == date);
                            assert(spec_has_date(nv.take(iold), date));
                            lemma_same_dates_upto(outv0, nv, iold, date);
                            assert(spec_has_date(outv0, date));
                            assert(spec_has_date(outd, date));
                        } else {
                            assert(date == merged@.date);
                            assert(spec_has_date(outd, date));
                        }
                    }
                }
            }
            assert(spec_merged_upto(outd, pv, nv, iold + 1)) by {
                assert forall|date: Date|
                    spec_has_date(nv.take(iold + 1), date) implies spec_day_at(outd, date)
                    == spec_merged_day(pv, spec_day_at(nv, date)) by {
                    let k = choose|k: int|
                        0 <= k < iold + 1 && (#[trigger] nv.take(iold + 1)[k]).date == date;
                    assert(nv[k].date == date);
                    if date == nv[iold].date {
                        lemma_day_at_index(nv, iold);
                        assert(spec_day_at(nv, date) == nv[iold]);
                        assert(spec_day_at(outd, merged@.date) == merged@);
                    } else {
                        assert(k < iold);
                        assert(nv.take(iold)[k].date == date);
                        assert(spec_has_date(nv.take(iold), date));
                        lemma_same_dates_upto(outv0, nv, iold, date);
                        assert(spec_has_date(outv0, date));
                        lemma_merged_upto(outv0, pv, nv, iold, date);
                        assert(spec_day_at(outd, date) == spec_day_at(outv0, date));
                    }
                }
            }
        }
        i = i + 1;
    }
    proof {
        let outd = out.deep_view();
        assert(nv.take(nv.len() as int) =~= nv);
        assert(pv.take(0) =~= Seq::<SpecDay>::empty());
        assert(spec_union_upto(outd, nv, pv, 0)) by {
            assert forall|date: Date|
                spec_has_date(outd, date) <==> (spec_has_date(nv, date) || spec_has_date(
                    pv.take(0),
                    date,
                )) by {
                lemma_same_dates_upto(outd, nv, nv.len() as int, date);
            }
        }
        assert(spec_merged_all(outd, pv, nv)) by {
            assert forall|date: Date|
                spec_has_date(nv, date) implies spec_day_at(outd, date) == spec_merged_day(
                    pv,
                    spec_day_at(nv, date),
                ) by {
                lemma_merged_upto(outd, pv, nv, nv.len() as int, date);
            }
        }
        assert(spec_kept_upto(outd, pv, nv, 0));
    }
    let mut p: usize = 0;
    while p < previous.days.len()
        invariant
            p <= previous.days@.len(),
            pv == previous@,
            nv == new@,
            pv.len() == previous.days@.len(),
            spec_unique_dates(pv),
            spec_unique_dates(nv),
            spec_unique_dates(out.deep_view()),
            spec_sorted_by_date(out.deep_view()),
            spec_union_upto(out.deep_view(), nv, pv, p as int),
            spec_merged_all(out.deep_view(), pv, nv),
            spec_kept_upto(out.deep_view(), pv, nv, p as int),
        decreases previous.days@.len() - p,
    {
        let ghost outv0 = out.deep_view();
        let ghost pold = p as int;
        let d = &previous.days[p];
        proof {
            assert(pv[pold] == previous.days@[pold]@);
            lemma_day_at_index(pv, pold);
        }
        match find_day_index(&new.days, &d.date) {
            Some(_) => {
                proof {
                    let outd = out.deep_view();
                    assert(spec_has_date(nv, pv[pold].date));
                    assert(spec_union_upto(outd, nv, pv, pold + 1)) by {
                        assert forall|date: Date|
                            spec_has_date(outd, date) <==> (spec_has_date(nv, date)
                                || spec_has_date(pv.take(pold + 1), date)) by {
                            lemma_union_upto(outd, nv, pv, pold, date);
                            if spec_has_date(pv.take(pold), date) {
                                let k = choose|k: int|
                                    0 <= k < pold && (#[trigger] pv.take(pold)[k]).date == date;
                                assert(pv.take(pold + 1)[k].date == date);
                                assert(spec_has_date(pv.take(pold + 1), date));
                            }
                            if spec_has_date(pv.take(pold + 1), date) {
                                let k = choose|k: int|
                                    0 <= k < pold + 1 && (#[trigger] pv.take(pold + 1)[k]).date
                                        == date;
                                assert(pv[k].date == date);
                                if k < pold {
                                    assert(pv.take(pold)[k].date == date);
                                    assert(spec_has_date(pv.take(pold), date));
                                } else {
                                    assert(date == pv[pold].date);
                                }
                            }
                        }
                    }
                    assert(spec_kept_upto(outd, pv, nv, pold + 1)) by {
                        assert forall|date: Date|
                            spec_has_date(pv.take(pold + 1), date) && !spec_has_date(
                                nv,
                                date,
                            ) implies spec_day_at(outd, date) == spec_day_at(pv, date) by {
                            let k = choose|k: int|
                                0 <= k < pold + 1 && (#[trigger] pv.take(pold + 1)[k]).date
                                    == date;
                            assert(pv[k].date == date);
                            if k < pold {
                                assert(pv.take(pold)[k].date == date);
                                assert(spec_has_date(pv.take(pold), date));
                                lemma_kept_upto(outd, pv, nv, pold, date);
                            } else {
                                assert(date == pv[pold].date);
                                assert(spec_has_date(nv, date));
                            }
                        }
                    }
                }
            },
            None => {
                let dup = d.duplicate();
                proof {
                    assert(!spec_has_date(nv, dup@.date));
                    lemma_union_upto(outv0, nv, pv, pold, dup@.date);
                    if spec_has_date(pv.take(pold), dup@.date) {
                        let k = choose|k: int|
                            0 <= k < pold && (#[trigger] pv.take(pold)[k]).date == dup@.date;
                        assert(pv[k].date == pv[pold].date);
                    }
                    assert(!spec_has_date(outv0, dup@.date));
                }
                insert_day_sorted(&mut out, dup);
                proof {
                    let outd = out.deep_view();
                    assert(spec_union_upto(outd, nv, pv, pold + 1)) by {
                        assert forall|date: Date|
                            spec_has_date(outd, date) <==> (spec_has_date(nv, date)
                                || spec_has_date(pv.take(pold + 1), date)) by {
                            if spec_has_date(outd, date) {
                                if date == dup@.date {
                                    assert(pv.take(pold + 1)[pold] == pv[pold]);
                                    assert(spec_has_date(pv.take(pold + 1), date));
                                } else {
                                    assert(spec_has_date(outv0, date));
                                    lemma_union_upto(outv0, nv, pv, pold, date);
                                    if spec_has_date(pv.take(pold), date) {
                                        let k = choose|k: int|
                                            0 <= k < pold && (#[trigger] pv.take(pold)[k]).date
                                                == date;
                                        assert(pv.take(pold + 1)[k].date == date);
                                        assert(spec_has_date(pv.take(pold + 1), date));
                                    }
                                }
                            }
                            if spec_has_date(nv, date) {
                                lemma_union_upto(outv0, nv, pv, pold, date);
                                assert(spec_has_date(outv0, date));
                                assert(spec_has_date(outd, date));
                            }
                            if spec_has_date(pv.take(pold + 1), date) {
                                let k = choose|k: int|
                                    0 <= k < pold + 1 && (#[trigger] pv.take(pold + 1)[k]).date
                                        == date;
                                assert(pv[k].date == date);
                                if k < pold {
                                    assert(pv.take(pold)[k].date == date);
                                    assert(spec_has_date(pv.take(pold), date));
                                    lemma_union_upto(outv0, nv, pv, pold, date);
                                    assert(spec_has_date(outv0, date));
                                    assert(spec_has_date(outd, date));
                                } else {
                                    assert(date == dup@.date);
                                    assert(spec_has_date(outd, date));
                                }
                            }
                        }
                    }
                    assert(spec_merged_all(outd, pv, nv)) by {
                        assert forall|date: Date|
                            spec_has_date(nv, date) implies spec_day_at(outd, date)
                            == spec_merged_day(pv, spec_day_at(nv, date)) by {
                            lemma_union_upto(outv0, nv, pv, pold, date);
                            assert(spec_has_date(outv0, date));
                            lemma_merged_all(outv0, pv, nv, date);
                            assert(date != dup@.date);
                            assert(spec_day_at(outd, date) == spec_day_at(outv0, date));
                        }
                    }
                    assert(spec_kept_upto(outd, pv, nv, pold + 1)) by {
                        assert forall|date: Date|
                            spec_has_date(pv.take(pold + 1), date) && !spec_has_date(
                                nv,
                                date,
                            ) implies spec_day_at(outd, date) == spec_day_at(pv, date) by {
                            let k = choose|k: int|
                                0 <= k < pold + 1 && (#[trigger] pv.take(pold + 1)[k]).date
                                    == date;
                            assert(pv[k].date == date);
                            if k < pold {
                                assert(pv.take(pold)[k].date == date);
                                assert(spec_has_date(pv.take(pold), date));
                                lemma_kept_upto(outv0, pv, nv, pold, date);
                                lemma_union_upto(outv0, nv, pv, pold, date);
                                assert(spec_has_date(outv0, date));
                                assert(date != dup@.date);
                                assert(spec_day_at(outd, date) == spec_day_at(outv0, date));
                            } else {
                                assert(date == dup@.date);
                                assert(spec_day_at(outd, dup@.date) == dup@);
                                lemma_day_at_index(pv, pold);
                            }
                        }
                    }
                }
            },
        }
        p = p + 1;
    }
    proof {
        let outd = out.deep_view();
        assert(pv.take(pv.len() as int) =~= pv);
        assert forall|date: Date|
            spec_has_date(outd, date) <==> (spec_has_date(pv, date) || spec_has_date(
                nv,
                date,
            )) by {
            lemma_union_upto(outd, nv, pv, pv.len() as int, date);
        }
        assert forall|date: Date|
            spec_has_date(nv, date) implies spec_day_at(outd, date) == spec_merged_day(
                pv,
                spec_day_at(nv, date),
            ) by {
            lemma_merged_all(outd, pv, nv, date);
        }
        assert forall|date: Date|
            spec_has_date(pv, date) && !spec_has_date(nv, date) implies spec_day_at(outd, date)
            == spec_day_at(pv, date) by {
            lemma_kept_upto(outd, pv, nv, pv.len() as int, date);
        }
    }
    Log { days: out }
}

/// Two sorted runs of unique dates holding the same days are equal.
pub proof fn lemma_days_ext(a: Seq<SpecDay>, b: Seq<SpecDay>)
    requires
        spec_unique_dates(a),
        spec_sorted_by_date(a),
        spec_unique_dates(b),
        spec_sorted_by_date(b),
        forall|date: Date| spec_has_date(a, date) <==> spec_has_date(b, date),
        forall|date: Date|
            spec_has_date(a, date) ==> spec_day_at(a, date) == spec_day_at(b, date),
    ensures
        a == b,
    decreases a.len(),
{
    if a.len() == 0 {
        if b.len() > 0 {
            assert(spec_has_date(b, b[0].date));
            assert(spec_has_date(a, b[0].date));
        }
        assert(a =~= b);
    } else {
        assert(spec_has_date(a, a[0].date));
        assert(spec_has_date(b, a[0].date));
        let k = choose|k: int| 0 <= k < b.len() && (#[trigger] b[k]).date == a[0].date;
        assert(spec_has_date(b, b[0].date));
        assert(spec_has_date(a, b[0].date));
        let m = choose|m: int| 0 <= m < a.len() && (#[trigger] a[m]).date == b[0].date;
        assert(spec_date_le(a[0].date, a[m].date));
        assert(spec_date_le(b[0].date, b[k].date));
        assert(a[0].date == b[0].date);
        lemma_day_at_index(a, 0);
        lemma_day_at_index(b, 0);
        assert(a[0] == b[0]);
        let a2 = a.drop_first();
        let b2 = b.drop_first();
        assert(forall|j: int| 0 <= j < a2.len() ==> #[trigger] a2[j] == a[j + 1]);
        assert(forall|j: int| 0 <= j < b2.len() ==> #[trigger] b2[j] == b[j + 1]);
        assert forall|date: Date| spec_has_date(a2, date) <==> spec_has_date(b2, date) by {
            if spec_has_date(a2, date) {
                let j = choose|j: int| 0 <= j < a2.len() && (#[trigger] a2[j]).date == date;
                assert(a[j + 1].date == date);
                assert(date != a[0].date);
                assert(spec_has_date(a, date));
                let j2 = choose|j2: int| 0 <= j2 < b.len() && (#[trigger] b[j2]).date == date;
                assert(j2 != 0);
                assert(b2[j2 - 1].date == date);
                assert(spec_has_date(b2, date));
            }
            if spec_has_date(b2, date) {
                let j = choose|j: int| 0 <= j < b2.len() && (#[trigger] b2[j]).date == date;
                assert(b[j + 1].date == date);
                assert(date != b[0].date);
                assert(spec_has_date(b, date));
                let j2 = choose|j2: int| 0 <= j2 < a.len() && (#[trigger] a[j2]).date == date;
                assert(j2 != 0);
                assert(a2[j2 - 1].date == date);
                assert(spec_has_date(a2, date));
            }
        }
        assert forall|date: Date|
            spec_has_date(a2, date) implies spec_day_at(a2, date) == spec_day_at(b2, date) by {
            let j = choose|j: int| 0 <= j < a2.len() && (#[trigger] a2[j]).date == date;
            lemma_day_at_index(a2, j);
            assert(a[j + 1].date == date);
            assert(date != a[0].date);
            lemma_day_at_index(a, j + 1);
            assert(spec_has_date(b, date));
            let j2 = choose|j2: int| 0 <= j2 < b.len() && (#[trigger] b[j2]).date == date;
            assert(j2 != 0);
            lemma_day_at_index(b, j2);
            lemma_day_at_index(b2, j2 - 1);
            assert(spec_day_at(a2, date) == a[j + 1]);
            assert(a[j + 1] == spec_day_at(a, date));
            assert(spec_day_at(a, date) == spec_day_at(b, date));
            assert(spec_day_at(b, date) == b[j2]);
            assert(b2[j2 - 1] == b[j2]);
        }
        lemma_days_ext(a2, b2);
        assert(a =~= seq![a[0]] + a2);
        assert(b =~= seq![b[0]] + b2);
        assert(a =~= b);
    }
}

/// Everything `merge_logs` promises of its result `r` for the inputs
/// `prev` and `new`.
pub open spec fn spec_merge_post(r: Seq<SpecDay>, prev: Seq<SpecDay>, new: Seq<SpecDay>) -> bool {
    &&& spec_unique_dates(r)
    &&& spec_sorted_by_date(r)
    &&& forall|date: Date|
        spec_has_date(r, date) <==> (spec_has_date(prev, date) || spec_has_date(new, date))
    &&& forall|date: Date|
        spec_has_date(new, date) ==> spec_day_at(r, date) == spec_merged_day(
            prev,
            spec_day_at(new, date),
        )
    &&& forall|date: Date|
        spec_has_date(prev, date) && !spec_has_date(new, date) ==> spec_day_at(r, date)
            == spec_day_at(prev, date)
}

/// Law of merge identity: the merge of a log with the empty log, as
/// `merge_logs` describes its result, is that log unchanged.  The
/// hypotheses are exactly what `merge_logs` ensures of its result `r`
/// when the new log is empty.
pub proof fn lemma_merge_identity(l: Seq<SpecDay>, r: Seq<SpecDay>)
    requires
        spec_unique_dates(l),
        spec_sorted_by_date(l),
        spec_merge_post(r, l, Seq::<SpecDay>::empty()),
    ensures
        r == l,
{
    assert forall|date: Date| spec_has_date(r, date) <==> spec_has_date(l, date) by {
        if spec_has_date(Seq::<SpecDay>::empty(), date) {
            let k = choose|k: int|
                0 <= k < 0 && (#[trigger] Seq::<SpecDay>::empty()[k]).date == date;
        }
    }
    assert forall|date: Date|
        spec_has_date(r, date) implies spec_day_at(r, date) == spec_day_at(l, date) by {
        if spec_has_date(Seq::<SpecDay>::empty(), date) {
            let k = choose|k: int|
                0 <= k < 0 && (#[trigger] Seq::<SpecDay>::empty()[k]).date == date;
        }
    }
    lemma_days_ext(r, l);
}

/// Law of merge on disjoint dates: when no date is shared, the merged
/// days are exactly the union of the two logs' days.  The hypotheses
/// are what `merge_logs` ensures of its result `r`.
pub proof fn lemma_merge_disjoint_union(l: Seq<SpecDay>, n: Seq<SpecDay>, r: Seq<SpecDay>)
    requires
        spec_unique_dates(l),
        spec_unique_dates(n),
        forall|date: Date| !(spec_has_date(l, date) && spec_has_date(n, date)),
        spec_merge_post(r, l, n),
    ensures
        forall|d: SpecDay| r.contains(d) <==> (l.contains(d) || n.contains(d)),
{
    assert forall|d: SpecDay| r.contains(d) implies (l.contains(d) || n.contains(d)) by {
        let k = choose|k: int| 0 <= k < r.len() && r[k] == d;
        lemma_day_at_index(r, k);
        if spec_has_date(n, d.date) {
            assert(spec_day_at(r, d.date) == spec_merged_day(l, spec_day_at(n, d.date)));
            assert(!spec_has_date(l, d.date));
            assert(d == spec_day_at(n, d.date));
            let j = choose|j: int| 0 <= j < n.len() && (#[trigger] n[j]).date == d.date;
            assert(n[j] == d);
            assert(n.contains(d));
        } else {
            assert(spec_has_date(l, d.date));
            assert(d == spec_day_at(l, d.date));
            let j = choose|j: int| 0 <= j < l.len() && (#[trigger] l[j]).date == d.date;
            assert(l[j] == d);
            assert(l.contains(d));
        }
    }
    assert forall|d: SpecDay| (l.contains(d) || n.contains(d)) implies r.contains(d) by {
        if l.contains(d) {
            let k = choose|k: int| 0 <= k < l.len() && l[k] == d;
            lemma_day_at_index(l, k);
            assert(spec_has_date(r, d.date));
            assert(!spec_has_date(n, d.date));
            assert(spec_day_at(r, d.date) == d);
            let j = choose|j: int| 0 <= j < r.len() && (#[trigger] r[j]).date == d.date;
            assert(r[j] == d);
            assert(r.contains(d));
        } else {
            let k = choose|k: int| 0 <= k < n.len() && n[k] == d;
            lemma_day_at_index(n, k);
            assert(spec_has_date(r, d.date));
            assert(!spec_has_date(l, d.date));
            assert(spec_day_at(r, d.date) == spec_merged_day(l, d));
            assert(spec_merged_day(l, d) == d);
            let j = choose|j: int| 0 <= j < r.len() && (#[trigger] r[j]).date == d.date;
            assert(r[j] == d);
            assert(r.contains(d));
        }
    }
}

/// Law of merge on a shared date: the merged day keeps the previous
/// day's date and concatenates the previous entries before the new
/// ones, losing none.  The hypothesis is what `merge_logs` ensures of
/// its result `r`.
pub proof fn lemma_merge_overlap_concat(
    l: Seq<SpecDay>,
    n: Seq<SpecDay>,
    r: Seq<SpecDay>,
    date: Date,
)
    requires
        spec_has_date(l, date),
        spec_has_date(n, date),
        spec_merge_post(r, l, n),
    ensures
        spec_day_at(r, date).date == spec_day_at(l, date).date,
        spec_day_at(r, date).entries == spec_day_at(l, date).entries + spec_day_at(
            n,
            date,
        ).entries,
{
    assert(spec_day_at(r, date) == spec_merged_day(l, spec_day_at(n, date)));
    let k = choose|k: int| 0 <= k < n.len() && (#[trigger] n[k]).date == date;
    assert(spec_day_at(n, date).date == date);
    let j = choose|j: int| 0 <= j < l.len() && (#[trigger] l[j]).date == date;
    assert(spec_day_at(l, date).date == date);
}

/// Law of merge associativity by date: folding three logs left to right
/// gives the same run of days as folding them right to left.  Each `*`
/// hypothesis is what `merge_logs` ensures of the named result.
pub proof fn lemma_merge_associative(
    a: Seq<SpecDay>,
    b: Seq<SpecDay>,
    c: Seq<SpecDay>,
    ab: Seq<SpecDay>,
    bc: Seq<SpecDay>,
    ab_c: Seq<SpecDay>,
    a_bc: Seq<SpecDay>,
)
    requires
        spec_unique_dates(a),
        spec_unique_dates(b),
        spec_unique_dates(c),
        spec_merge_post(ab, a, b),
        spec_merge_post(bc, b, c),
        spec_merge_post(ab_c, ab, c),
        spec_merge_post(a_bc, a, bc),
    ensures
        ab_c == a_bc,
{
    assert forall|date: Date| spec_has_date(ab_c, date) <==> spec_has_date(a_bc, date) by {
        assert(spec_has_date(ab_c, date) <==> (spec_has_date(ab, date) || spec_has_date(
            c,
            date,
        )));
        assert(spec_has_date(ab, date) <==> (spec_has_date(a, date) || spec_has_date(b, date)));
        assert(spec_has_date(a_bc, date) <==> (spec_has_date(a, date) || spec_has_date(
            bc,
            date,
        )));
        assert(spec_has_date(bc, date) <==> (spec_has_date(b, date) || spec_has_date(c, date)));
    }
    assert forall|date: Date|
        spec_has_date(ab_c, date) implies spec_day_at(ab_c, date) == spec_day_at(a_bc, date) by {
        let ina = spec_has_date(a, date);
        let inb = spec_has_date(b, date);
        let inc = spec_has_date(c, date);
        assert(spec_has_date(ab, date) <==> (ina || inb));
        assert(spec_has_date(bc, date) <==> (inb || inc));
        if inb {
            assert(spec_day_at(ab, date) == spec_merged_day(a, spec_day_at(b, date)));
        }
        // the date of each looked-up day is the date itself
        if ina {
            let k = choose|k: int| 0 <= k < a.len() && (#[trigger] a[k]).date == date;
            assert(spec_day_at(a, date).date == date);
        }
        if inb {
            let k = choose|k: int| 0 <= k < b.len() && (#[trigger] b[k]).date == date;
            assert(spec_day_at(b, date).date == date);
        }
        if inc {
            let k = choose|k: int| 0 <= k < c.len() && (#[trigger] c[k]).date == date;
            assert(spec_day_at(c, date).date == date);
        }
        if inc {
            assert(spec_day_at(ab_c, date) == spec_merged_day(ab, spec_day_at(c, date)));
            assert(spec_day_at(bc, date) == spec_merged_day(b, spec_day_at(c, date)));
            if inb {
                assert(spec_day_at(bc, date).entries == spec_day_at(b, date).entries
                    + spec_day_at(c, date).entries);
                assert(spec_day_at(ab, date).date == date);
                assert(spec_day_at(bc, date).date == date);
            }
            assert(spec_day_at(a_bc, date) == spec_merged_day(a, spec_day_at(bc, date)));
            if ina && inb {
                assert(spec_day_at(ab, date).entries == spec_day_at(a, date).entries
                    + spec_day_at(b, date).entries);
                assert(spec_day_at(ab_c, date).entries =~= spec_day_at(a_bc, date).entries);
                assert(spec_day_at(ab_c, date).date == date && spec_day_at(a_bc, date).date
                    == date);
            } else if ina {
                assert(spec_day_at(ab, date) == spec_day_at(a, date));
                assert(spec_day_at(bc, date) == spec_day_at(c, date));
                assert(spec_day_at(ab_c, date).entries =~= spec_day_at(a_bc, date).entries);
                assert(spec_day_at(ab_c, date).date == date && spec_day_at(a_bc, date).date
                    == date);
            } else if inb {
                assert(spec_day_at(ab, date) == spec_merged_day(a, spec_day_at(b, date)));
                assert(spec_day_at(ab, date) == spec_day_at(b, date));
                assert(spec_day_at(ab_c, date).entries =~= spec_day_at(a_bc, date).entries);
                assert(spec_day_at(ab_c, date).date == date && spec_day_at(a_bc, date).date
                    == date);
            } else {
                assert(spec_day_at(ab_c, date) == spec_day_at(c, date));
                assert(spec_day_at(a_bc, date) == spec_merged_day(a, spec_day_at(bc, date)));
                assert(spec_day_at(bc, date) == spec_day_at(c, date));
                assert(spec_day_at(a_bc, date) == spec_day_at(c, date));
            }
        } else {
            // the date lies only in `a` or `b`
            assert(spec_has_date(ab, date));
            assert(spec_day_at(ab_c, date) == spec_day_at(ab, date));
            if inb {
                assert(spec_has_date(bc, date));
                assert(spec_day_at(a_bc, date) == spec_merged_day(a, spec_day_at(bc, date)));
                assert(spec_day_at(bc, date) == spec_day_at(b, date));
                assert(spec_day_at(ab, date) == spec_merged_day(a, spec_day_at(b, date)));
            } else {
                assert(ina);
                assert(!spec_has_date(bc, date));
                assert(spec_day_at(a_bc, date) == spec_day_at(a, date));
                assert(spec_day_at(ab, date) == spec_day_at(a, date));
            }
        }
    }
    lemma_days_ext(ab_c, a_bc);
}

/// A count of days between two dates.
pub type DaysAgo = i64;

/// A person's most recent "main" mention, and how many days overdue the
/// configured reachout is, once assessed.
#[derive(Clone, Debug, PartialEq, Eq)]
pub struct LastInteraction {
    pub person: String,
    pub last: Date,
    pub days_beyond_reachout_threshold: Option<DaysAgo>,
}

/// The mathematical content of a last interaction.
#[verifier::ext_equal]
pub struct SpecInteraction {
    pub person: Seq<char>,
    pub last: Date,
    pub beyond: Option<DaysAgo>,
}

impl View for LastInteraction {
    type V = SpecInteraction;

    open spec fn view(&self) -> SpecInteraction {
        SpecInteraction {
            person: self.person@,
            last: self.last,
            beyond: self.days_beyond_reachout_threshold,
        }
    }
}

impl DeepView for LastInteraction {
    type V = SpecInteraction;

    open spec fn deep_view(&self) -> SpecInteraction {
        self@
    }
}

/// How many days beyond the reachout threshold `today` lies: the days
/// from `last` to `today`, less the reminder duration; unset when the
/// threshold has not passed, and capped at the largest representable
/// count.
pub open spec fn spec_days_beyond(last: Date, reminder_days: int, today: Date) -> Option<
    DaysAgo,
> {
    let over = day_number(today) - day_number(last) - reminder_days;
    if over <= 0 {
        Option::None
    } else if over > i64::MAX {
        Option::Some(i64::MAX)
    } else {
        Option::Some(over as i64)
    }
}

impl LastInteraction {
    /// How many days before `reference` the last interaction was.
    pub fn ago(&self, reference: Date) -> (r: DaysAgo)
        requires
            self.last.wf(),
            reference.wf(),
        ensures
            r == day_number(reference) - day_number(self.last),
    {
        reference.to_day_number() as i64 - self.last.to_day_number() as i64
    }

    /// Assesses the reachout reminder against a given date: the result
    /// carries how many days past `last + reminder_after_days` that date
    /// lies, or nothing if the threshold has not passed.
    pub fn assess_reminder_at(&self, reminder_after_days: DaysAgo, today: Date) -> (r:
        LastInteraction)
        requires
            self.last.wf(),
            today.wf(),
        ensures
            r@.person == self@.person,
            r.last == self.last,
            r.days_beyond_reachout_threshold == spec_days_beyond(
                self.last,
                reminder_after_days as int,
                today,
            ),
    {
        let dl = self.last.to_day_number() as i128;
        let dt = today.to_day_number() as i128;
        let over: i128 = dt - dl - (reminder_after_days as i128);
        let beyond: Option<DaysAgo> = if over <= 0 {
            None
        } else if over > i64::MAX as i128 {
            Some(i64::MAX)
        } else {
            Some(over as i64)
        };
        LastInteraction {
            person: self.person.clone(),
            last: self.last,
            days_beyond_reachout_threshold: beyond,
        }
    }

    /// Assesses the reachout reminder against the current local date.
    /// Whatever the clock returns, the result is this interaction with
    /// its overdue count computed by `spec_days_beyond` for that date.
    pub fn assess_reminder(&self, reminder_after_days: DaysAgo) -> (r: LastInteraction)
        requires
            self.last.wf(),
        ensures
            r@.person == self@.person,
            r.last == self.last,
            exists|today: Date|
                #[trigger] today.wf() && r.days_beyond_reachout_threshold == spec_days_beyond(
                    self.last,
                    reminder_after_days as int,
                    today,
                ),
    {
        let today = current_date();
        self.assess_reminder_at(reminder_after_days, today)
    }
}

/// Relies on chrono's `Local::now` and the `Datelike` accessors of
/// `NaiveDate`: the current local date as plain year, month and day
/// numbers, with the month in 1..=12 and the day in 1..=31.
#[verifier::external_body]
fn today_from_clock() -> (r: (i64, u8, u8))
    ensures
        1 <= r.1 <= 12,
        1 <= r.2 <= 31,
{
    let now = chrono::Local::now().date_naive();
    let y = chrono::Datelike::year(&now) as i64;
    let m = chrono::Datelike::month(&now) as u8;
    let d = chrono::Datelike::day(&now) as u8;
    (y, m, d)
}

/// The current local date.  A clock reading outside the supported
/// calendar (years 0000-9999, or a day that its month lacks) falls back
/// to the first day of its month or to the calendar's bounds.
pub fn current_date() -> (r: Date)
    ensures
        r.wf(),
{
    let (y, m, d) = today_from_clock();
    let year: u16 = if y < 0 {
        0
    } else if y > 9999 {
        9999
    } else {
        y as u16
    };
    let day: u8 = if d <= crate::date::days_in_month(year, m) {
        d
    } else {
        1
    };
    Date { year, month: m, day }
}

/// The whitespace-separated words of `s`, collected after position `i`;
/// `cur` is the word in progress and `out` the words already complete.
pub open spec fn spec_split_ws_from(
    s: Seq<char>,
    i: int,
    cur: Seq<char>,
    out: Seq<Seq<char>>,
) -> Seq<Seq<char>>
    decreases s.len() - i + 1,
{
    if i < 0 || i >= s.len() {
        if cur.len() > 0 {
            out.push(cur)
        } else {
            out
        }
    } else if spec_is_ws(s[i]) {
        if cur.len() > 0 {
            spec_split_ws_from(s, i + 1, Seq::empty(), out.push(cur))
        } else {
            spec_split_ws_from(s, i + 1, cur, out)
        }
    } else {
        spec_split_ws_from(s, i + 1, cur.push(s[i]), out)
    }
}

/// The whitespace-separated words of `s`.
pub open spec fn spec_split_ws(s: Seq<char>) -> Seq<Seq<char>> {
    spec_split_ws_from(s, 0, Seq::empty(), Seq::empty())
}

/// Splits `s` into its whitespace-separated words.
pub fn split_ws(s: &str) -> (r: Vec<String>)
    ensures
        r.deep_view() == spec_split_ws(s@),
{
    let n = s.unicode_len();
    let mut out: Vec<String> = Vec::new();
    let mut cur = String::new();
    let mut i: usize = 0;
    proof {
        assert(cur@ =~= Seq::<char>::empty());
        assert(out.deep_view() =~~= Seq::<Seq<char>>::empty());
    }
    while i < n
        invariant
            n == s@.len(),
            i <= n,
            spec_split_ws(s@) == spec_split_ws_from(s@, i as int, cur@, out.deep_view()),
        decreases n - i,
    {
        let ghost prev_out = out.deep_view();
        let ghost prev_cur = cur@;
        let c = s.get_char(i);
        if is_ws(c) {
            if cur.as_str().unicode_len() > 0 {
                out.push(cur);
                cur = String::new();
                proof {
                    assert(out.deep_view() =~~= prev_out.push(prev_cur));
                    assert(cur@ =~= Seq::<char>::empty());
                    assert(spec_split_ws_from(s@, i as int, prev_cur, prev_out)
                        == spec_split_ws_from(s@, i + 1, cur@, out.deep_view()));
                }
            } else {
                proof {
                    assert(spec_split_ws_from(s@, i as int, prev_cur, prev_out)
                        == spec_split_ws_from(s@, i + 1, cur@, out.deep_view()));
                }
            }
        } else {
            let piece = s.substring_char(i, i + 1);
            cur.append(piece);
            proof {
                assert(s@.subrange(i as int, i + 1) =~= seq![s@[i as int]]);
                assert(cur@ =~= prev_cur.push(s@[i as int]));
                assert(spec_split_ws_from(s@, i as int, prev_cur, prev_out)
                    == spec_split_ws_from(s@, i + 1, cur@, out.deep_view()));
            }
        }
        i = i + 1;
    }
    let ghost last_cur = cur@;
    let ghost last_out = out.deep_view();
    if cur.as_str().unicode_len() > 0 {
        out.push(cur);
        proof {
            assert(out.deep_view() =~~= last_out.push(last_cur));
        }
    }
    out
}

/// The value of the digit run of `s` from `i` on, accumulated onto `acc`,
/// or `None` if a non-digit appears.
pub open spec fn spec_digits_val(s: Seq<char>, i: int, acc: int) -> Option<int>
    decreases s.len() - i + 1,
{
    if i < 0 || i >= s.len() {
        Option::Some(acc)
    } else if spec_is_digit(s[i]) {
        spec_digits_val(s, i + 1, acc * 10 + spec_digit_val(s[i]))
    } else {
        Option::None
    }
}

/// The integer denoted by `s`: an optional sign followed by one or more
/// decimal digits, of any size.
pub open spec fn spec_parse_int(s: Seq<char>) -> Option<int> {
    if s.len() == 0 {
        Option::None
    } else if s[0] == '-' {
        if s.len() == 1 {
            Option::None
        } else {
            match spec_digits_val(s, 1, 0) {
                Option::Some(v) => Option::Some(-v),
                Option::None => Option::None,
            }
        }
    } else if s[0] == '+' {
        if s.len() == 1 {
            Option::None
        } else {
            spec_digits_val(s, 1, 0)
        }
    } else if spec_is_digit(s[0]) {
        spec_digits_val(s, 0, 0)
    } else {
        Option::None
    }
}

/// A growing digit run never shrinks a non-negative accumulator.
pub proof fn lemma_digits_val_ge(s: Seq<char>, i: int, acc: int)
    requires
        0 <= acc,
        spec_digits_val(s, i, acc) is Some,
    ensures
        spec_digits_val(s, i, acc)->0 >= acc,
    decreases s.len() - i + 1,
{
    if 0 <= i < s.len() && spec_is_digit(s[i]) {
        lemma_digits_val_ge(s, i + 1, acc * 10 + spec_digit_val(s[i]));
    }
}

/// Parses a decimal integer into an `i64`: `None` when the text is not
/// an optionally signed digit run, or its value does not fit.
pub fn parse_i64(s: &str) -> (r: Option<i64>)
    ensures
        (match r {
            Some(v) => spec_parse_int(s@) == Option::Some(v as int),
            None => spec_parse_int(s@) is None || spec_parse_int(s@)->0 > i64::MAX
                || spec_parse_int(s@)->0 < i64::MIN,
        }),
{
    let n = s.unicode_len();
    if n == 0 {
        return None;
    }
    let first = s.get_char(0);
    let neg = first == '-';
    let start: usize = if first == '-' || first == '+' {
        1
    } else {
        0
    };
    if start == 1 && n == 1 {
        return None;
    }
    if start == 0 && !char_is_digit_pub(first) {
        return None;
    }
    // one past the largest magnitude that fits a signed 64-bit value
    let bound: i128 = 9223372036854775808i128;
    let mut acc: i128 = 0;
    let mut i = start;
    while i < n
        invariant
            n == s@.len(),
            n > 0,
            start <= i <= n,
            start <= 1,
            n > start,
            neg <==> s@[0] == '-',
            start == 1 <==> (s@[0] == '-' || s@[0] == '+'),
            0 <= acc <= bound,
            bound == 9223372036854775808i128,
            spec_digits_val(s@, start as int, 0) == spec_digits_val(s@, i as int, acc as int),
        decreases n - i,
    {
        let c = s.get_char(i);
        if !char_is_digit_pub(c) {
            proof {
                assert(spec_digits_val(s@, i as int, acc as int) is None);
                assert(spec_digits_val(s@, start as int, 0) is None);
                if neg {
                    assert(s@[0] == '-');
                }
                assert(spec_parse_int(s@) is None);
            }
            return None;
        }
        let d = (c as u32 - '0' as u32) as i128;
        let ghost acc_old = acc as int;
        acc = acc * 10 + d;
        proof {
            assert(acc as int == acc_old * 10 + spec_digit_val(s@[i as int]));
            assert(spec_digits_val(s@, i as int, acc_old) == spec_digits_val(
                s@,
                i + 1,
                acc as int,
            ));
        }
        if acc > bound {
            proof {
                if spec_digits_val(s@, i + 1, acc as int) is Some {
                    lemma_digits_val_ge(s@, i + 1, acc as int);
                    assert(spec_digits_val(s@, start as int, 0)->0 > i64::MAX);
                    if neg {
                        assert(s@[0] == '-');
                        assert(spec_parse_int(s@)->0 < i64::MIN);
                    } else if s@[0] == '+' {
                        assert(spec_parse_int(s@)->0 > i64::MAX);
                    } else {
                        assert(spec_parse_int(s@) == spec_digits_val(s@, 0, 0));
                        assert(spec_parse_int(s@)->0 > i64::MAX);
                    }
                } else {
                    assert(spec_digits_val(s@, start as int, 0) is None);
                    if neg {
                        assert(s@[0] == '-');
                    }
                    assert(spec_parse_int(s@) is None);
                }
            }
            return None;
        }
        i = i + 1;
    }
    proof {
        assert(spec_digits_val(s@, n as int, acc as int) == Option::Some(acc as int));
        assert(spec_digits_val(s@, start as int, 0) == Option::Some(acc as int));
        if neg {
            assert(s@[0] == '-');
            assert(spec_parse_int(s@) == Option::Some(-(acc as int)));
        } else if s@[0] == '+' {
            assert(spec_parse_int(s@) == Option::Some(acc as int));
        } else {
            assert(spec_parse_int(s@) == spec_digits_val(s@, 0, 0));
            assert(spec_parse_int(s@) == Option::Some(acc as int));
        }
    }
    if neg {
        if acc == bound {
            return Some(i64::MIN);
        }
        Some(-(acc as i64))
    } else {
        if acc == bound {
            return None;
        }
        Some(acc as i64)
    }
}

/// Whether `c` is a decimal digit.
fn char_is_digit_pub(c: char) -> (r: bool)
    ensures
        r == spec_is_digit(c),
{
    '0' <= c && c <= '9'
}

/// Why a reminder duration text was rejected.
#[derive(Clone, Copy, Debug, PartialEq, Eq, Structural)]
pub enum DurationError {
    /// The text holds no words at all.
    MissingAmount,
    /// The first word is not an integer the machine can count days in.
    BadAmount,
    /// No unit follows the amount.
    MissingUnit,
    /// The unit is none of day, week or month.
    BadUnit,
}

/// The days denoted by a duration text `"<amount> <unit>"`, with a month
/// counted as 30 days and a week as 7.
pub open spec fn spec_duration_days(s: Seq<char>) -> Result<int, DurationError> {
    let parts = spec_split_ws(s);
    if parts.len() == 0 {
        Result::Err(DurationError::MissingAmount)
    } else {
        match spec_parse_int(parts[0]) {
            Option::None => Result::Err(DurationError::BadAmount),
            Option::Some(v) => {
                if v > i64::MAX || v < i64::MIN {
                    Result::Err(DurationError::BadAmount)
                } else if parts.len() < 2 {
                    Result::Err(DurationError::MissingUnit)
                } else if parts[1] == "month"@ || parts[1] == "months"@ {
                    if 30 * v > i64::MAX || 30 * v < i64::MIN {
                        Result::Err(DurationError::BadAmount)
                    } else {
                        Result::Ok(30 * v)
                    }
                } else if parts[1] == "week"@ || parts[1] == "weeks"@ {
                    if 7 * v > i64::MAX || 7 * v < i64::MIN {
                        Result::Err(DurationError::BadAmount)
                    } else {
                        Result::Ok(7 * v)
                    }
                } else if parts[1] == "day"@ || parts[1] == "days"@ {
                    Result::Ok(v)
                } else {
                    Result::Err(DurationError::BadUnit)
                }
            },
        }
    }
}

/// Parses a reminder duration such as `"3 months"` into a count of
/// days.  Fails exactly on a missing or non-integer amount, a missing or
/// unknown unit, or a day count beyond the machine's range.
pub fn parse_duration_text(text: &str) -> (r: Result<i64, DurationError>)
    ensures
        (match r {
            Ok(d) => spec_duration_days(text@) == Result::<int, DurationError>::Ok(d as int),
            Err(e) => spec_duration_days(text@) == Result::<int, DurationError>::Err(e),
        }),
{
    let parts = split_ws(text);
    if parts.len() == 0 {
        return Err(DurationError::MissingAmount);
    }
    proof {
        assert(parts.deep_view()[0] == parts@[0]@);
    }
    let amount = match parse_i64(parts[0].as_str()) {
        Some(v) => v,
        None => {
            return Err(DurationError::BadAmount);
        },
    };
    if parts.len() < 2 {
        return Err(DurationError::MissingUnit);
    }
    proof {
        assert(parts.deep_view()[1] == parts@[1]@);
    }
    let unit = parts[1].as_str();
    if crate::mention::str_eq(unit, "month") || crate::mention::str_eq(unit, "months") {
        let wide = amount as i128 * 30;
        if wide > i64::MAX as i128 || wide < i64::MIN as i128 {
            Err(DurationError::BadAmount)
        } else {
            Ok(wide as i64)
        }
    } else if crate::mention::str_eq(unit, "week") || crate::mention::str_eq(unit, "weeks") {
        let wide = amount as i128 * 7;
        if wide > i64::MAX as i128 || wide < i64::MIN as i128 {
            Err(DurationError::BadAmount)
        } else {
            Ok(wide as i64)
        }
    } else if crate::mention::str_eq(unit, "day") || crate::mention::str_eq(unit, "days") {
        Ok(amount)
    } else {
        Err(DurationError::BadUnit)
    }
}

/// The first failure among the configured reminder durations, scanned in
/// configuration order from position `i` on.
pub open spec fn spec_first_duration_error_from(people: Seq<SpecPerson>, i: int) -> Option<
    DurationError,
>
    decreases people.len() - i + 1,
{
    if i < 0 || i >= people.len() {
        Option::None
    } else {
        match people[i].remind_after {
            Option::None => spec_first_duration_error_from(people, i + 1),
            Option::Some(txt) => match spec_duration_days(txt) {
                Result::Err(e) => Option::Some(e),
                Result::Ok(_) => spec_first_duration_error_from(people, i + 1),
            },
        }
    }
}

/// The first failure among the configured reminder durations.
pub open spec fn spec_first_duration_error(people: Seq<SpecPerson>) -> Option<DurationError> {
    spec_first_duration_error_from(people, 0)
}

/// The reminder duration configured for `name`, in days: that of the
/// last configuration entry of this name that carries one.
pub open spec fn spec_reminder_for(people: Seq<SpecPerson>, name: Seq<char>) -> Option<int>
    decreases people.len(),
{
    if people.len() == 0 {
        Option::None
    } else {
        let l = people.last();
        if l.name == name && l.remind_after is Some && spec_duration_days(l.remind_after->0)
            is Ok {
            Option::Some(spec_duration_days(l.remind_after->0)->Ok_0)
        } else {
            spec_reminder_for(people.drop_last(), name)
        }
    }
}

/// What one interaction becomes under `identify_reachouts_at`: assessed
/// against the person's configured duration, or passed through
/// unmodified where none is configured.
pub open spec fn spec_reachout_of(
    li: SpecInteraction,
    people: Seq<SpecPerson>,
    today: Date,
) -> SpecInteraction {
    match spec_reminder_for(people, li.person) {
        Option::None => li,
        Option::Some(days) => SpecInteraction {
            person: li.person,
            last: li.last,
            beyond: spec_days_beyond(li.last, days, today),
        },
    }
}

impl LastInteraction {
    /// An identical interaction.
    pub fn duplicate(&self) -> (r: LastInteraction)
        ensures
            r@ == self@,
    {
        LastInteraction {
            person: self.person.clone(),
            last: self.last,
            days_beyond_reachout_threshold: self.days_beyond_reachout_threshold,
        }
    }
}

/// Computes, for each interaction, how long overdue the configured
/// reachout is on the date `today`.  A person without a configured
/// duration passes through unmodified; a malformed duration anywhere in
/// the configuration fails the whole call with the first such error.
pub fn identify_reachouts_at(
    without_reminders: Vec<LastInteraction>,
    config: &Config,
    today: Date,
) -> (r: Result<Vec<LastInteraction>, DurationError>)
    requires
        today.wf(),
        forall|k: int|
            0 <= k < without_reminders@.len() ==> (#[trigger] without_reminders@[k]).last.wf(),
    ensures
        (match r {
            Ok(out) => spec_first_duration_error(config@.people) is None && out@.len()
                == without_reminders@.len() && (forall|k: int|
                0 <= k < out@.len() ==> (#[trigger] out@[k])@ == spec_reachout_of(
                    without_reminders@[k]@,
                    config@.people,
                    today,
                )),
            Err(e) => spec_first_duration_error(config@.people) == Option::Some(e),
        }),
{
    let ghost people = config@.people;
    // parse every configured duration first, so that a malformed entry
    // is reported even when no interaction names that person
    let mut durations: Vec<Option<i64>> = Vec::new();
    let mut i: usize = 0;
    while i < config.people.len()
        invariant
            i <= config.people@.len(),
            people == config@.people,
            people.len() == config.people@.len(),
            durations@.len() == i,
            spec_first_duration_error(people) == spec_first_duration_error_from(
                people,
                i as int,
            ),
            forall|j: int|
                0 <= j < i ==> #[trigger] durations@[j] == (match people[j].remind_after {
                    Option::None => Option::<i64>::None,
                    Option::Some(txt) => Option::Some(spec_duration_days(txt)->Ok_0 as i64),
                }),
            forall|j: int|
                0 <= j < i ==> ((#[trigger] people[j]).remind_after is Some
                    ==> spec_duration_days(people[j].remind_after->0) is Ok),
        decreases config.people@.len() - i,
    {
        proof {
            assert(people[i as int] == config.people@[i as int]@);
        }
        match &config.people[i].remind_after {
            Some(txt) => {
                match parse_duration_text(txt.as_str()) {
                    Ok(d) => {
                        durations.push(Some(d));
                    },
                    Err(e) => {
                        return Err(e);
                    },
                }
            },
            None => {
                durations.push(None);
            },
        }
        i = i + 1;
    }
    proof {
        assert(spec_first_duration_error_from(people, people.len() as int) is None);
    }
    let mut out: Vec<LastInteraction> = Vec::new();
    let mut k: usize = 0;
    while k < without_reminders.len()
        invariant
            k <= without_reminders@.len(),
            people == config@.people,
            people.len() == config.people@.len(),
            durations@.len() == people.len(),
            today.wf(),
            forall|j: int|
                0 <= j < without_reminders@.len() ==> (#[trigger] without_reminders@[j]).last.wf(),
            forall|j: int|
                0 <= j < people.len() ==> #[trigger] durations@[j] == (
                match people[j].remind_after {
                    Option::None => Option::<i64>::None,
                    Option::Some(txt) => Option::Some(spec_duration_days(txt)->Ok_0 as i64),
                }),
            forall|j: int|
                0 <= j < people.len() ==> ((#[trigger] people[j]).remind_after is Some
                    ==> spec_duration_days(people[j].remind_after->0) is Ok),
            out@.len() == k,
            forall|j: int|
                0 <= j < k ==> (#[trigger] out@[j])@ == spec_reachout_of(
                    without_reminders@[j]@,
                    people,
                    today,
                ),
        decreases without_reminders@.len() - k,
    {
        let li = &without_reminders[k];
        // look for the person's reminder, from the last entry backwards
        let mut found: Option<i64> = None;
        let mut p = config.people.len();
        proof {
            assert(people.take(people.len() as int) =~= people);
        }
        while p > 0
            invariant
                p <= people.len(),
                people == config@.people,
                people.len() == config.people@.len(),
                durations@.len() == people.len(),
                forall|j: int|
                    0 <= j < people.len() ==> #[trigger] durations@[j] == (
                    match people[j].remind_after {
                        Option::None => Option::<i64>::None,
                        Option::Some(txt) => Option::Some(spec_duration_days(txt)->Ok_0 as i64),
                    }),
                forall|j: int|
                    0 <= j < people.len() ==> ((#[trigger] people[j]).remind_after is Some
                        ==> spec_duration_days(people[j].remind_after->0) is Ok),
                (match found {
                    Option::None => spec_reminder_for(people, li.person@) == spec_reminder_for(
                        people.take(p as int),
                        li.person@,
                    ),
                    Option::Some(d) => spec_reminder_for(people, li.person@)
                        == Option::Some(d as int),
                }),
                found is Some ==> p == 0,
            decreases p,
        {
            proof {
                assert(people[p - 1] == config.people@[p - 1]@);
                assert(people.take(p as int).last() == people[p - 1]);
                assert(people.take(p as int).drop_last() =~= people.take(p - 1));
            }
            let cand = &config.people[p - 1];
            let mut hit = false;
            if crate::mention::str_eq(cand.name.as_str(), li.person.as_str()) {
                match &durations[p - 1] {
                    Some(d) => {
                        found = Some(*d);
                        hit = true;
                    },
                    None => {},
                }
            }
            if hit {
                p = 0;
            } else {
                p = p - 1;
            }
        }
        proof {
            if found is None {
                assert(people.take(0) =~= Seq::<SpecPerson>::empty());
            }
        }
        let assessed = match found {
            Some(days) => li.assess_reminder_at(days, today),
            None => li.duplicate(),
        };
        out.push(assessed);
        k = k + 1;
    }
    Ok(out)
}

/// Computes each interaction's overdue reachout against the current
/// local date.  Whatever date the clock gives, the result is that of
/// `identify_reachouts_at` for some well-formed date.
pub fn identify_reachouts(without_reminders: Vec<LastInteraction>, config: &Config) -> (r: Result<
    Vec<LastInteraction>,
    DurationError,
>)
    requires
        forall|k: int|
            0 <= k < without_reminders@.len() ==> (#[trigger] without_reminders@[k]).last.wf(),
    ensures
        (match r {
            Ok(out) => spec_first_duration_error(config@.people) is None && out@.len()
                == without_reminders@.len() && (exists|today: Date|
                #[trigger] today.wf() && (forall|k: int|
                    0 <= k < out@.len() ==> (#[trigger] out@[k])@ == spec_reachout_of(
                        without_reminders@[k]@,
                        config@.people,
                        today,
                    ))),
            Err(e) => spec_first_duration_error(config@.people) == Option::Some(e),
        }),
{
    let today = current_date();
    identify_reachouts_at(without_reminders, config, today)
}

/// Whether some entry of `entries` names `p` on its first line.
pub open spec fn spec_main_in_entries(entries: Seq<SpecEntry>, p: Seq<char>) -> bool {
    exists|j: int| 0 <= j < entries.len() && (#[trigger] entries[j]).main.contains(p)
}

/// Whether some entry of some day names `p` on its first line.
pub open spec fn spec_main_mentioned(days: Seq<SpecDay>, p: Seq<char>) -> bool {
    exists|i: int| 0 <= i < days.len() && spec_main_in_entries((#[trigger] days[i]).entries, p)
}

/// Whether `d` is the most recent date under which an entry names `p` on
/// its first line.
pub open spec fn spec_is_last_main_date(days: Seq<SpecDay>, p: Seq<char>, d: Date) -> bool {
    &&& exists|i: int|
        0 <= i < days.len() && (#[trigger] days[i]).date == d && spec_main_in_entries(
            days[i].entries,
            p,
        )
    &&& forall|i: int|
        0 <= i < days.len() && spec_main_in_entries((#[trigger] days[i]).entries, p)
            ==> spec_date_le(days[i].date, d)
}

/// Whether some interaction of `s` belongs to the person `p`.
pub open spec fn spec_has_person(s: Seq<SpecInteraction>, p: Seq<char>) -> bool {
    exists|k: int| 0 <= k < s.len() && (#[trigger] s[k]).person == p
}

/// The interaction of the person `p`.
pub open spec fn spec_interaction_at(s: Seq<SpecInteraction>, p: Seq<char>) -> SpecInteraction {
    s[choose|k: int| 0 <= k < s.len() && (#[trigger] s[k]).person == p]
}

/// At most one interaction per person.
pub open spec fn spec_unique_persons(s: Seq<SpecInteraction>) -> bool {
    forall|i: int, j: int|
        0 <= i < j < s.len() ==> (#[trigger] s[i]).person != (#[trigger] s[j]).person
}

/// The presentation order of interactions: by date, then by person name.
pub open spec fn spec_interaction_le(a: SpecInteraction, b: SpecInteraction) -> bool {
    if a.last != b.last {
        spec_date_le(a.last, b.last)
    } else {
        spec_text_le(a.person, b.person)
    }
}

/// Interactions in presentation order.
pub open spec fn spec_sorted_interactions(s: Seq<SpecInteraction>) -> bool {
    forall|i: int, j: int|
        0 <= i < j < s.len() ==> spec_interaction_le(#[trigger] s[i], #[trigger] s[j])
}

/// With unique persons, an interaction found at any index is the
/// interaction of its person.
pub proof fn lemma_interaction_at_index(s: Seq<SpecInteraction>, i: int)
    requires
        spec_unique_persons(s),
        0 <= i < s.len(),
    ensures
        spec_has_person(s, s[i].person),
        spec_interaction_at(s, s[i].person) == s[i],
{
    let p = s[i].person;
    assert(spec_has_person(s, p));
    let j = choose|j: int| 0 <= j < s.len() && (#[trigger] s[j]).person == p;
    if j != i {
        if j < i {
            assert(s[j].person != s[i].person);
        } else {
            assert(s[i].person != s[j].person);
        }
    }
}

fn interaction_key_le(a: &LastInteraction, b: &LastInteraction) -> (r: bool)
    ensures
        r == spec_interaction_le(a@, b@),
{
    if a.last != b.last {
        a.last.is_on_or_before(&b.last)
    } else {
        crate::text::str_le(a.person.as_str(), b.person.as_str())
    }
}

/// Inserts an interaction of a fresh person into a run of interactions
/// in presentation order, keeping the order and touching no other.
fn insert_interaction_sorted(out: &mut Vec<LastInteraction>, x: LastInteraction)
    requires
        spec_unique_persons(old(out).deep_view()),
        spec_sorted_interactions(old(out).deep_view()),
        !spec_has_person(old(out).deep_view(), x@.person),
    ensures
        spec_unique_persons(final(out).deep_view()),
        spec_sorted_interactions(final(out).deep_view()),
        forall|p: Seq<char>|
            spec_has_person(final(out).deep_view(), p) <==> (spec_has_person(
                old(out).deep_view(),
                p,
            ) || p == x@.person),
        spec_interaction_at(final(out).deep_view(), x@.person) == x@,
        forall|p: Seq<char>|
            p != x@.person && spec_has_person(old(out).deep_view(), p) ==> spec_has_person(
                final(out).deep_view(),
                p,
            ) && spec_interaction_at(final(out).deep_view(), p) == spec_interaction_at(
                old(out).deep_view(),
                p,
            ),
{
    let ghost dv0 = out.deep_view();
    let mut pos: usize = 0;
    let mut past = false;
    while !past && pos < out.len()
        invariant
            pos <= out@.len(),
            dv0 == out.deep_view(),
            forall|j: int| 0 <= j < pos ==> spec_interaction_le(#[trigger] dv0[j], x@),
            past ==> pos < out@.len() && !spec_interaction_le(dv0[pos as int], x@),
        decreases out@.len() - pos, (if past {
            0int
        } else {
            1int
        }),
    {
        proof {
            assert(dv0[pos as int] == out.deep_view()[pos as int]);
        }
        if interaction_key_le(&out[pos], &x) {
            pos = pos + 1;
        } else {
            past = true;
        }
    }
    out.insert(pos, x);
    proof {
        let dv = out.deep_view();
        assert(dv =~~= dv0.insert(pos as int, x@));
        assert(forall|j: int| 0 <= j < pos ==> dv[j] == dv0[j]);
        assert(dv[pos as int] == x@);
        assert(forall|j: int| pos < j < dv.len() ==> dv[j] == dv0[j - 1]);
        assert forall|i: int, j: int| 0 <= i < j < dv.len() implies spec_interaction_le(
            #[trigger] dv[i],
            #[trigger] dv[j],
        ) by {
            if i == pos {
                if (pos as int) < dv0.len() {
                    assert(dv[j] == dv0[j - 1]);
                    assert(!spec_interaction_le(dv0[pos as int], x@));
                    lemma_interaction_le_total(x@, dv0[pos as int]);
                    if j - 1 > pos {
                        assert(spec_interaction_le(dv0[pos as int], dv0[j - 1]));
                        lemma_interaction_le_trans(x@, dv0[pos as int], dv0[j - 1]);
                    }
                }
            } else if j == pos {
                assert(dv[i] == dv0[i]);
            } else if i < pos && j > pos {
                assert(dv[i] == dv0[i] && dv[j] == dv0[j - 1]);
                assert(spec_interaction_le(dv0[i], x@));
                lemma_interaction_le_total(x@, dv0[pos as int]);
                if j - 1 > pos {
                    assert(spec_interaction_le(dv0[pos as int], dv0[j - 1]));
                    lemma_interaction_le_trans(x@, dv0[pos as int], dv0[j - 1]);
                }
                lemma_interaction_le_trans(dv0[i], x@, dv0[j - 1]);
            } else if j < pos {
                assert(dv[i] == dv0[i] && dv[j] == dv0[j]);
            } else {
                assert(dv[i] == dv0[i - 1] && dv[j] == dv0[j - 1]);
            }
        }
        assert forall|i: int, j: int| 0 <= i < j < dv.len() implies (#[trigger] dv[i]).person != (
        #[trigger] dv[j]).person by {
            if i == pos {
                assert(dv[j] == dv0[j - 1]);
                assert(spec_has_person(dv0, dv0[j - 1].person));
            } else if j == pos {
                assert(dv[i] == dv0[i]);
                assert(spec_has_person(dv0, dv0[i].person));
            } else {
                let i0 = if i < pos {
                    i
                } else {
                    i - 1
                };
                let j0 = if j < pos {
                    j
                } else {
                    j - 1
                };
                assert(dv[i] == dv0[i0] && dv[j] == dv0[j0]);
            }
        }
        assert forall|p: Seq<char>|
            spec_has_person(dv, p) implies (spec_has_person(dv0, p) || p == x@.person) by {
            let k = choose|k: int| 0 <= k < dv.len() && (#[trigger] dv[k]).person == p;
            if k < pos {
                assert(dv0[k].person == p);
            } else if k > pos {
                assert(dv0[k - 1].person == p);
            }
        }
        assert forall|p: Seq<char>|
            (spec_has_person(dv0, p) || p == x@.person) implies spec_has_person(dv, p) by {
            if p == x@.person {
                assert(dv[pos as int].person == p);
            } else {
                let k = choose|k: int| 0 <= k < dv0.len() && (#[trigger] dv0[k]).person == p;
                if k < pos {
                    assert(dv[k].person == p);
                } else {
                    assert(dv[k + 1].person == p);
                }
            }
        }
        lemma_interaction_at_index(dv, pos as int);
        assert forall|p: Seq<char>|
            p != x@.person && spec_has_person(dv0, p) implies spec_has_person(dv, p)
            && spec_interaction_at(dv, p) == spec_interaction_at(dv0, p) by {
            let k = choose|k: int| 0 <= k < dv0.len() && (#[trigger] dv0[k]).person == p;
            lemma_interaction_at_index(dv0, k);
            if k < pos {
                assert(dv[k].person == p);
                lemma_interaction_at_index(dv, k);
            } else {
                assert(dv[k + 1].person == p);
                lemma_interaction_at_index(dv, k + 1);
            }
        }
    }
}

/// The presentation order is total.
pub proof fn lemma_interaction_le_total(a: SpecInteraction, b: SpecInteraction)
    ensures
        spec_interaction_le(a, b) || spec_interaction_le(b, a),
{
    crate::text::lemma_text_le_total(a.person, b.person);
}

/// The presentation order is transitive.
pub proof fn lemma_interaction_le_trans(a: SpecInteraction, b: SpecInteraction, c: SpecInteraction)
    requires
        spec_interaction_le(a, b),
        spec_interaction_le(b, c),
    ensures
        spec_interaction_le(a, c),
{
    if a.last == b.last && b.last == c.last {
        crate::text::lemma_text_le_trans(a.person, b.person, c.person);
    }
}

/// No text appears twice in `v`.
pub open spec fn spec_names_unique(v: Seq<Seq<char>>) -> bool {
    forall|i: int, j: int| 0 <= i < j < v.len() ==> v[i] != v[j]
}

/// `outd` holds exactly the texts of `base` and of `src`.
pub open spec fn spec_names_extended(
    outd: Seq<Seq<char>>,
    base: Seq<Seq<char>>,
    src: Seq<Seq<char>>,
) -> bool {
    forall|q: Seq<char>|
        #![trigger outd.contains(q)]
        outd.contains(q) <==> (base.contains(q) || src.contains(q))
}

pub proof fn lemma_names_extended(
    outd: Seq<Seq<char>>,
    base: Seq<Seq<char>>,
    src: Seq<Seq<char>>,
    q: Seq<char>,
)
    requires
        spec_names_extended(outd, base, src),
    ensures
        outd.contains(q) <==> (base.contains(q) || src.contains(q)),
{
    assert(outd.contains(q) <==> (base.contains(q) || src.contains(q)));
}

/// Appends to `out` the strings of `src` that are not yet in `out`.
fn add_new_names(src: &Vec<String>, out: &mut Vec<String>)
    requires
        spec_names_unique(old(out).deep_view()),
    ensures
        spec_names_extended(final(out).deep_view(), old(out).deep_view(), src.deep_view()),
        spec_names_unique(final(out).deep_view()),
{
    let mut i: usize = 0;
    proof {
        assert(spec_names_extended(
            out.deep_view(),
            old(out).deep_view(),
            src.deep_view().take(0),
        )) by {
            assert(src.deep_view().take(0) =~~= Seq::<Seq<char>>::empty());
            assert forall|q: Seq<char>|
                out.deep_view().contains(q) <==> (old(out).deep_view().contains(q)
                    || src.deep_view().take(0).contains(q)) by {
                if src.deep_view().take(0).contains(q) {
                    let k = choose|k: int|
                        0 <= k < 0 && #[trigger] src.deep_view().take(0)[k] == q;
                }
            }
        }
    }
    while i < src.len()
        invariant
            i <= src@.len(),
            spec_names_extended(out.deep_view(), old(out).deep_view(), src.deep_view().take(
                i as int,
            )),
            spec_names_unique(out.deep_view()),
        decreases src@.len() - i,
    {
        let ghost prev = out.deep_view();
        let ghost iold = i as int;
        proof {
            assert(src.deep_view()[iold] == src@[iold]@);
        }
        if !crate::mention::vec_contains_str(out, src[i].as_str()) {
            out.push(src[i].clone());
            proof {
                assert(out.deep_view() =~~= prev.push(src.deep_view()[iold]));
                assert forall|a: int, b: int|
                    0 <= a < b < out.deep_view().len() implies out.deep_view()[a]
                    != out.deep_view()[b] by {
                    if b == out.deep_view().len() - 1 {
                        assert(prev.contains(prev[a]));
                    }
                }
            }
        }
        proof {
            let sv = src.deep_view();
            assert(spec_names_extended(out.deep_view(), old(out).deep_view(), sv.take(iold + 1)))
                by {
                assert forall|q: Seq<char>|
                    out.deep_view().contains(q) <==> (old(out).deep_view().contains(q)
                        || sv.take(iold + 1).contains(q)) by {
                    lemma_names_extended(prev, old(out).deep_view(), sv.take(iold), q);
                    if out.deep_view().contains(q) && !prev.contains(q) {
                        let k = choose|k: int|
                            0 <= k < out.deep_view().len() && out.deep_view()[k] == q;
                        assert(q == sv[iold]);
                        assert(sv.take(iold + 1)[iold] == q);
                    }
                    if sv.take(iold + 1).contains(q) {
                        let k = choose|k: int|
                            0 <= k < iold + 1 && #[trigger] sv.take(iold + 1)[k] == q;
                        if k < iold {
                            assert(sv.take(iold)[k] == q);
                            assert(sv.take(iold).contains(q));
                            assert(prev.contains(q));
                        } else {
                            assert(q == sv[iold]);
                        }
                        if prev.contains(q) {
                            let m = choose|m: int| 0 <= m < prev.len() && #[trigger] prev[m] == q;
                            assert(out.deep_view()[m] == q);
                        } else {
                            assert(q == sv[iold]);
                            assert(out.deep_view()[prev.len() as int] == q);
                        }
                        assert(out.deep_view().contains(q));
                    }
                    if sv.take(iold).contains(q) {
                        let k = choose|k: int| 0 <= k < iold && #[trigger] sv.take(iold)[k] == q;
                        assert(sv.take(iold + 1)[k] == q);
                        assert(sv.take(iold + 1).contains(q));
                    }
                    if prev.contains(q) {
                        let m = choose|m: int| 0 <= m < prev.len() && #[trigger] prev[m] == q;
                        assert(out.deep_view()[m] == q);
                        assert(out.deep_view().contains(q));
                    }
                }
            }
        }
        i = i + 1;
    }
    proof {
        assert(src.deep_view().take(src@.len() as int) =~~= src.deep_view());
    }
}

/// Whether some entry of the day names `p` on its first line.
fn day_has_main(day: &Day, person: &String) -> (r: bool)
    ensures
        r == spec_main_in_entries(day@.entries, person@),
{
    let mut j: usize = 0;
    while j < day.entries.len()
        invariant
            j <= day.entries@.len(),
            forall|k: int| 0 <= k < j ==> !(#[trigger] day@.entries[k]).main.contains(person@),
        decreases day.entries@.len() - j,
    {
        if crate::mention::vec_contains_str(&day.entries[j].main, person.as_str()) {
            proof {
                assert(day@.entries[j as int].main.contains(person@));
            }
            return true;
        }
        proof {
            assert(day@.entries[j as int] == day.entries@[j as int]@);
        }
        j = j + 1;
    }
    false
}

/// The most recent date under which an entry names `person` on its
/// first line.
fn last_main_date(log: &Log, person: &String) -> (d: Date)
    requires
        spec_main_mentioned(log@, person@),
    ensures
        spec_is_last_main_date(log@, person@, d),
{
    let mut best: Option<Date> = None;
    let mut i: usize = 0;
    while i < log.days.len()
        invariant
            i <= log.days@.len(),
            log@.len() == log.days@.len(),
            (match best {
                Option::None => forall|k: int|
                    0 <= k < i ==> !spec_main_in_entries((#[trigger] log@[k]).entries, person@),
                Option::Some(b) => (exists|k: int|
                    0 <= k < i && (#[trigger] log@[k]).date == b && spec_main_in_entries(
                        log@[k].entries,
                        person@,
                    )) && (forall|k: int|
                    0 <= k < i && spec_main_in_entries((#[trigger] log@[k]).entries, person@)
                        ==> spec_date_le(log@[k].date, b)),
            }),
        decreases log.days@.len() - i,
    {
        proof {
            assert(log@[i as int] == log.days@[i as int]@);
        }
        if day_has_main(&log.days[i], person) {
            match best {
                Some(b) => {
                    if b.is_on_or_before(&log.days[i].date) {
                        best = Some(log.days[i].date);
                    }
                },
                None => {
                    best = Some(log.days[i].date);
                },
            }
        }
        i = i + 1;
    }
    match best {
        Some(b) => b,
        None => {
            proof {
                let k = choose|k: int|
                    0 <= k < log@.len() && spec_main_in_entries(
                        (#[trigger] log@[k]).entries,
                        person@,
                    );
                assert(false);
            }
            Date { year: 2000, month: 1, day: 1 }
        },
    }
}

/// Each person's last interaction: for every person that some entry
/// names on its first line, the most recent such date, in ascending
/// order of date and then of name, with the reminder assessment unset.
pub fn get_last_interactions(log: &Log) -> (r: Vec<LastInteraction>)
    ensures
        spec_unique_persons(r.deep_view()),
        spec_sorted_interactions(r.deep_view()),
        forall|p: Seq<char>|
            spec_has_person(r.deep_view(), p) <==> spec_main_mentioned(log@, p),
        forall|k: int|
            0 <= k < r.deep_view().len() ==> spec_is_last_main_date(
                log@,
                (#[trigger] r.deep_view()[k]).person,
                r.deep_view()[k].last,
            ) && r.deep_view()[k].beyond is None,
{
    // every person with a main mention, in order of first appearance
    let mut persons: Vec<String> = Vec::new();
    let mut i: usize = 0;
    proof {
        assert(persons.deep_view() =~~= Seq::<Seq<char>>::empty());
    }
    while i < log.days.len()
        invariant
            i <= log.days@.len(),
            log@.len() == log.days@.len(),
            forall|q: Seq<char>|
                persons.deep_view().contains(q) <==> spec_main_mentioned(
                    log@.take(i as int),
                    q,
                ),
            forall|a: int, b: int|
                0 <= a < b < persons.deep_view().len() ==> persons.deep_view()[a]
                    != persons.deep_view()[b],
        decreases log.days@.len() - i,
    {
        let day = &log.days[i];
        proof {
            assert(log@[i as int] == log.days@[i as int]@);
        }
        let mut j: usize = 0;
        while j < day.entries.len()
            invariant
                j <= day.entries@.len(),
                i < log.days@.len(),
                log@.len() == log.days@.len(),
                day == &log.days[i as int],
                log@[i as int] == log.days@[i as int]@,
                forall|q: Seq<char>|
                    persons.deep_view().contains(q) <==> (spec_main_mentioned(
                        log@.take(i as int),
                        q,
                    ) || spec_main_in_entries(log@[i as int].entries.take(j as int), q)),
                forall|a: int, b: int|
                    0 <= a < b < persons.deep_view().len() ==> persons.deep_view()[a]
                        != persons.deep_view()[b],
            decreases day.entries@.len() - j,
        {
            let ghost prev = persons.deep_view();
            let entry_main = &day.entries[j].main;
            proof {
                assert(entry_main.deep_view() == day.entries@[j as int].main.deep_view());
            }
            add_new_names(entry_main, &mut persons);
            proof {
                let es = log@[i as int].entries;
                assert(day.entries@[j as int]@ == es[j as int]);
                assert(day.entries@[j as int].main.deep_view() == es[j as int].main);
                assert forall|q: Seq<char>|
                    persons.deep_view().contains(q) <==> (spec_main_mentioned(
                        log@.take(i as int),
                        q,
                    ) || spec_main_in_entries(es.take(j + 1), q)) by {
                    assert(persons.deep_view().contains(q) <==> (prev.contains(q)
                        || day.entries@[j as int].main.deep_view().contains(q)));
                    assert(persons.deep_view().contains(q) <==> (prev.contains(q)
                        || es[j as int].main.contains(q)));
                    assert(prev.contains(q) <==> (spec_main_mentioned(log@.take(i as int), q)
                        || spec_main_in_entries(es.take(j as int), q)));
                    if persons.deep_view().contains(q) {
                        if !prev.contains(q) {
                            assert(es[j as int].main.contains(q));
                            assert(es.take(j + 1)[j as int] == es[j as int]);
                            assert(spec_main_in_entries(es.take(j + 1), q));
                        } else {
                            if spec_main_in_entries(es.take(j as int), q) {
                                let k = choose|k: int|
                                    0 <= k < j && (#[trigger] es.take(j as int)[k]).main.contains(
                                        q,
                                    );
                                assert(es.take(j + 1)[k].main.contains(q));
                                assert(spec_main_in_entries(es.take(j + 1), q));
                            }
                        }
                    }
                    if spec_main_in_entries(es.take(j + 1), q) {
                        let k = choose|k: int|
                            0 <= k < j + 1 && (#[trigger] es.take(j + 1)[k]).main.contains(q);
                        if k < j {
                            assert(es.take(j as int)[k].main.contains(q));
                            assert(spec_main_in_entries(es.take(j as int), q));
                            assert(prev.contains(q));
                        } else {
                            assert(es[j as int].main.contains(q));
                        }
                    }
                    if spec_main_mentioned(log@.take(i as int), q) {
                        assert(prev.contains(q));
                    }
                }
            }
            j = j + 1;
        }
        proof {
            let es = log@[i as int].entries;
            assert(es.take(es.len() as int) =~~= es);
            assert forall|q: Seq<char>|
                persons.deep_view().contains(q) <==> spec_main_mentioned(
                    log@.take(i + 1),
                    q,
                ) by {
                if persons.deep_view().contains(q) {
                    if spec_main_mentioned(log@.take(i as int), q) {
                        let k = choose|k: int|
                            0 <= k < i && spec_main_in_entries(
                                (#[trigger] log@.take(i as int)[k]).entries,
                                q,
                            );
                        assert(log@.take(i + 1)[k] == log@[k]);
                        assert(spec_main_in_entries(log@.take(i + 1)[k].entries, q));
                        assert(spec_main_mentioned(log@.take(i + 1), q));
                    } else {
                        assert(spec_main_in_entries(es, q));
                        assert(log@.take(i + 1)[i as int] == log@[i as int]);
                        assert(spec_main_mentioned(log@.take(i + 1), q));
                    }
                }
                if spec_main_mentioned(log@.take(i + 1), q) {
                    let k = choose|k: int|
                        0 <= k < i + 1 && spec_main_in_entries(
                            (#[trigger] log@.take(i + 1)[k]).entries,
                            q,
                        );
                    if k < i {
                        assert(log@.take(i as int)[k] == log@[k]);
                        assert(spec_main_mentioned(log@.take(i as int), q));
                    } else {
                        assert(spec_main_in_entries(es.take(es.len() as int), q));
                    }
                }
            }
        }
        i = i + 1;
    }
    proof {
        assert(log@.take(log.days@.len() as int) =~~= log@);
    }
    // one interaction per person, in presentation order
    let mut out: Vec<LastInteraction> = Vec::new();
    let mut k: usize = 0;
    proof {
        assert(out.deep_view() =~~= Seq::<SpecInteraction>::empty());
    }
    while k < persons.len()
        invariant
            k <= persons@.len(),
            log@.len() == log.days@.len(),
            forall|q: Seq<char>|
                persons.deep_view().contains(q) <==> spec_main_mentioned(log@, q),
            forall|a: int, b: int|
                0 <= a < b < persons.deep_view().len() ==> persons.deep_view()[a]
                    != persons.deep_view()[b],
            spec_unique_persons(out.deep_view()),
            spec_sorted_interactions(out.deep_view()),
            forall|p: Seq<char>|
                spec_has_person(out.deep_view(), p) <==> persons.deep_view().take(
                    k as int,
                ).contains(p),
            forall|m: int|
                0 <= m < out.deep_view().len() ==> spec_is_last_main_date(
                    log@,
                    (#[trigger] out.deep_view()[m]).person,
                    out.deep_view()[m].last,
                ) && out.deep_view()[m].beyond is None,
        decreases persons@.len() - k,
    {
        proof {
            assert(persons.deep_view()[k as int] == persons@[k as int]@);
            assert(persons.deep_view().contains(persons.deep_view()[k as int]));
        }
        let last = last_main_date(log, &persons[k]);
        let li = LastInteraction {
            person: persons[k].clone(),
            last,
            days_beyond_reachout_threshold: None,
        };
        proof {
            if spec_has_person(out.deep_view(), li@.person) {
                assert(persons.deep_view().take(k as int).contains(persons.deep_view()[k as int]));
                let m = choose|m: int|
                    0 <= m < k && #[trigger] persons.deep_view().take(k as int)[m]
                        == persons.deep_view()[k as int];
                assert(persons.deep_view()[m] == persons.deep_view()[k as int]);
            }
        }
        let ghost prev = out.deep_view();
        insert_interaction_sorted(&mut out, li);
        proof {
            assert forall|p: Seq<char>|
                spec_has_person(out.deep_view(), p) <==> persons.deep_view().take(
                    k + 1,
                ).contains(p) by {
                let pv = persons.deep_view();
                if spec_has_person(out.deep_view(), p) {
                    if p == pv[k as int] {
                        assert(pv.take(k + 1)[k as int] == p);
                    } else {
                        assert(spec_has_person(prev, p));
                        assert(pv.take(k as int).contains(p));
                        let m = choose|m: int|
                            0 <= m < k && #[trigger] pv.take(k as int)[m] == p;
                        assert(pv.take(k + 1)[m] == p);
                    }
                }
                if pv.take(k + 1).contains(p) {
                    let m = choose|m: int| 0 <= m < k + 1 && #[trigger] pv.take(k + 1)[m] == p;
                    if m < k {
                        assert(pv.take(k as int)[m] == p);
                        assert(pv.take(k as int).contains(p));
                        assert(spec_has_person(prev, p));
                    } else {
                        assert(p == pv[k as int]);
                    }
                }
            }
            assert forall|m: int|
                0 <= m < out.deep_view().len() implies spec_is_last_main_date(
                    log@,
                    (#[trigger] out.deep_view()[m]).person,
                    out.deep_view()[m].last,
                ) && out.deep_view()[m].beyond is None by {
                let it = out.deep_view()[m];
                lemma_interaction_at_index(out.deep_view(), m);
                if it.person == li@.person {
                    assert(spec_interaction_at(out.deep_view(), li@.person) == li@);
                    assert(it == li@);
                } else {
                    assert(spec_has_person(out.deep_view(), it.person));
                    assert(spec_has_person(prev, it.person));
                    let m0 = choose|m0: int|
                        0 <= m0 < prev.len() && (#[trigger] prev[m0]).person == it.person;
                    lemma_interaction_at_index(prev, m0);
                    assert(spec_interaction_at(out.deep_view(), it.person) == spec_interaction_at(
                        prev,
                        it.person,
                    ));
                    assert(it == prev[m0]);
                }
            }
        }
        k = k + 1;
    }
    proof {
        assert(persons.deep_view().take(persons@.len() as int) =~~= persons.deep_view());
    }
    out
}

/// Whether some entry of `entries` mentions `p` anywhere.
pub open spec fn spec_related_in_entries(entries: Seq<SpecEntry>, p: Seq<char>) -> bool {
    exists|j: int| 0 <= j < entries.len() && (#[trigger] entries[j]).related.contains(p)
}

/// Whether some entry of some day mentions `p` anywhere.
pub open spec fn spec_related_mentioned(days: Seq<SpecDay>, p: Seq<char>) -> bool {
    exists|i: int| 0 <= i < days.len() && spec_related_in_entries((#[trigger] days[i]).entries, p)
}

/// The entries that mention `p`, in order.
pub open spec fn spec_filter_entries(entries: Seq<SpecEntry>, p: Seq<char>) -> Seq<SpecEntry>
    decreases entries.len(),
{
    if entries.len() == 0 {
        Seq::empty()
    } else {
        let rest = spec_filter_entries(entries.drop_last(), p);
        if entries.last().related.contains(p) {
            rest.push(entries.last())
        } else {
            rest
        }
    }
}

/// The per-person projection of a log: for each day, the entries that
/// mention `p`, keeping only the days where some entry does.
pub open spec fn spec_project(days: Seq<SpecDay>, p: Seq<char>) -> Seq<SpecDay>
    decreases days.len(),
{
    if days.len() == 0 {
        Seq::empty()
    } else {
        let rest = spec_project(days.drop_last(), p);
        let f = spec_filter_entries(days.last().entries, p);
        if f.len() > 0 {
            rest.push(SpecDay { date: days.last().date, entries: f })
        } else {
            rest
        }
    }
}

/// The projection of the days before `i`, extended by the first `j`
/// entries of day `i`.
pub open spec fn spec_project_mid(days: Seq<SpecDay>, p: Seq<char>, i: int, j: int) -> Seq<
    SpecDay,
> {
    if i >= days.len() {
        spec_project(days.take(i), p)
    } else {
        let base = spec_project(days.take(i), p);
        let f = spec_filter_entries(days[i].entries.take(j), p);
        if f.len() > 0 {
            base.push(SpecDay { date: days[i].date, entries: f })
        } else {
            base
        }
    }
}

/// Every projected day carries the date and filtered entries of some
/// source day.
pub proof fn lemma_project_days(days: Seq<SpecDay>, p: Seq<char>)
    ensures
        forall|m: int|
            0 <= m < spec_project(days, p).len() ==> exists|idx: int|
                0 <= idx < days.len() && #[trigger] spec_project(days, p)[m] == (SpecDay {
                    date: days[idx].date,
                    entries: spec_filter_entries(days[idx].entries, p),
                }),
    decreases days.len(),
{
    if days.len() > 0 {
        lemma_project_days(days.drop_last(), p);
        let rest = spec_project(days.drop_last(), p);
        let f = spec_filter_entries(days.last().entries, p);
        assert forall|m: int|
            0 <= m < spec_project(days, p).len() implies exists|idx: int|
                0 <= idx < days.len() && #[trigger] spec_project(days, p)[m] == (SpecDay {
                    date: days[idx].date,
                    entries: spec_filter_entries(days[idx].entries, p),
                }) by {
            if m < rest.len() {
                assert(spec_project(days, p)[m] == rest[m]);
                let idx = choose|idx: int|
                    0 <= idx < days.drop_last().len() && #[trigger] rest[m] == (SpecDay {
                        date: days.drop_last()[idx].date,
                        entries: spec_filter_entries(days.drop_last()[idx].entries, p),
                    });
                assert(days.drop_last()[idx] == days[idx]);
                assert(spec_project(days, p)[m] == (SpecDay {
                    date: days[idx].date,
                    entries: spec_filter_entries(days[idx].entries, p),
                }));
            } else {
                assert(f.len() > 0);
                assert(spec_project(days, p)[m] == (SpecDay {
                    date: days[days.len() - 1].date,
                    entries: spec_filter_entries(days[days.len() - 1].entries, p),
                }));
            }
        }
    }
}

/// A person is projected onto at least one day exactly when some entry
/// mentions them.
pub proof fn lemma_project_nonempty(days: Seq<SpecDay>, p: Seq<char>)
    ensures
        spec_project(days, p).len() > 0 <==> spec_related_mentioned(days, p),
    decreases days.len(),
{
    if days.len() > 0 {
        lemma_project_nonempty(days.drop_last(), p);
        let f = spec_filter_entries(days.last().entries, p);
        lemma_filter_nonempty(days.last().entries, p);
        if spec_project(days, p).len() > 0 {
            if f.len() > 0 {
                assert(spec_related_in_entries(days[days.len() - 1].entries, p));
                assert(spec_related_mentioned(days, p));
            } else {
                assert(spec_related_mentioned(days.drop_last(), p));
                let k = choose|k: int|
                    0 <= k < days.drop_last().len() && spec_related_in_entries(
                        (#[trigger] days.drop_last()[k]).entries,
                        p,
                    );
                assert(days[k] == days.drop_last()[k]);
                assert(spec_related_mentioned(days, p));
            }
        }
        if spec_related_mentioned(days, p) {
            let k = choose|k: int|
                0 <= k < days.len() && spec_related_in_entries((#[trigger] days[k]).entries, p);
            if k < days.len() - 1 {
                assert(days.drop_last()[k] == days[k]);
                assert(spec_related_mentioned(days.drop_last(), p));
            } else {
                assert(f.len() > 0);
            }
        }
    }
}

/// A person's entries are kept exactly when one of them mentions the
/// person.
pub proof fn lemma_filter_nonempty(entries: Seq<SpecEntry>, p: Seq<char>)
    ensures
        spec_filter_entries(entries, p).len() > 0 <==> spec_related_in_entries(entries, p),
    decreases entries.len(),
{
    if entries.len() > 0 {
        lemma_filter_nonempty(entries.drop_last(), p);
        if spec_related_in_entries(entries, p) {
            let k = choose|k: int|
                0 <= k < entries.len() && (#[trigger] entries[k]).related.contains(p);
            if k < entries.len() - 1 {
                assert(entries.drop_last()[k] == entries[k]);
                assert(spec_related_in_entries(entries.drop_last(), p));
            }
        }
        if spec_related_in_entries(entries.drop_last(), p) {
            let k = choose|k: int|
                0 <= k < entries.drop_last().len() && (#[trigger] entries.drop_last()[k]).related.contains(
                    p,
                );
            assert(entries[k].related.contains(p));
            assert(spec_related_in_entries(entries, p));
        }
    }
}

/// A person's projected log, or the deletion marker (`None`) for an
/// ignored person.
#[derive(Clone, Debug, PartialEq, Eq)]
pub struct PersonLog {
    pub person: String,
    pub log: Option<Log>,
}

/// The mathematical content of a person's projection.
#[verifier::ext_equal]
pub struct SpecPersonLog {
    pub person: Seq<char>,
    pub log: Option<Seq<SpecDay>>,
}

impl View for PersonLog {
    type V = SpecPersonLog;

    open spec fn view(&self) -> SpecPersonLog {
        SpecPersonLog {
            person: self.person@,
            log: (match self.log {
                Option::Some(ref l) => Option::Some(l@),
                Option::None => Option::None,
            }),
        }
    }
}

impl DeepView for PersonLog {
    type V = SpecPersonLog;

    open spec fn deep_view(&self) -> SpecPersonLog {
        self@
    }
}

/// Whether some projection of `s` belongs to the person `p`.
pub open spec fn spec_has_plog(s: Seq<SpecPersonLog>, p: Seq<char>) -> bool {
    exists|k: int| 0 <= k < s.len() && (#[trigger] s[k]).person == p
}

/// The projection of the person `p`.
pub open spec fn spec_plog_at(s: Seq<SpecPersonLog>, p: Seq<char>) -> SpecPersonLog {
    s[choose|k: int| 0 <= k < s.len() && (#[trigger] s[k]).person == p]
}

/// At most one projection per person.
pub open spec fn spec_unique_plogs(s: Seq<SpecPersonLog>) -> bool {
    forall|i: int, j: int|
        0 <= i < j < s.len() ==> (#[trigger] s[i]).person != (#[trigger] s[j]).person
}

/// With unique persons, a projection found at any index is the
/// projection of its person.
pub proof fn lemma_plog_at_index(s: Seq<SpecPersonLog>, i: int)
    requires
        spec_unique_plogs(s),
        0 <= i < s.len(),
    ensures
        spec_has_plog(s, s[i].person),
        spec_plog_at(s, s[i].person) == s[i],
{
    let p = s[i].person;
    assert(spec_has_plog(s, p));
    let j = choose|j: int| 0 <= j < s.len() && (#[trigger] s[j]).person == p;
    if j != i {
        if j < i {
            assert(s[j].person != s[i].person);
        } else {
            assert(s[i].person != s[j].person);
        }
    }
}

/// Sets the person's projection, adding it if absent, and touching no
/// other person's.
fn set_plog(acc: &mut Vec<PersonLog>, person: &String, log: Option<Log>)
    requires
        spec_unique_plogs(old(acc).deep_view()),
    ensures
        spec_unique_plogs(final(acc).deep_view()),
        forall|p: Seq<char>|
            spec_has_plog(final(acc).deep_view(), p) <==> (spec_has_plog(
                old(acc).deep_view(),
                p,
            ) || p == person@),
        spec_plog_at(final(acc).deep_view(), person@).person == person@,
        spec_plog_at(final(acc).deep_view(), person@).log == (match log {
            Option::Some(ref l) => Option::Some(l@),
            Option::None => Option::<Seq<SpecDay>>::None,
        }),
        forall|p: Seq<char>|
            p != person@ && spec_has_plog(old(acc).deep_view(), p) ==> spec_has_plog(
                final(acc).deep_view(),
                p,
            ) && spec_plog_at(final(acc).deep_view(), p) == spec_plog_at(
                old(acc).deep_view(),
                p,
            ),
{
    let ghost dv0 = acc.deep_view();
    let ghost newv = (match log {
        Option::Some(ref l) => Option::Some(l@),
        Option::None => Option::<Seq<SpecDay>>::None,
    });
    let mut idx: usize = 0;
    let mut found = false;
    while !found && idx < acc.len()
        invariant
            idx <= acc@.len(),
            dv0 == acc.deep_view(),
            forall|k: int| 0 <= k < idx ==> (#[trigger] dv0[k]).person != person@,
            found ==> idx < acc@.len() && dv0[idx as int].person == person@,
        decreases acc@.len() - idx, (if found {
            0int
        } else {
            1int
        }),
    {
        proof {
            assert(dv0[idx as int] == acc.deep_view()[idx as int]);
        }
        if crate::mention::str_eq(acc[idx].person.as_str(), person.as_str()) {
            found = true;
        } else {
            idx = idx + 1;
        }
    }
    let entry = PersonLog { person: person.clone(), log };
    if found {
        acc.set(idx, entry);
        proof {
            let dv = acc.deep_view();
            assert(dv =~~= dv0.update(idx as int, (SpecPersonLog { person: person@, log: newv })));
        }
    } else {
        acc.push(entry);
    }
    proof {
        let dv = acc.deep_view();
        if found {
            assert(forall|k: int| 0 <= k < dv.len() && k != idx ==> dv[k] == dv0[k]);
            assert(dv[idx as int].person == person@);
            assert(dv[idx as int].log == newv);
        } else {
            assert(dv =~~= dv0.push(dv[dv0.len() as int]));
            assert(dv[dv0.len() as int].person == person@);
            assert(dv[dv0.len() as int].log == newv);
            assert(forall|k: int| 0 <= k < dv0.len() ==> dv[k] == dv0[k]);
        }
        assert forall|i: int, j: int| 0 <= i < j < dv.len() implies (#[trigger] dv[i]).person != (
        #[trigger] dv[j]).person by {
            if found {
                if i != idx && j != idx {
                    assert(dv[i] == dv0[i] && dv[j] == dv0[j]);
                } else if i == idx {
                    assert(dv[j] == dv0[j]);
                } else {
                    assert(dv[i] == dv0[i]);
                }
            } else {
                if j == dv.len() - 1 {
                    assert(dv[i] == dv0[i]);
                    assert(spec_has_plog(dv0, dv0[i].person));
                } else {
                    assert(dv[i] == dv0[i] && dv[j] == dv0[j]);
                }
            }
        }
        assert forall|p: Seq<char>|
            spec_has_plog(dv, p) implies (spec_has_plog(dv0, p) || p == person@) by {
            let k = choose|k: int| 0 <= k < dv.len() && (#[trigger] dv[k]).person == p;
            if found {
                if k != idx {
                    assert(dv0[k].person == p);
                }
            } else {
                if k < dv0.len() {
                    assert(dv0[k].person == p);
                }
            }
        }
        assert forall|p: Seq<char>|
            (spec_has_plog(dv0, p) || p == person@) implies spec_has_plog(dv, p) by {
            if p == person@ {
                if found {
                    assert(dv[idx as int].person == p);
                } else {
                    assert(dv[dv0.len() as int].person == p);
                }
            } else {
                let k = choose|k: int| 0 <= k < dv0.len() && (#[trigger] dv0[k]).person == p;
                if found {
                    if k != idx {
                        assert(dv[k].person == p);
                    } else {
                        assert(dv0[idx as int].person == person@);
                    }
                } else {
                    assert(dv[k].person == p);
                }
            }
        }
        if found {
            lemma_plog_at_index(dv, idx as int);
        } else {
            lemma_plog_at_index(dv, dv0.len() as int);
        }
        assert forall|p: Seq<char>|
            p != person@ && spec_has_plog(dv0, p) implies spec_has_plog(dv, p) && spec_plog_at(
                dv,
                p,
            ) == spec_plog_at(dv0, p) by {
            let k = choose|k: int| 0 <= k < dv0.len() && (#[trigger] dv0[k]).person == p;
            lemma_plog_at_index(dv0, k);
            if found && k == idx {
                assert(dv0[idx as int].person == person@);
            }
            assert(dv[k] == dv0[k]);
            lemma_plog_at_index(dv, k);
        }
    }
}

/// Whether `p` is mentioned anywhere in the first `i` days, or in the
/// first `j` entries of day `i`.
pub open spec fn spec_related_upto(days: Seq<SpecDay>, p: Seq<char>, i: int, j: int) -> bool {
    spec_related_mentioned(days.take(i), p) || (i < days.len() && spec_related_in_entries(
        days[i].entries.take(j),
        p,
    ))
}

/// The projection of the region up to day `i`, entry `j`, counting entry
/// `j` itself only for the persons of `rel_done`.
pub open spec fn spec_proj_eff(
    days: Seq<SpecDay>,
    p: Seq<char>,
    i: int,
    j: int,
    rel_done: Seq<Seq<char>>,
) -> Seq<SpecDay> {
    if rel_done.contains(p) {
        spec_project_mid(days, p, i, j + 1)
    } else {
        spec_project_mid(days, p, i, j)
    }
}

/// The mid-projection state of the per-person split: a person has a
/// projection exactly when mentioned in the processed region, an
/// ignored person's is the deletion marker, and any other's is the
/// projection of the region.
pub open spec fn spec_split_state(
    accd: Seq<SpecPersonLog>,
    days: Seq<SpecDay>,
    ignore: Seq<Seq<char>>,
    i: int,
    j: int,
    rel_done: Seq<Seq<char>>,
) -> bool {
    forall|p: Seq<char>|
        #![trigger spec_has_plog(accd, p)]
        (spec_has_plog(accd, p) <==> (spec_related_upto(days, p, i, j) || rel_done.contains(p)))
            && (spec_has_plog(accd, p) ==> (if ignore.contains(p) {
            spec_plog_at(accd, p).log is None
        } else {
            spec_plog_at(accd, p).log == Option::Some(spec_proj_eff(days, p, i, j, rel_done))
        }))
}

pub proof fn lemma_split_state(
    accd: Seq<SpecPersonLog>,
    days: Seq<SpecDay>,
    ignore: Seq<Seq<char>>,
    i: int,
    j: int,
    rel_done: Seq<Seq<char>>,
    p: Seq<char>,
)
    requires
        spec_split_state(accd, days, ignore, i, j, rel_done),
    ensures
        spec_has_plog(accd, p) <==> (spec_related_upto(days, p, i, j) || rel_done.contains(p)),
        spec_has_plog(accd, p) && ignore.contains(p) ==> spec_plog_at(accd, p).log is None,
        spec_has_plog(accd, p) && !ignore.contains(p) ==> spec_plog_at(accd, p).log
            == Option::Some(spec_proj_eff(days, p, i, j, rel_done)),
{
    assert(spec_has_plog(accd, p) <==> (spec_related_upto(days, p, i, j) || rel_done.contains(
        p,
    )));
}

/// Closing one entry: counting its whole mention list is the same as
/// standing before the next entry with none counted.
pub proof fn lemma_split_state_entry_done(
    accd: Seq<SpecPersonLog>,
    days: Seq<SpecDay>,
    ignore: Seq<Seq<char>>,
    i: int,
    j: int,
)
    requires
        0 <= i < days.len(),
        0 <= j < days[i].entries.len(),
        spec_split_state(accd, days, ignore, i, j, days[i].entries[j].related),
    ensures
        spec_split_state(accd, days, ignore, i, j + 1, Seq::empty()),
{
    let rel = days[i].entries[j].related;
    let es = days[i].entries;
    assert forall|p: Seq<char>|
        (spec_has_plog(accd, p) <==> (spec_related_upto(days, p, i, j + 1)
            || Seq::<Seq<char>>::empty().contains(p))) && (spec_has_plog(accd, p) ==> (
        if ignore.contains(p) {
            spec_plog_at(accd, p).log is None
        } else {
            spec_plog_at(accd, p).log == Option::Some(
                spec_proj_eff(days, p, i, j + 1, Seq::empty()),
            )
        })) by {
        lemma_split_state(accd, days, ignore, i, j, rel, p);
        assert(es.take(j + 1).drop_last() =~= es.take(j));
        assert(es.take(j + 1).last() == es[j]);
        // membership carries over
        if spec_related_upto(days, p, i, j) || rel.contains(p) {
            if rel.contains(p) {
                assert(es.take(j + 1)[j] == es[j]);
                assert(spec_related_in_entries(es.take(j + 1), p));
            } else if i < days.len() && spec_related_in_entries(es.take(j), p) {
                let k = choose|k: int|
                    0 <= k < j && (#[trigger] es.take(j)[k]).related.contains(p);
                assert(es.take(j + 1)[k].related.contains(p));
                assert(spec_related_in_entries(es.take(j + 1), p));
            }
            assert(spec_related_upto(days, p, i, j + 1));
        }
        if spec_related_upto(days, p, i, j + 1) && !spec_related_mentioned(days.take(i), p) {
            assert(spec_related_in_entries(es.take(j + 1), p));
            let k = choose|k: int|
                0 <= k < j + 1 && (#[trigger] es.take(j + 1)[k]).related.contains(p);
            if k < j {
                assert(es.take(j)[k].related.contains(p));
                assert(spec_related_in_entries(es.take(j), p));
            } else {
                assert(rel.contains(p));
            }
        }
        // values carry over
        if spec_has_plog(accd, p) && !ignore.contains(p) {
            if rel.contains(p) {
                assert(spec_proj_eff(days, p, i, j, rel) == spec_project_mid(days, p, i, j + 1));
            } else {
                assert(spec_filter_entries(es.take(j + 1), p) == spec_filter_entries(
                    es.take(j),
                    p,
                ));
                assert(spec_proj_eff(days, p, i, j, rel) == spec_project_mid(days, p, i, j + 1));
            }
            assert(spec_proj_eff(days, p, i, j + 1, Seq::empty()) == spec_project_mid(
                days,
                p,
                i,
                j + 1,
            ));
        }
    }
}

/// Closing one day: standing past its last entry is the same as
/// standing before the next day.
pub proof fn lemma_split_state_day_done(
    accd: Seq<SpecPersonLog>,
    days: Seq<SpecDay>,
    ignore: Seq<Seq<char>>,
    i: int,
)
    requires
        0 <= i < days.len(),
        spec_split_state(accd, days, ignore, i, days[i].entries.len() as int, Seq::empty()),
    ensures
        spec_split_state(accd, days, ignore, i + 1, 0, Seq::empty()),
{
    let es = days[i].entries;
    assert forall|p: Seq<char>|
        (spec_has_plog(accd, p) <==> (spec_related_upto(days, p, i + 1, 0)
            || Seq::<Seq<char>>::empty().contains(p))) && (spec_has_plog(accd, p) ==> (
        if ignore.contains(p) {
            spec_plog_at(accd, p).log is None
        } else {
            spec_plog_at(accd, p).log == Option::Some(
                spec_proj_eff(days, p, i + 1, 0, Seq::empty()),
            )
        })) by {
        lemma_split_state(accd, days, ignore, i, es.len() as int, Seq::empty(), p);
        assert(es.take(es.len() as int) =~= es);
        assert(days.take(i + 1).drop_last() =~= days.take(i));
        assert(days.take(i + 1).last() == days[i]);
        // membership
        if spec_related_upto(days, p, i, es.len() as int) {
            if spec_related_mentioned(days.take(i), p) {
                let k = choose|k: int|
                    0 <= k < i && spec_related_in_entries(
                        (#[trigger] days.take(i)[k]).entries,
                        p,
                    );
                assert(days.take(i + 1)[k] == days[k]);
                assert(spec_related_in_entries(days.take(i + 1)[k].entries, p));
                assert(spec_related_mentioned(days.take(i + 1), p));
            } else {
                assert(spec_related_in_entries(es, p));
                assert(days.take(i + 1)[i] == days[i]);
                assert(spec_related_mentioned(days.take(i + 1), p));
            }
            assert(spec_related_upto(days, p, i + 1, 0));
        }
        if spec_related_upto(days, p, i + 1, 0) {
            if spec_related_mentioned(days.take(i + 1), p) {
                let k = choose|k: int|
                    0 <= k < i + 1 && spec_related_in_entries(
                        (#[trigger] days.take(i + 1)[k]).entries,
                        p,
                    );
                if k < i {
                    assert(days.take(i)[k] == days[k]);
                    assert(spec_related_mentioned(days.take(i), p));
                } else {
                    assert(spec_related_in_entries(es.take(es.len() as int), p));
                }
                assert(spec_related_upto(days, p, i, es.len() as int));
            } else {
                assert((i + 1 < days.len() && spec_related_in_entries(
                    days[i + 1].entries.take(0),
                    p,
                )) == false);
            }
        }
        // values
        if spec_has_plog(accd, p) && !ignore.contains(p) {
            assert(spec_project(days.take(i + 1), p) == spec_project_mid(
                days,
                p,
                i,
                es.len() as int,
            ));
            assert(spec_project_mid(days, p, i + 1, 0) == spec_project(days.take(i + 1), p)) by {
                if i + 1 < days.len() {
                    assert(spec_filter_entries(days[i + 1].entries.take(0), p)
                        =~= Seq::<SpecEntry>::empty());
                }
            }
        }
    }
}

/// Looks up the projection of `person`.
fn find_plog(acc: &Vec<PersonLog>, person: &str) -> (r: Option<usize>)
    ensures
        (match r {
            Some(ix) => ix < acc@.len() && acc.deep_view()[ix as int].person == person@
                && spec_has_plog(acc.deep_view(), person@),
            None => !spec_has_plog(acc.deep_view(), person@),
        }),
{
    let mut ix: usize = 0;
    while ix < acc.len()
        invariant
            ix <= acc@.len(),
            forall|k: int| 0 <= k < ix ==> (#[trigger] acc.deep_view()[k]).person != person@,
        decreases acc@.len() - ix,
    {
        if crate::mention::str_eq(acc[ix].person.as_str(), person) {
            proof {
                assert(acc.deep_view()[ix as int].person == person@);
            }
            return Some(ix);
        }
        proof {
            assert(acc.deep_view()[ix as int] == acc@[ix as int]@);
        }
        ix = ix + 1;
    }
    None
}

/// A log of one day holding one entry.
fn singleton_log(date: Date, entry: Entry) -> (r: Log)
    ensures
        r@ == seq![(SpecDay { date: date, entries: seq![entry@] })],
{
    let ghost ev = entry@;
    let mut entries: Vec<Entry> = Vec::new();
    entries.push(entry);
    let day = Day { date, entries };
    let mut days: Vec<Day> = Vec::new();
    days.push(day);
    let l = Log { days };
    proof {
        assert(l@ =~~= seq![(SpecDay { date: date, entries: seq![ev] })]);
    }
    l
}

/// `l` with `entry` appended to its final day.
fn log_with_appended_entry(l: &Log, entry: Entry) -> (r: Log)
    requires
        l@.len() > 0,
    ensures
        r@ == l@.drop_last().push(
            (SpecDay { date: l@.last().date, entries: l@.last().entries.push(entry@) }),
        ),
{
    let ghost ev = entry@;
    let mut days2: Vec<Day> = Vec::new();
    let lastix = l.days.len() - 1;
    let mut m: usize = 0;
    while m < lastix
        invariant
            m <= lastix,
            lastix == l.days@.len() - 1,
            days2.deep_view() =~~= l@.take(m as int),
        decreases lastix - m,
    {
        let ghost prev = days2.deep_view();
        days2.push(l.days[m].duplicate());
        proof {
            assert(days2.deep_view() =~~= prev.push(l@[m as int]));
            assert(days2.deep_view() =~~= l@.take(m + 1));
        }
        m = m + 1;
    }
    let last = &l.days[lastix];
    let mut es2 = clone_entry_vec(&last.entries);
    es2.push(entry);
    let ghost prev = days2.deep_view();
    days2.push(Day { date: last.date, entries: es2 });
    let r = Log { days: days2 };
    proof {
        assert(l@.take(lastix as int) =~= l@.drop_last());
        assert(r@ =~~= l@.drop_last().push(
            (SpecDay { date: l@.last().date, entries: l@.last().entries.push(ev) }),
        ));
    }
    r
}

/// `l` with a new final day holding one entry.
fn log_with_new_day(l: &Log, date: Date, entry: Entry) -> (r: Log)
    ensures
        r@ == l@.push((SpecDay { date: date, entries: seq![entry@] })),
{
    let ghost ev = entry@;
    let mut days2: Vec<Day> = Vec::new();
    let mut m: usize = 0;
    while m < l.days.len()
        invariant
            m <= l.days@.len(),
            days2.deep_view() =~~= l@.take(m as int),
        decreases l.days@.len() - m,
    {
        let ghost prev = days2.deep_view();
        days2.push(l.days[m].duplicate());
        proof {
            assert(days2.deep_view() =~~= prev.push(l@[m as int]));
            assert(days2.deep_view() =~~= l@.take(m + 1));
        }
        m = m + 1;
    }
    let mut entries: Vec<Entry> = Vec::new();
    entries.push(entry);
    let ghost prev = days2.deep_view();
    days2.push(Day { date, entries });
    let r = Log { days: days2 };
    proof {
        assert(l@.take(l.days@.len() as int) =~= l@);
        assert(r@ =~~= l@.push((SpecDay { date: date, entries: seq![ev] })));
    }
    r
}

/// A chain of strictly ascending neighbours is strictly ascending
/// throughout.
proof fn lemma_adjacent_ascending(days: Seq<SpecDay>, i: int, j: int)
    requires
        forall|k: int|
            1 <= k < days.len() ==> spec_date_lt(
                (#[trigger] days[k - 1]).date,
                (#[trigger] days[k]).date,
            ),
        0 <= i < j < days.len(),
    ensures
        spec_date_lt(days[i].date, days[j].date),
    decreases j - i,
{
    assert(spec_date_lt(days[j - 1].date, days[j].date));
    if j > i + 1 {
        lemma_adjacent_ascending(days, i, j - 1);
    }
}

/// Whether the log's days stand in strictly ascending date order, as
/// every merged log's do; the per-person split asks for this.
pub fn dates_sorted_and_unique(log: &Log) -> (r: bool)
    ensures
        r == (spec_sorted_by_date(log@) && spec_unique_dates(log@)),
{
    let mut i: usize = 1;
    while i < log.days.len()
        invariant
            1 <= i,
            log@.len() == log.days@.len(),
            forall|k: int|
                1 <= k < i ==> spec_date_lt(
                    (#[trigger] log@[k - 1]).date,
                    (#[trigger] log@[k]).date,
                ),
        decreases log.days@.len() - i,
    {
        let prev = &log.days[i - 1];
        let here = &log.days[i];
        proof {
            assert(log@[i - 1] == log.days@[i - 1]@);
            assert(log@[i as int] == log.days@[i as int]@);
        }
        if !(prev.date.is_on_or_before(&here.date) && prev.date != here.date) {
            proof {
                if spec_sorted_by_date(log@) && spec_unique_dates(log@) {
                    assert(spec_date_le(log@[i - 1].date, log@[i as int].date));
                    assert(log@[i - 1].date != log@[i as int].date);
                    assert(false);
                }
            }
            return false;
        }
        i = i + 1;
    }
    proof {
        assert forall|a: int, b: int| 0 <= a < b < log@.len() implies spec_date_le(
            (#[trigger] log@[a]).date,
            (#[trigger] log@[b]).date,
        ) && log@[a].date != log@[b].date by {
            lemma_adjacent_ascending(log@, a, b);
        }
    }
    true
}

/// Splits an aggregate log into one log per mentioned person.  A person
/// of the ignore list gets the deletion marker instead, however often
/// they are mentioned; every other mentioned person gets the projection
/// of the log onto the entries that mention them.
#[verifier::rlimit(60)]
pub fn split_log_per_person(log: Log, config: &Config) -> (r: Vec<PersonLog>)
    requires
        spec_unique_dates(log@),
        spec_sorted_by_date(log@),
    ensures
        spec_unique_plogs(r.deep_view()),
        forall|p: Seq<char>|
            spec_has_plog(r.deep_view(), p) <==> spec_related_mentioned(log@, p),
        forall|p: Seq<char>|
            spec_has_plog(r.deep_view(), p) && config@.ignore.contains(p) ==> spec_plog_at(
                r.deep_view(),
                p,
            ).log is None,
        forall|p: Seq<char>|
            spec_has_plog(r.deep_view(), p) && !config@.ignore.contains(p) ==> spec_plog_at(
                r.deep_view(),
                p,
            ).log == Option::Some(spec_project(log@, p)),
{
    let ghost days = log@;
    let ghost ign = config@.ignore;
    let mut acc: Vec<PersonLog> = Vec::new();
    proof {
        assert(acc.deep_view() =~~= Seq::<SpecPersonLog>::empty());
        assert(spec_split_state(acc.deep_view(), days, ign, 0, 0, Seq::empty())) by {
            assert forall|p: Seq<char>|
                !(spec_related_upto(days, p, 0, 0) || Seq::<Seq<char>>::empty().contains(
                    p,
                )) by {
                assert(days.take(0) =~= Seq::<SpecDay>::empty());
                if 0 < days.len() {
                    assert(days[0].entries.take(0) =~= Seq::<SpecEntry>::empty());
                }
            }
        }
    }
    let mut i: usize = 0;
    while i < log.days.len()
        invariant
            i <= log.days@.len(),
            days == log@,
            days.len() == log.days@.len(),
            spec_unique_dates(days),
            spec_sorted_by_date(days),
            ign == config@.ignore,
            spec_unique_plogs(acc.deep_view()),
            spec_split_state(acc.deep_view(), days, ign, i as int, 0, Seq::empty()),
        decreases log.days@.len() - i,
    {
        let ghost iold = i as int;
        let day_date = log.days[i].date;
        proof {
            assert(days[iold] == log.days@[iold]@);
        }
        let mut j: usize = 0;
        while j < log.days[i].entries.len()
            invariant
                j <= log.days@[iold].entries@.len(),
                i < log.days@.len(),
                iold == i as int,
                days == log@,
                days.len() == log.days@.len(),
                days[iold] == log.days@[iold]@,
                days[iold].entries.len() == log.days@[iold].entries@.len(),
                day_date == days[iold].date,
                spec_unique_dates(days),
                spec_sorted_by_date(days),
                ign == config@.ignore,
                spec_unique_plogs(acc.deep_view()),
                spec_split_state(acc.deep_view(), days, ign, iold, j as int, Seq::empty()),
            decreases log.days@[iold].entries@.len() - j,
        {
            let ghost jold = j as int;
            let ghost rel = days[iold].entries[jold].related;
            proof {
                assert(days[iold].entries[jold] == log.days@[iold].entries@[jold]@);
                assert(log.days@[iold].entries@[jold].related.deep_view() == rel);
            }
            let mut handled: Vec<String> = Vec::new();
            let mut k: usize = 0;
            proof {
                assert(handled.deep_view() =~~= rel.take(0));
                assert(spec_split_state(acc.deep_view(), days, ign, iold, jold, rel.take(0)))
                    by {
                    assert forall|p: Seq<char>| !rel.take(0).contains(p) by {
                        if rel.take(0).contains(p) {
                            let m = choose|m: int| 0 <= m < 0 && #[trigger] rel.take(0)[m] == p;
                        }
                    }
                    assert forall|p: Seq<char>|
                        spec_proj_eff(days, p, iold, jold, Seq::empty()) == spec_proj_eff(
                            days,
                            p,
                            iold,
                            jold,
                            rel.take(0),
                        ) by {
                        if rel.take(0).contains(p) {
                            let m = choose|m: int| 0 <= m < 0 && #[trigger] rel.take(0)[m] == p;
                        }
                    }
                    assert forall|p: Seq<char>|
                        #![trigger spec_has_plog(acc.deep_view(), p)]
                        (spec_has_plog(acc.deep_view(), p) <==> (spec_related_upto(
                            days,
                            p,
                            iold,
                            jold,
                        ) || rel.take(0).contains(p))) && (spec_has_plog(acc.deep_view(), p)
                            ==> (if ign.contains(p) {
                            spec_plog_at(acc.deep_view(), p).log is None
                        } else {
                            spec_plog_at(acc.deep_view(), p).log == Option::Some(
                                spec_proj_eff(days, p, iold, jold, rel.take(0)),
                            )
                        })) by {
                        lemma_split_state(acc.deep_view(), days, ign, iold, jold, Seq::empty(), p);
                    }
                }
            }
            while k < log.days[i].entries[j].related.len()
                invariant
                    k <= rel.len(),
                    i < log.days@.len(),
                    j < log.days@[iold].entries@.len(),
                    iold == i as int,
                    jold == j as int,
                    days == log@,
                    days.len() == log.days@.len(),
                    days[iold] == log.days@[iold]@,
                    days[iold].entries[jold] == log.days@[iold].entries@[jold]@,
                    rel == days[iold].entries[jold].related,
                    rel.len() == log.days@[iold].entries@[jold].related@.len(),
                    day_date == days[iold].date,
                    spec_unique_dates(days),
                    spec_sorted_by_date(days),
                    ign == config@.ignore,
                    handled.deep_view() == rel.take(k as int),
                    spec_unique_plogs(acc.deep_view()),
                    spec_split_state(acc.deep_view(), days, ign, iold, jold, rel.take(k as int)),
                decreases rel.len() - k,
            {
                let ghost kold = k as int;
                let ghost accd0 = acc.deep_view();
                let entry_ref = &log.days[i].entries[j];
                let pstr = &entry_ref.related[k];
                let ghost pk = rel[kold];
                proof {
                    assert(entry_ref.related@[kold]@ == rel[kold]);
                    assert(rel.take(kold + 1).drop_last() =~= rel.take(kold));
                    assert(rel.take(kold + 1).last() == rel[kold]);
                }
                let already = crate::mention::vec_contains_str(&handled, pstr.as_str());
                if already {
                    proof {
                        assert(rel.take(kold).contains(pk));
                        assert(spec_split_state(accd0, days, ign, iold, jold, rel.take(kold + 1)))
                            by {
                            assert forall|p: Seq<char>|
                                rel.take(kold + 1).contains(p) <==> rel.take(kold).contains(
                                    p,
                                ) by {
                                if rel.take(kold + 1).contains(p) {
                                    let m = choose|m: int|
                                        0 <= m < kold + 1 && #[trigger] rel.take(kold + 1)[m]
                                            == p;
                                    if m < kold {
                                        assert(rel.take(kold)[m] == p);
                                    } else {
                                        assert(p == pk);
                                    }
                                }
                                if rel.take(kold).contains(p) {
                                    let m = choose|m: int|
                                        0 <= m < kold && #[trigger] rel.take(kold)[m] == p;
                                    assert(rel.take(kold + 1)[m] == p);
                                }
                            }
                            assert forall|p: Seq<char>|
                                #![trigger spec_has_plog(accd0, p)]
                                (spec_has_plog(accd0, p) <==> (spec_related_upto(
                                    days,
                                    p,
                                    iold,
                                    jold,
                                ) || rel.take(kold + 1).contains(p))) && (spec_has_plog(accd0, p)
                                    ==> (if ign.contains(p) {
                                    spec_plog_at(accd0, p).log is None
                                } else {
                                    spec_plog_at(accd0, p).log == Option::Some(
                                        spec_proj_eff(days, p, iold, jold, rel.take(kold + 1)),
                                    )
                                })) by {
                                lemma_split_state(accd0, days, ign, iold, jold, rel.take(kold), p);
                            }
                        }
                    }
                } else {
                    let ignored = crate::mention::vec_contains_str(&config.ignore, pstr.as_str());
                    let ghost eff_new = spec_proj_eff(days, pk, iold, jold, rel.take(kold + 1));
                    proof {
                        lemma_split_state(accd0, days, ign, iold, jold, rel.take(kold), pk);
                        assert(!rel.take(kold).contains(pk));
                        assert(rel.take(kold + 1).contains(pk)) by {
                            assert(rel.take(kold + 1)[kold] == pk);
                        }
                        assert(eff_new == spec_project_mid(days, pk, iold, jold + 1));
                    }
                    if ignored {
                        set_plog(&mut acc, pstr, None);
                    } else {
                        // extend this person's projection with the entry
                        let ghost base = spec_project(days.take(iold), pk);
                        let ghost f = spec_filter_entries(
                            days[iold].entries.take(jold),
                            pk,
                        );
                        proof {
                            let esj = days[iold].entries;
                            assert(esj.take(jold + 1).drop_last() =~= esj.take(jold));
                            assert(esj.take(jold + 1).last() == esj[jold]);
                            assert(esj[jold].related.contains(pk)) by {
                                assert(rel[kold] == pk);
                            }
                            assert(spec_filter_entries(esj.take(jold + 1), pk) == f.push(
                                esj[jold],
                            ));
                        }
                        match find_plog(&acc, pstr.as_str()) {
                            None => {
                                proof {
                                    assert(!spec_related_upto(days, pk, iold, jold));
                                    assert(base.len() == 0) by {
                                        lemma_project_nonempty(days.take(iold), pk);
                                    }
                                    assert(f.len() == 0) by {
                                        lemma_filter_nonempty(days[iold].entries.take(jold), pk);
                                    }
                                    assert(eff_new =~~= seq![
                                        (SpecDay {
                                            date: days[iold].date,
                                            entries: seq![days[iold].entries[jold]],
                                        }),
                                    ]);
                                }
                                let fresh = singleton_log(day_date, entry_ref.duplicate());
                                set_plog(&mut acc, pstr, Some(fresh));
                            },
                            Some(ix) => {
                                proof {
                                    assert(acc.deep_view()[ix as int].person == pk);
                                    lemma_plog_at_index(acc.deep_view(), ix as int);
                                    assert(spec_plog_at(accd0, pk).log == Option::Some(
                                        spec_proj_eff(days, pk, iold, jold, rel.take(kold)),
                                    ));
                                    assert(spec_proj_eff(days, pk, iold, jold, rel.take(kold))
                                        == spec_project_mid(days, pk, iold, jold));
                                }
                                let cur: &Log = match &acc[ix].log {
                                    Some(l) => l,
                                    None => {
                                        proof {
                                            assert(false);
                                        }
                                        &log
                                    },
                                };
                                proof {
                                    assert(cur@ == spec_project_mid(days, pk, iold, jold));
                                    assert(cur@.len() > 0) by {
                                        lemma_project_nonempty(days.take(iold), pk);
                                        lemma_filter_nonempty(days[iold].entries.take(jold), pk);
                                    }
                                    // the dates of the base projection lie strictly
                                    // before this day's date
                                    lemma_project_days(days.take(iold), pk);
                                    assert forall|m: int|
                                        0 <= m < base.len() implies spec_date_lt(
                                        (#[trigger] base[m]).date,
                                        days[iold].date,
                                    ) by {
                                        let idx = choose|idx: int|
                                            0 <= idx < days.take(iold).len() && #[trigger] base[m]
                                                == (SpecDay {
                                                date: days.take(iold)[idx].date,
                                                entries: spec_filter_entries(
                                                    days.take(iold)[idx].entries,
                                                    pk,
                                                ),
                                            });
                                        assert(days.take(iold)[idx] == days[idx]);
                                        assert(days[idx].date != days[iold].date);
                                        assert(spec_date_le(days[idx].date, days[iold].date));
                                    }
                                }
                                let newlog: Log;
                                if cur.days[cur.days.len() - 1].date == day_date {
                                    proof {
                                        assert(cur@.last() == cur.days@[cur.days@.len() - 1]@);
                                        assert(cur@.last().date == days[iold].date);
                                        if f.len() == 0 {
                                            assert(cur@ == base);
                                            assert(spec_date_lt(
                                                cur@.last().date,
                                                days[iold].date,
                                            ));
                                            assert(false);
                                        }
                                        assert(cur@ == base.push(
                                            (SpecDay { date: days[iold].date, entries: f }),
                                        ));
                                    }
                                    newlog = log_with_appended_entry(cur, entry_ref.duplicate());
                                    proof {
                                        assert(cur@.drop_last() =~~= base);
                                        assert(newlog@ =~~= eff_new);
                                    }
                                } else {
                                    proof {
                                        assert(cur@.last() == cur.days@[cur.days@.len() - 1]@);
                                        if f.len() > 0 {
                                            assert(cur@.last() == (SpecDay {
                                                date: days[iold].date,
                                                entries: f,
                                            }));
                                            assert(false);
                                        }
                                        assert(cur@ == base);
                                    }
                                    newlog = log_with_new_day(
                                        cur,
                                        day_date,
                                        entry_ref.duplicate(),
                                    );
                                    proof {
                                        assert(newlog@ =~~= eff_new);
                                    }
                                }
                                set_plog(&mut acc, pstr, Some(newlog));
                            },
                        }
                    }
                    proof {
                        let accd = acc.deep_view();
                        assert(spec_split_state(accd, days, ign, iold, jold, rel.take(kold + 1)))
                            by {
                            assert forall|p: Seq<char>|
                                #![trigger spec_has_plog(accd, p)]
                                (spec_has_plog(accd, p) <==> (spec_related_upto(
                                    days,
                                    p,
                                    iold,
                                    jold,
                                ) || rel.take(kold + 1).contains(p))) && (spec_has_plog(accd, p)
                                    ==> (if ign.contains(p) {
                                    spec_plog_at(accd, p).log is None
                                } else {
                                    spec_plog_at(accd, p).log == Option::Some(
                                        spec_proj_eff(days, p, iold, jold, rel.take(kold + 1)),
                                    )
                                })) by {
                                lemma_split_state(accd0, days, ign, iold, jold, rel.take(kold), p);
                                if p == pk {
                                    assert(rel.take(kold + 1)[kold] == pk);
                                    assert(rel.take(kold + 1).contains(p));
                                    assert(spec_has_plog(accd, p));
                                } else {
                                    assert(rel.take(kold + 1).contains(p) <==> rel.take(
                                        kold,
                                    ).contains(p)) by {
                                        if rel.take(kold + 1).contains(p) {
                                            let m = choose|m: int|
                                                0 <= m < kold + 1 && #[trigger] rel.take(
                                                    kold + 1,
                                                )[m] == p;
                                            if m < kold {
                                                assert(rel.take(kold)[m] == p);
                                            }
                                        }
                                        if rel.take(kold).contains(p) {
                                            let m = choose|m: int|
                                                0 <= m < kold && #[trigger] rel.take(kold)[m]
                                                    == p;
                                            assert(rel.take(kold + 1)[m] == p);
                                        }
                                    }
                                    assert(spec_proj_eff(days, p, iold, jold, rel.take(kold + 1))
                                        == spec_proj_eff(days, p, iold, jold, rel.take(kold)));
                                }
                            }
                        }
                    }
                }
                handled.push(pstr.clone());
                proof {
                    assert(handled.deep_view() =~~= rel.take(kold + 1));
                }
                k = k + 1;
            }
            proof {
                assert(rel.take(rel.len() as int) =~= rel);
                lemma_split_state_entry_done(acc.deep_view(), days, ign, iold, jold);
            }
            j = j + 1;
        }
        proof {
            lemma_split_state_day_done(acc.deep_view(), days, ign, iold);
        }
        i = i + 1;
    }
    proof {
        let accd = acc.deep_view();
        assert(days.take(days.len() as int) =~= days);
        assert forall|p: Seq<char>|
            spec_has_plog(accd, p) <==> spec_related_mentioned(log@, p) by {
            lemma_split_state(accd, days, ign, days.len() as int, 0, Seq::empty(), p);
        }
        assert forall|p: Seq<char>|
            spec_has_plog(accd, p) && ign.contains(p) implies spec_plog_at(accd, p).log
            is None by {
            lemma_split_state(accd, days, ign, days.len() as int, 0, Seq::empty(), p);
        }
        assert forall|p: Seq<char>|
            spec_has_plog(accd, p) && !ign.contains(p) implies spec_plog_at(accd, p).log
            == Option::Some(spec_project(log@, p)) by {
            lemma_split_state(accd, days, ign, days.len() as int, 0, Seq::empty(), p);
            assert(spec_proj_eff(days, p, days.len() as int, 0, Seq::empty()) == spec_project(
                days.take(days.len() as int),
                p,
            ));
        }
    }
    acc
}

/// `acc` with the day `d` folded in: a day of the same date gains `d`'s
/// entries at the end; otherwise `d` is placed at its position in date
/// order.
pub open spec fn spec_add_day(acc: Seq<SpecDay>, d: SpecDay) -> Seq<SpecDay>
    decreases acc.len(),
{
    if acc.len() == 0 {
        seq![d]
    } else if acc.last().date == d.date {
        acc.drop_last().push(
            (SpecDay { date: acc.last().date, entries: acc.last().entries + d.entries }),
        )
    } else if spec_date_lt(acc.last().date, d.date) {
        acc.push(d)
    } else {
        spec_add_day(acc.drop_last(), d).push(acc.last())
    }
}

/// What folding one day does: its date joins the run, its entries join
/// any day of the same date, and every other day stands unchanged.
pub proof fn lemma_add_day(acc: Seq<SpecDay>, d: SpecDay)
    requires
        spec_unique_dates(acc),
        spec_sorted_by_date(acc),
    ensures
        spec_unique_dates(spec_add_day(acc, d)),
        spec_sorted_by_date(spec_add_day(acc, d)),
        forall|date: Date|
            spec_has_date(spec_add_day(acc, d), date) <==> (spec_has_date(acc, date) || date
                == d.date),
        spec_day_at(spec_add_day(acc, d), d.date) == (if spec_has_date(acc, d.date) {
            SpecDay {
                date: spec_day_at(acc, d.date).date,
                entries: spec_day_at(acc, d.date).entries + d.entries,
            }
        } else {
            d
        }),
        forall|date: Date|
            date != d.date && spec_has_date(acc, date) ==> spec_has_date(
                spec_add_day(acc, d),
                date,
            ) && spec_day_at(spec_add_day(acc, d), date) == spec_day_at(acc, date),
    decreases acc.len(),
{
    let r = spec_add_day(acc, d);
    if acc.len() == 0 {
        assert(r =~~= seq![d]);
        assert(r[0] == d);
        assert forall|date: Date|
            spec_has_date(r, date) <==> (spec_has_date(acc, date) || date == d.date) by {
            if spec_has_date(r, date) {
                let k = choose|k: int| 0 <= k < r.len() && (#[trigger] r[k]).date == date;
                assert(k == 0);
            }
            if date == d.date {
                assert(r[0].date == date);
            }
        }
        lemma_day_at_index(r, 0);
    } else if acc.last().date == d.date {
        let last = acc.len() - 1;
        let x = SpecDay { date: acc.last().date, entries: acc.last().entries + d.entries };
        assert(r == acc.drop_last().push(x));
        assert(forall|j: int| 0 <= j < last ==> #[trigger] r[j] == acc[j]);
        assert(r[last as int] == x);
        assert(r.len() == acc.len());
        assert(forall|j: int| 0 <= j < r.len() ==> (#[trigger] r[j]).date == acc[j].date);
        assert forall|date: Date|
            spec_has_date(r, date) <==> (spec_has_date(acc, date) || date == d.date) by {
            if spec_has_date(r, date) {
                let k = choose|k: int| 0 <= k < r.len() && (#[trigger] r[k]).date == date;
                assert(acc[k].date == date);
                assert(spec_has_date(acc, date));
            }
            if spec_has_date(acc, date) {
                let k = choose|k: int| 0 <= k < acc.len() && (#[trigger] acc[k]).date == date;
                assert(r[k].date == date);
                assert(spec_has_date(r, date));
            }
            if date == d.date {
                assert(r[last as int].date == date);
                assert(spec_has_date(r, date));
            }
        }
        lemma_day_at_index(acc, last as int);
        lemma_day_at_index(r, last as int);
        assert(spec_day_at(r, d.date) == x);
        assert(spec_day_at(acc, d.date) == acc[last as int]);
        assert forall|date: Date|
            date != d.date && spec_has_date(acc, date) implies spec_has_date(r, date)
            && spec_day_at(r, date) == spec_day_at(acc, date) by {
            let k = choose|k: int| 0 <= k < acc.len() && (#[trigger] acc[k]).date == date;
            assert(k != last);
            lemma_day_at_index(acc, k);
            assert(r[k] == acc[k]);
            lemma_day_at_index(r, k);
        }
    } else if spec_date_lt(acc.last().date, d.date) {
        let last = acc.len() as int;
        assert(r == acc.push(d));
        assert(forall|j: int| 0 <= j < last ==> #[trigger] r[j] == acc[j]);
        assert(r[last] == d);
        assert forall|i: int, j: int| 0 <= i < j < r.len() implies spec_date_le(
            (#[trigger] r[i]).date,
            (#[trigger] r[j]).date,
        ) by {
            if j == last {
                assert(spec_date_le(acc[i].date, acc[last - 1].date));
            }
        }
        assert forall|i: int, j: int| 0 <= i < j < r.len() implies (#[trigger] r[i]).date != (
        #[trigger] r[j]).date by {
            if j == last {
                assert(spec_date_le(acc[i].date, acc[last - 1].date));
            }
        }
        assert forall|date: Date|
            spec_has_date(r, date) <==> (spec_has_date(acc, date) || date == d.date) by {
            if spec_has_date(r, date) {
                let k = choose|k: int| 0 <= k < r.len() && (#[trigger] r[k]).date == date;
                if k < last {
                    assert(acc[k].date == date);
                    assert(spec_has_date(acc, date));
                }
            }
            if spec_has_date(acc, date) {
                let k = choose|k: int| 0 <= k < acc.len() && (#[trigger] acc[k]).date == date;
                assert(r[k].date == date);
                assert(spec_has_date(r, date));
            }
            if date == d.date {
                assert(r[last].date == date);
                assert(spec_has_date(r, date));
            }
        }
        assert(!spec_has_date(acc, d.date)) by {
            if spec_has_date(acc, d.date) {
                let k = choose|k: int| 0 <= k < acc.len() && (#[trigger] acc[k]).date == d.date;
                assert(spec_date_le(acc[k].date, acc[last - 1].date));
            }
        }
        lemma_day_at_index(r, last);
        assert forall|date: Date|
            date != d.date && spec_has_date(acc, date) implies spec_has_date(r, date)
            && spec_day_at(r, date) == spec_day_at(acc, date) by {
            let k = choose|k: int| 0 <= k < acc.len() && (#[trigger] acc[k]).date == date;
            lemma_day_at_index(acc, k);
            assert(r[k] == acc[k]);
            lemma_day_at_index(r, k);
        }
    } else {
        let last = acc.len() - 1;
        let acc2 = acc.drop_last();
        assert(forall|j: int| 0 <= j < acc2.len() ==> #[trigger] acc2[j] == acc[j]);
        lemma_add_day(acc2, d);
        let r2 = spec_add_day(acc2, d);
        assert(r == r2.push(acc.last()));
        assert(spec_date_lt(d.date, acc.last().date));
        // every day of the sub-result lies strictly before the old last
        assert forall|j: int|
            0 <= j < r2.len() implies spec_date_lt((#[trigger] r2[j]).date, acc[last as int].date)
            && r2[j].date != acc[last as int].date by {
            assert(spec_has_date(r2, r2[j].date));
            if spec_has_date(acc2, r2[j].date) {
                let k = choose|k: int|
                    0 <= k < acc2.len() && (#[trigger] acc2[k]).date == r2[j].date;
                assert(acc[k].date == r2[j].date);
                assert(spec_date_le(acc[k].date, acc[last as int].date));
                assert(acc[k].date != acc[last as int].date);
            } else {
                assert(r2[j].date == d.date);
            }
        }
        assert(forall|j: int| 0 <= j < r2.len() ==> #[trigger] r[j] == r2[j]);
        assert(r[r2.len() as int] == acc[last as int]);
        assert forall|i: int, j: int| 0 <= i < j < r.len() implies spec_date_le(
            (#[trigger] r[i]).date,
            (#[trigger] r[j]).date,
        ) && r[i].date != r[j].date by {
            if j == r2.len() {
                assert(spec_date_lt(r2[i].date, acc[last as int].date));
            }
        }
        assert forall|date: Date|
            spec_has_date(r, date) <==> (spec_has_date(acc, date) || date == d.date) by {
            if spec_has_date(r, date) {
                let k = choose|k: int| 0 <= k < r.len() && (#[trigger] r[k]).date == date;
                if k < r2.len() {
                    assert(spec_has_date(r2, date));
                    if spec_has_date(acc2, date) {
                        let m = choose|m: int|
                            0 <= m < acc2.len() && (#[trigger] acc2[m]).date == date;
                        assert(acc[m].date == date);
                        assert(spec_has_date(acc, date));
                    }
                } else {
                    assert(acc[last as int].date == date);
                    assert(spec_has_date(acc, date));
                }
            }
            if spec_has_date(acc, date) {
                let k = choose|k: int| 0 <= k < acc.len() && (#[trigger] acc[k]).date == date;
                if k < last {
                    assert(acc2[k].date == date);
                    assert(spec_has_date(acc2, date));
                    assert(spec_has_date(r2, date));
                    let m = choose|m: int| 0 <= m < r2.len() && (#[trigger] r2[m]).date == date;
                    assert(r[m].date == date);
                    assert(spec_has_date(r, date));
                } else {
                    assert(r[r2.len() as int].date == date);
                    assert(spec_has_date(r, date));
                }
            }
            if date == d.date {
                assert(spec_has_date(r2, date));
                let m = choose|m: int| 0 <= m < r2.len() && (#[trigger] r2[m]).date == date;
                assert(r[m].date == date);
                assert(spec_has_date(r, date));
            }
        }
        assert(spec_has_date(acc, d.date) <==> spec_has_date(acc2, d.date)) by {
            if spec_has_date(acc, d.date) {
                let k = choose|k: int| 0 <= k < acc.len() && (#[trigger] acc[k]).date == d.date;
                assert(k != last);
                assert(acc2[k].date == d.date);
            }
            if spec_has_date(acc2, d.date) {
                let k = choose|k: int| 0 <= k < acc2.len() && (#[trigger] acc2[k]).date == d.date;
                assert(acc[k].date == d.date);
            }
        }
        if spec_has_date(acc2, d.date) {
            let k = choose|k: int| 0 <= k < acc2.len() && (#[trigger] acc2[k]).date == d.date;
            lemma_day_at_index(acc2, k);
            lemma_day_at_index(acc, k);
        }
        let md = choose|m: int| 0 <= m < r2.len() && (#[trigger] r2[m]).date == d.date;
        lemma_day_at_index(r2, md);
        lemma_day_at_index(r, md);
        assert(spec_day_at(r, d.date) == spec_day_at(r2, d.date));
        assert forall|date: Date|
            date != d.date && spec_has_date(acc, date) implies spec_has_date(r, date)
            && spec_day_at(r, date) == spec_day_at(acc, date) by {
            let k = choose|k: int| 0 <= k < acc.len() && (#[trigger] acc[k]).date == date;
            lemma_day_at_index(acc, k);
            if k < last {
                assert(acc2[k].date == date);
                assert(spec_has_date(acc2, date));
                lemma_day_at_index(acc2, k);
                let m = choose|m: int| 0 <= m < r2.len() && (#[trigger] r2[m]).date == date;
                lemma_day_at_index(r2, m);
                lemma_day_at_index(r, m);
            } else {
                lemma_day_at_index(r, r2.len() as int);
            }
        }
    }
}

/// `acc` with each of `days` folded in, in order.
pub open spec fn spec_accumulate_days(acc: Seq<SpecDay>, days: Seq<SpecDay>) -> Seq<SpecDay>
    decreases days.len(),
{
    if days.len() == 0 {
        acc
    } else {
        spec_accumulate_days(spec_add_day(acc, days[0]), days.drop_first())
    }
}

/// `acc` with the days of each of `logs`, from position `f` on, folded
/// in, file by file.
pub open spec fn spec_combine_from(logs: Seq<Seq<SpecDay>>, f: int, acc: Seq<SpecDay>) -> Seq<
    SpecDay,
>
    decreases logs.len() - f + 1,
{
    if f < 0 || f >= logs.len() {
        acc
    } else {
        spec_combine_from(logs, f + 1, spec_accumulate_days(acc, logs[f]))
    }
}

/// The aggregate of several source logs: their days folded into one
/// ordered run, in source order, so that the entries of a date shared
/// between sources stand in source order.
pub open spec fn spec_combine_logs(logs: Seq<Seq<SpecDay>>) -> Seq<SpecDay> {
    spec_combine_from(logs, 0, Seq::empty())
}

/// The days denoted by each text, where every text parses.
pub open spec fn spec_parsed_days(texts: Seq<Seq<char>>) -> Seq<Seq<SpecDay>> {
    texts.map_values(|t: Seq<char>| spec_parse_log(t)->0)
}

/// Parses the given file contents, in order, and merges the parsed logs
/// by date into one aggregate log.  Fails with the structural error
/// exactly when some file holds a record line before its first date
/// header.
pub fn parse_logs(contents: &Vec<String>) -> (r: Result<Log, ParseError>)
    ensures
        (match r {
            Ok(out) => (forall|f: int|
                0 <= f < contents.deep_view().len() ==> spec_parse_log(
                    #[trigger] contents.deep_view()[f],
                ) is Some) && out@ == spec_combine_logs(spec_parsed_days(contents.deep_view()))
                && spec_unique_dates(out@) && spec_sorted_by_date(out@),
            Err(e) => (exists|f: int|
                0 <= f < contents.deep_view().len() && spec_parse_log(
                    #[trigger] contents.deep_view()[f],
                ) is None) && e == ParseError::RecordBeforeDate,
        }),
{
    let ghost texts = contents.deep_view();
    let mut acc = Log { days: Vec::new() };
    let mut f: usize = 0;
    proof {
        assert(acc@ =~~= Seq::<SpecDay>::empty());
    }
    while f < contents.len()
        invariant
            f <= contents@.len(),
            texts == contents.deep_view(),
            texts.len() == contents@.len(),
            forall|g: int| 0 <= g < f ==> spec_parse_log(#[trigger] texts[g]) is Some,
            spec_unique_dates(acc@),
            spec_sorted_by_date(acc@),
            spec_combine_logs(spec_parsed_days(texts)) == spec_combine_from(
                spec_parsed_days(texts),
                f as int,
                acc@,
            ),
        decreases contents@.len() - f,
    {
        let ghost fold = f as int;
        let ghost plogs = spec_parsed_days(texts);
        proof {
            assert(texts[fold] == contents@[fold]@);
        }
        let parsed = match parse_log_file_content(contents[f].as_str()) {
            Ok(l) => l,
            Err(e) => {
                proof {
                    assert(spec_parse_log(texts[fold]) is None);
                }
                return Err(e);
            },
        };
        let ghost pdays = parsed@;
        let ghost acc_start = acc@;
        proof {
            assert(plogs[fold] == pdays);
        }
        let mut parsed_days = parsed.days;
        let mut d: usize = 0;
        proof {
            assert(pdays.skip(0) =~= pdays);
        }
        while d < parsed_days.len()
            invariant
                d <= parsed_days@.len(),
                pdays == parsed_days.deep_view(),
                pdays.len() == parsed_days@.len(),
                spec_unique_dates(acc@),
                spec_sorted_by_date(acc@),
                spec_accumulate_days(acc_start, pdays) == spec_accumulate_days(
                    acc@,
                    pdays.skip(d as int),
                ),
            decreases parsed_days@.len() - d,
        {
            let day = parsed_days[d].duplicate();
            let ghost dayv = day@;
            let ghost accv = acc@;
            proof {
                assert(pdays.skip(d as int)[0] == pdays[d as int]);
                assert(pdays.skip(d as int).drop_first() =~= pdays.skip(d + 1));
                assert(dayv == pdays[d as int]);
            }
            let single = Log { days: vec_of_one_day(day) };
            proof {
                assert(single@.len() == 1);
                assert(single@[0] == dayv);
                assert(spec_unique_dates(single@));
            }
            acc = merge_logs(acc, single);
            proof {
                lemma_add_day(accv, dayv);
                assert forall|date: Date|
                    spec_has_date(single@, date) <==> date == dayv.date by {
                    if spec_has_date(single@, date) {
                        let k = choose|k: int|
                            0 <= k < single@.len() && (#[trigger] single@[k]).date == date;
                        assert(k == 0);
                    }
                    if date == dayv.date {
                        assert(single@[0].date == date);
                    }
                }
                lemma_day_at_index(single@, 0);
                assert forall|date: Date|
                    spec_has_date(acc@, date) <==> spec_has_date(
                        spec_add_day(accv, dayv),
                        date,
                    ) by {}
                assert forall|date: Date|
                    spec_has_date(acc@, date) implies spec_day_at(acc@, date) == spec_day_at(
                    spec_add_day(accv, dayv),
                    date,
                ) by {
                    if date == dayv.date {
                        assert(spec_day_at(acc@, date) == spec_merged_day(accv, dayv));
                    } else {
                        assert(spec_has_date(accv, date));
                    }
                }
                lemma_days_ext(acc@, spec_add_day(accv, dayv));
            }
            d = d + 1;
        }
        proof {
            assert(pdays.skip(pdays.len() as int) =~= Seq::<SpecDay>::empty());
            assert(spec_accumulate_days(acc_start, pdays) == acc@);
            assert(spec_combine_from(plogs, fold, acc_start) == spec_combine_from(
                plogs,
                fold + 1,
                acc@,
            ));
        }
        f = f + 1;
    }
    Ok(acc)
}

/// A vector of one day.
fn vec_of_one_day(day: Day) -> (r: Vec<Day>)
    ensures
        r.deep_view() == seq![day@],
{
    let ghost dv = day@;
    let mut v: Vec<Day> = Vec::new();
    v.push(day);
    proof {
        assert(v.deep_view() =~~= seq![dv]);
    }
    v
}

/// The file path of a person's projected log under `dir`.
pub fn infer_log_path(person: &str, dir: &str) -> (r: String)
    ensures
        r@ == dir@ + "/"@ + person@ + ".md"@,
{
    let mut out = String::from_str(dir);
    out.append("/");
    out.append(person);
    out.append(".md");
    out
}

/// What became of one person's log file on storage.
#[derive(Clone, Debug)]
pub enum LogWritten {
    /// The projected log was written to this path.
    Written(String),
    /// Writing to this path failed, for the given reason.
    FailedToWrite(String, String),
    /// The person is ignored and no stale file was at this path.
    NothingToDelete(String),
    /// The person is ignored and the stale file at this path was
    /// removed.
    Deleted(String),
    /// Removing the stale file at this path failed, for the given
    /// reason.
    FailedToDelete(String, String),
}

} // verus!
