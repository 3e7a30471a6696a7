//! The evaluator: anchor each birthday onto the year of a given day,
//! compute the signed distance in days, keep what falls into the
//! configured window, and order the results past-and-today first, then
//! upcoming, each group by distance.

use vstd::prelude::*;

use crate::date::{
    spec_is_leap_year, spec_day_of_year, spec_days_in_year, Date, lemma_day_of_year_bounds,
    lemma_day_of_year_monotone, lemma_days_in_year_bounds,
};

verus! {

/// One row of the birthday list: a display name and the date of birth.
/// The year of `birth_date` is informational only.
#[derive(Clone, Debug, PartialEq)]
pub struct BirthdayEntry {
    pub name: String,
    pub birth_date: Date,
}

/// A birthday that fell into the window: the entry's fields together with
/// the occurrence date it was anchored to and its distance from today in
/// whole days.
#[derive(Clone, Debug, PartialEq)]
pub struct EvaluatedBirthday {
    pub name: String,
    pub birth_date: Date,
    pub occurrence_date: Date,
    pub days_offset: i64,
}

/// The birthday's month and day placed into year `y`. A February 29
/// birthday anchored onto a non-leap year is celebrated on February 28 of
/// that year; this is the explicit policy for the leap-day edge case.
pub open spec fn spec_anchor(birth: Date, y: i32) -> Date {
    if birth.month == 2 && birth.day == 29 && !spec_is_leap_year(y as int) {
        Date { year: y, month: 2, day: 28 }
    } else {
        Date { year: y, month: birth.month, day: birth.day }
    }
}

/// The occurrence nearest to `today` under forward-only anchoring: the
/// birthday anchored onto `today`'s year, rolled into the next year when
/// that day is already strictly past.
pub open spec fn spec_occurrence(birth: Date, today: Date) -> Date {
    let this_year = spec_anchor(birth, today.year);
    if this_year.spec_lt(today) {
        spec_anchor(birth, (today.year + 1) as i32)
    } else {
        this_year
    }
}

/// Whole days from `today` to the occurrence date. Under forward-only
/// anchoring this is never negative.
pub open spec fn spec_days_offset(birth: Date, today: Date) -> int {
    let occ = spec_occurrence(birth, today);
    if occ.year == today.year {
        spec_day_of_year(occ) - spec_day_of_year(today)
    } else {
        spec_days_in_year(today.year as int) - spec_day_of_year(today) + spec_day_of_year(occ)
    }
}

/// The offset lies in the inclusive window reaching `past` days back and
/// `adv` days ahead.
pub open spec fn spec_in_window(off: int, adv: int, past: int) -> bool {
    -past <= off <= adv
}

/// An anchored date is a real calendar date whenever the birthday is.
pub proof fn lemma_anchor_valid(birth: Date, y: i32)
    requires
        birth.calendar_valid(),
    ensures
        spec_anchor(birth, y).calendar_valid(),
        spec_anchor(birth, y).year == y,
{
}

/// Forward-only anchoring yields an occurrence at most one year out, so
/// the offset lies in 0..=731.
pub proof fn lemma_days_offset_bounds(birth: Date, today: Date)
    requires
        birth.calendar_valid(),
        today.valid(),
    ensures
        spec_occurrence(birth, today).calendar_valid(),
        0 <= spec_days_offset(birth, today) <= 731,
{
    let this_year = spec_anchor(birth, today.year);
    let occ = spec_occurrence(birth, today);
    lemma_anchor_valid(birth, today.year);
    lemma_day_of_year_bounds(today);
    lemma_days_in_year_bounds(today.year as int);
    if this_year.spec_lt(today) {
        lemma_anchor_valid(birth, (today.year + 1) as i32);
        lemma_day_of_year_bounds(occ);
        lemma_days_in_year_bounds(occ.year as int);
        assert(occ.year == today.year + 1);
    } else {
        lemma_day_of_year_bounds(this_year);
        if today.spec_lt(this_year) {
            lemma_day_of_year_monotone(today, this_year);
        } else {
            assert(this_year.month == today.month && this_year.day == today.day);
        }
    }
}

impl Date {
    /// Exec form of `spec_anchor`.
    pub fn anchor_in_year(self, y: i32) -> (r: Date)
        requires
            self.calendar_valid(),
        ensures
            r == spec_anchor(self, y),
            r.calendar_valid(),
    {
        proof {
            lemma_anchor_valid(self, y);
        }
        if self.month == 2 && self.day == 29 && !Date::is_leap_year(y) {
            Date { year: y, month: 2, day: 28 }
        } else {
            Date { year: y, month: self.month, day: self.day }
        }
    }

    /// Exec form of `spec_occurrence`.
    pub fn occurrence(self, today: Date) -> (r: Date)
        requires
            self.calendar_valid(),
            today.valid(),
        ensures
            r == spec_occurrence(self, today),
            r.calendar_valid(),
    {
        proof {
            lemma_days_offset_bounds(self, today);
        }
        let this_year = self.anchor_in_year(today.year);
        if this_year.lt(today) {
            self.anchor_in_year(today.year + 1)
        } else {
            this_year
        }
    }

    /// Exec form of `spec_days_offset`.
    pub fn days_offset(self, today: Date) -> (r: i64)
        requires
            self.calendar_valid(),
            today.valid(),
        ensures
            r as int == spec_days_offset(self, today),
            0 <= r <= 731,
    {
        proof {
            lemma_days_offset_bounds(self, today);
        }
        let occ = self.occurrence(today);
        if occ.year == today.year {
            occ.day_of_year() as i64 - today.day_of_year() as i64
        } else {
            proof {
                lemma_days_in_year_bounds(today.year as int);
            }
            let days_in_year: u32 = if Date::is_leap_year(today.year) {
                366
            } else {
                365
            };
            days_in_year as i64 - today.day_of_year() as i64 + occ.day_of_year() as i64
        }
    }
}

/// The evaluation of one entry against `today`.
pub open spec fn spec_eval_one(e: BirthdayEntry, today: Date) -> EvaluatedBirthday {
    EvaluatedBirthday {
        name: e.name,
        birth_date: e.birth_date,
        occurrence_date: spec_occurrence(e.birth_date, today),
        days_offset: spec_days_offset(e.birth_date, today) as i64,
    }
}

/// The evaluations of the entries whose offset falls into the window, in
/// source order.
pub open spec fn spec_filtered(entries: Seq<BirthdayEntry>, today: Date, adv: i64, past: i64) -> Seq<
    EvaluatedBirthday,
>
    decreases entries.len(),
{
    if entries.len() == 0 {
        Seq::empty()
    } else {
        let prev = spec_filtered(entries.drop_last(), today, adv, past);
        let ev = spec_eval_one(entries.last(), today);
        if spec_in_window(ev.days_offset as int, adv as int, past as int) {
            prev.push(ev)
        } else {
            prev
        }
    }
}

/// Results with `days_offset <= 0` form the first bucket, the upcoming
/// ones the second.
pub open spec fn spec_bucket(ev: EvaluatedBirthday) -> int {
    if ev.days_offset <= 0 {
        0
    } else {
        1
    }
}

/// Strict order on the composite sort key (bucket, then offset).
pub open spec fn key_lt(a: EvaluatedBirthday, b: EvaluatedBirthday) -> bool {
    spec_bucket(a) < spec_bucket(b) || (spec_bucket(a) == spec_bucket(b) && a.days_offset
        < b.days_offset)
}

/// Non-strict companion of `key_lt`.
pub open spec fn key_le(a: EvaluatedBirthday, b: EvaluatedBirthday) -> bool {
    !key_lt(b, a)
}

/// `x` placed into `s` before the first element not strictly below it;
/// on a sorted `s` this keeps earlier-inserted equals in front, which
/// makes the overall sort stable.
pub open spec fn spec_insert_sorted(x: EvaluatedBirthday, s: Seq<EvaluatedBirthday>) -> Seq<
    EvaluatedBirthday,
>
    decreases s.len(),
{
    if s.len() == 0 {
        seq![x]
    } else if key_lt(s[0], x) {
        seq![s[0]] + spec_insert_sorted(x, s.drop_first())
    } else {
        seq![x] + s
    }
}

/// Insertion sort, front to back, so that an element coming earlier in
/// the input precedes every equal-keyed element coming later.
pub open spec fn spec_sort(s: Seq<EvaluatedBirthday>) -> Seq<EvaluatedBirthday>
    decreases s.len(),
{
    if s.len() == 0 {
        Seq::empty()
    } else {
        spec_insert_sorted(s[0], spec_sort(s.drop_first()))
    }
}

/// Non-decreasing in the composite key.
pub open spec fn sorted_by_key(s: Seq<EvaluatedBirthday>) -> bool {
    forall|i: int, j: int| 0 <= i < j < s.len() ==> key_le(s[i], s[j])
}

/// The full evaluation: filter to the window, then order by the composite
/// key.
pub open spec fn spec_evaluate(entries: Seq<BirthdayEntry>, today: Date, adv: i64, past: i64) -> Seq<
    EvaluatedBirthday,
> {
    spec_sort(spec_filtered(entries, today, adv, past))
}

proof fn lemma_insert_sorted_multiset(x: EvaluatedBirthday, s: Seq<EvaluatedBirthday>)
    ensures
        spec_insert_sorted(x, s).to_multiset() =~= s.to_multiset().insert(x),
        spec_insert_sorted(x, s).len() == s.len() + 1,
    decreases s.len(),
{
    broadcast use vstd::seq_lib::group_seq_properties;
    broadcast use vstd::multiset::group_multiset_axioms;

    if s.len() == 0 {
        assert(seq![x] =~= Seq::<EvaluatedBirthday>::empty().push(x));
        Seq::<EvaluatedBirthday>::empty().to_multiset_ensures();
    } else if key_lt(s[0], x) {
        lemma_insert_sorted_multiset(x, s.drop_first());
        vstd::seq_lib::lemma_multiset_commutative(seq![s[0]], spec_insert_sorted(x, s.drop_first()));
        vstd::seq_lib::lemma_multiset_commutative(seq![s[0]], s.drop_first());
        assert(s =~= seq![s[0]] + s.drop_first());
    } else {
        vstd::seq_lib::lemma_multiset_commutative(seq![x], s);
        assert(seq![x] =~= Seq::<EvaluatedBirthday>::empty().push(x));
        Seq::<EvaluatedBirthday>::empty().to_multiset_ensures();
    }
}

proof fn lemma_sort_multiset(s: Seq<EvaluatedBirthday>)
    ensures
        spec_sort(s).to_multiset() =~= s.to_multiset(),
        spec_sort(s).len() == s.len(),
    decreases s.len(),
{
    broadcast use vstd::seq_lib::group_seq_properties;
    broadcast use vstd::multiset::group_multiset_axioms;

    if s.len() > 0 {
        lemma_sort_multiset(s.drop_first());
        lemma_insert_sorted_multiset(s[0], spec_sort(s.drop_first()));
        assert(s =~= seq![s[0]] + s.drop_first());
        vstd::seq_lib::lemma_multiset_commutative(seq![s[0]], s.drop_first());
        assert(seq![s[0]] =~= Seq::<EvaluatedBirthday>::empty().push(s[0]));
        Seq::<EvaluatedBirthday>::empty().to_multiset_ensures();
    }
}

/// Sorting neither adds nor drops results.
pub proof fn lemma_sort_contains(s: Seq<EvaluatedBirthday>, ev: EvaluatedBirthday)
    ensures
        spec_sort(s).contains(ev) <==> s.contains(ev),
{
    broadcast use vstd::multiset::group_multiset_axioms;

    lemma_sort_multiset(s);
    s.to_multiset_ensures();
    spec_sort(s).to_multiset_ensures();
    assert(spec_sort(s).to_multiset().count(ev) == s.to_multiset().count(ev));
}

proof fn lemma_insert_sorted_sorted(x: EvaluatedBirthday, s: Seq<EvaluatedBirthday>)
    requires
        sorted_by_key(s),
    ensures
        sorted_by_key(spec_insert_sorted(x, s)),
    decreases s.len(),
{
    broadcast use vstd::seq_lib::group_seq_properties;
    broadcast use vstd::multiset::group_multiset_axioms;

    if s.len() == 0 {
    } else if key_lt(s[0], x) {
        let rest = s.drop_first();
        assert(sorted_by_key(rest)) by {
            assert forall|i: int, j: int| 0 <= i < j < rest.len() implies key_le(
                rest[i],
                rest[j],
            ) by {
                assert(key_le(s[i + 1], s[j + 1]));
            }
        }
        lemma_insert_sorted_sorted(x, rest);
        let t = seq![s[0]] + spec_insert_sorted(x, rest);
        assert forall|i: int, j: int| 0 <= i < j < t.len() implies key_le(t[i], t[j]) by {
            if i == 0 {
                let ins = spec_insert_sorted(x, rest);
                let y = ins[j - 1];
                lemma_insert_sorted_multiset(x, rest);
                ins.to_multiset_ensures();
                rest.to_multiset_ensures();
                assert(ins.contains(y)) by {
                    assert(0 <= j - 1 < ins.len() && ins[j - 1] == y);
                }
                assert(ins.to_multiset().count(y) > 0);
                assert(ins.to_multiset().count(y) == rest.to_multiset().insert(x).count(y));
                assert(y == x || rest.contains(y));
                if y == x {
                } else {
                    let k = choose|k: int| 0 <= k < rest.len() && rest[k] == y;
                    assert(key_le(s[0], s[k + 1]));
                }
            }
        }
    } else {
        let t = seq![x] + s;
        assert forall|i: int, j: int| 0 <= i < j < t.len() implies key_le(t[i], t[j]) by {
            if i == 0 {
                if j == 1 {
                } else {
                    assert(key_le(s[0], s[j - 1]));
                }
            }
        }
    }
}

/// The spec-level sort is sorted by the composite key.
pub proof fn lemma_sort_sorted(s: Seq<EvaluatedBirthday>)
    ensures
        sorted_by_key(spec_sort(s)),
    decreases s.len(),
{
    if s.len() > 0 {
        lemma_sort_sorted(s.drop_first());
        lemma_insert_sorted_sorted(s[0], spec_sort(s.drop_first()));
    }
}

proof fn lemma_insert_sorted_at(x: EvaluatedBirthday, s: Seq<EvaluatedBirthday>, j: int)
    requires
        0 <= j <= s.len(),
        forall|k: int| 0 <= k < j ==> key_lt(#[trigger] s[k], x),
        j < s.len() ==> !key_lt(s[j], x),
    ensures
        spec_insert_sorted(x, s) == s.insert(j, x),
    decreases j,
{
    if j == 0 {
        assert(spec_insert_sorted(x, s) =~= s.insert(0, x));
    } else {
        let rest = s.drop_first();
        assert(forall|k: int| 0 <= k < j - 1 ==> key_lt(#[trigger] rest[k], x));
        lemma_insert_sorted_at(x, rest, j - 1);
        assert(seq![s[0]] + rest.insert(j - 1, x) =~= s.insert(j, x));
    }
}

fn key_lt_exec(a: &EvaluatedBirthday, b: &EvaluatedBirthday) -> (r: bool)
    ensures
        r == key_lt(*a, *b),
{
    let ba: i64 = if a.days_offset <= 0 {
        0
    } else {
        1
    };
    let bb: i64 = if b.days_offset <= 0 {
        0
    } else {
        1
    };
    ba < bb || (ba == bb && a.days_offset < b.days_offset)
}

fn insert_sorted_exec(x: EvaluatedBirthday, sorted: &mut Vec<EvaluatedBirthday>)
    ensures
        final(sorted)@ == spec_insert_sorted(x, old(sorted)@),
{
    let mut j: usize = 0;
    while j < sorted.len() && key_lt_exec(&sorted[j], &x)
        invariant
            j <= sorted@.len(),
            sorted@ == old(sorted)@,
            forall|k: int| 0 <= k < j ==> key_lt(#[trigger] sorted@[k], x),
        decreases sorted@.len() - j,
    {
        j = j + 1;
    }
    proof {
        lemma_insert_sorted_at(x, sorted@, j as int);
    }
    sorted.insert(j, x);
}

/// Exec form of `spec_sort`: stable insertion sort by the composite key.
pub fn sort_evaluated(v: Vec<EvaluatedBirthday>) -> (r: Vec<EvaluatedBirthday>)
    ensures
        r@ == spec_sort(v@),
{
    let ghost orig = v@;
    let mut v = v;
    let mut out: Vec<EvaluatedBirthday> = Vec::new();
    proof {
        assert(orig.subrange(orig.len() as int, orig.len() as int) =~= Seq::<
            EvaluatedBirthday,
        >::empty());
        assert(orig.subrange(0, orig.len() as int) =~= orig);
    }
    while v.len() > 0
        invariant
            v@.len() <= orig.len(),
            v@ == orig.subrange(0, v@.len() as int),
            out@ == spec_sort(orig.subrange(v@.len() as int, orig.len() as int)),
        decreases v@.len(),
    {
        let ghost suffix_old = orig.subrange(v@.len() as int, orig.len() as int);
        let x = v.pop().unwrap();
        proof {
            let n = v@.len() as int;
            let suffix_new = orig.subrange(n, orig.len() as int);
            assert(v@ =~= orig.subrange(0, n));
            assert(suffix_new[0] == orig[n] && orig[n] == x);
            assert(suffix_new.drop_first() =~= suffix_old);
            assert(spec_sort(suffix_new) == spec_insert_sorted(x, spec_sort(suffix_old)));
        }
        insert_sorted_exec(x, &mut out);
    }
    proof {
        assert(orig.subrange(0, orig.len() as int) =~= orig);
    }
    out
}

/// Every entry's birth date is a real calendar date.
pub open spec fn entries_calendar_valid(entries: Seq<BirthdayEntry>) -> bool {
    forall|i: int| 0 <= i < entries.len() ==> (#[trigger] entries[i]).birth_date.calendar_valid()
}

fn in_window_exec(off: i64, adv: i64, past: i64) -> (r: bool)
    requires
        past >= 0,
    ensures
        r == spec_in_window(off as int, adv as int, past as int),
{
    -past <= off && off <= adv
}

/// Exec form of `spec_eval_one`.
pub fn evaluate_one(e: &BirthdayEntry, today: Date) -> (r: EvaluatedBirthday)
    requires
        e.birth_date.calendar_valid(),
        today.valid(),
    ensures
        r == spec_eval_one(*e, today),
{
    proof {
        lemma_days_offset_bounds(e.birth_date, today);
    }
    let occ = e.birth_date.occurrence(today);
    let off = e.birth_date.days_offset(today);
    EvaluatedBirthday {
        name: e.name.clone(),
        birth_date: e.birth_date,
        occurrence_date: occ,
        days_offset: off,
    }
}

/// Evaluate all entries against `today`: anchor, filter to the inclusive
/// window `[-days_in_past, days_in_advance]`, and order the results with
/// the `days_offset <= 0` bucket first, each bucket ascending by offset.
/// The result is pinned exactly by `spec_evaluate`. The look-back window
/// size is a size, hence non-negative; this also keeps its negation
/// representable.
pub fn evaluate(
    entries: &Vec<BirthdayEntry>,
    today: Date,
    days_in_advance: i64,
    days_in_past: i64,
) -> (r: Vec<EvaluatedBirthday>)
    requires
        entries_calendar_valid(entries@),
        today.valid(),
        days_in_past >= 0,
    ensures
        r@ == spec_evaluate(entries@, today, days_in_advance, days_in_past),
        sorted_by_key(r@),
        forall|i: int, j: int|
            0 <= i < r@.len() && 0 <= j < r@.len() && r@[i].days_offset <= 0 && r@[j].days_offset
                > 0 ==> i < j,
        forall|i: int, j: int|
            0 <= i < j < r@.len() && spec_bucket(r@[i]) == spec_bucket(r@[j]) ==> r@[i].days_offset
                <= r@[j].days_offset,
{
    let mut filtered: Vec<EvaluatedBirthday> = Vec::new();
    let mut i: usize = 0;
    proof {
        assert(entries@.subrange(0, 0) =~= Seq::<BirthdayEntry>::empty());
    }
    while i < entries.len()
        invariant
            entries_calendar_valid(entries@),
            today.valid(),
            days_in_past >= 0,
            i <= entries@.len(),
            filtered@ == spec_filtered(
                entries@.subrange(0, i as int),
                today,
                days_in_advance,
                days_in_past,
            ),
        decreases entries@.len() - i,
    {
        let ev = evaluate_one(&entries[i], today);
        proof {
            assert(entries@.subrange(0, i + 1).drop_last() =~= entries@.subrange(0, i as int));
            assert(entries@.subrange(0, i + 1).last() == entries@[i as int]);
        }
        if in_window_exec(ev.days_offset, days_in_advance, days_in_past) {
            filtered.push(ev);
        }
        i = i + 1;
    }
    proof {
        assert(entries@.subrange(0, entries@.len() as int) =~= entries@);
        lemma_sort_sorted(filtered@);
    }
    let r = sort_evaluated(filtered);
    proof {
        lemma_two_bucket_order_from_sorted(r@);
    }
    r
}

proof fn lemma_two_bucket_order_from_sorted(r: Seq<EvaluatedBirthday>)
    requires
        sorted_by_key(r),
    ensures
        forall|i: int, j: int|
            0 <= i < r.len() && 0 <= j < r.len() && r[i].days_offset <= 0 && r[j].days_offset > 0
                ==> i < j,
        forall|i: int, j: int|
            0 <= i < j < r.len() && spec_bucket(r[i]) == spec_bucket(r[j]) ==> r[i].days_offset
                <= r[j].days_offset,
{
    assert forall|i: int, j: int|
        0 <= i < r.len() && 0 <= j < r.len() && r[i].days_offset <= 0 && r[j].days_offset
            > 0 implies i < j by {
        if j < i {
            assert(key_le(r[j], r[i]));
        }
    }
    assert forall|i: int, j: int|
        0 <= i < j < r.len() && spec_bucket(r[i]) == spec_bucket(r[j]) implies r[i].days_offset
        <= r[j].days_offset by {
        assert(key_le(r[i], r[j]));
    }
}

/// Law: evaluation is a pure function of its entries, day and window; any
/// two results drawn from identical inputs are identical, so running the
/// evaluation twice changes nothing.
pub proof fn lemma_evaluate_deterministic(
    entries: Seq<BirthdayEntry>,
    today: Date,
    adv: i64,
    past: i64,
    r1: Seq<EvaluatedBirthday>,
    r2: Seq<EvaluatedBirthday>,
)
    requires
        r1 == spec_evaluate(entries, today, adv, past),
        r2 == spec_evaluate(entries, today, adv, past),
    ensures
        r1 == r2,
{
}

/// Law: in every evaluation result, each entry with `days_offset <= 0`
/// precedes each with `days_offset > 0`, and within either bucket the
/// offsets are non-decreasing.
pub proof fn lemma_evaluate_two_bucket_order(
    entries: Seq<BirthdayEntry>,
    today: Date,
    adv: i64,
    past: i64,
)
    ensures
        forall|i: int, j: int|
            0 <= i < spec_evaluate(entries, today, adv, past).len() && 0 <= j < spec_evaluate(
                entries,
                today,
                adv,
                past,
            ).len() && #[trigger] spec_evaluate(entries, today, adv, past)[i].days_offset <= 0
                && #[trigger] spec_evaluate(entries, today, adv, past)[j].days_offset > 0 ==> i < j,
        forall|i: int, j: int|
            0 <= i < j < spec_evaluate(entries, today, adv, past).len() && spec_bucket(
                #[trigger] spec_evaluate(entries, today, adv, past)[i],
            ) == spec_bucket(#[trigger] spec_evaluate(entries, today, adv, past)[j])
                ==> spec_evaluate(entries, today, adv, past)[i].days_offset <= spec_evaluate(
                entries,
                today,
                adv,
                past,
            )[j].days_offset,
{
    lemma_sort_sorted(spec_filtered(entries, today, adv, past));
    lemma_two_bucket_order_from_sorted(spec_evaluate(entries, today, adv, past));
}

proof fn lemma_filtered_membership(
    entries: Seq<BirthdayEntry>,
    today: Date,
    adv: i64,
    past: i64,
    ev: EvaluatedBirthday,
)
    ensures
        spec_filtered(entries, today, adv, past).contains(ev) <==> ((exists|i: int|
            0 <= i < entries.len() && #[trigger] spec_eval_one(entries[i], today) == ev)
            && spec_in_window(ev.days_offset as int, adv as int, past as int)),
    decreases entries.len(),
{
    if entries.len() == 0 {
    } else {
        let prefix = entries.drop_last();
        lemma_filtered_membership(prefix, today, adv, past, ev);
        let prev = spec_filtered(prefix, today, adv, past);
        let evl = spec_eval_one(entries.last(), today);
        if spec_in_window(evl.days_offset as int, adv as int, past as int) {
            assert(prev.push(evl).contains(ev) <==> (ev == evl || prev.contains(ev))) by {
                if prev.push(evl).contains(ev) {
                    let k = choose|k: int|
                        0 <= k < prev.push(evl).len() && prev.push(evl)[k] == ev;
                    if k < prev.len() {
                        assert(prev[k] == ev);
                    }
                }
                if ev == evl {
                    assert(prev.push(evl)[prev.len() as int] == ev);
                }
                if prev.contains(ev) {
                    let k = choose|k: int| 0 <= k < prev.len() && prev[k] == ev;
                    assert(prev.push(evl)[k] == ev);
                }
            }
        }
        assert(((exists|i: int|
            0 <= i < entries.len() && #[trigger] spec_eval_one(entries[i], today) == ev) <==> (ev
            == evl || (exists|i: int|
            0 <= i < prefix.len() && #[trigger] spec_eval_one(prefix[i], today) == ev)))) by {
            if exists|i: int|
                0 <= i < entries.len() && #[trigger] spec_eval_one(entries[i], today) == ev {
                let k = choose|k: int|
                    0 <= k < entries.len() && #[trigger] spec_eval_one(entries[k], today) == ev;
                if k < prefix.len() {
                    assert(spec_eval_one(prefix[k], today) == ev);
                }
            }
            if ev == evl {
                assert(spec_eval_one(entries[entries.len() - 1], today) == ev);
            }
            if exists|i: int|
                0 <= i < prefix.len() && #[trigger] spec_eval_one(prefix[i], today) == ev {
                let k = choose|k: int|
                    0 <= k < prefix.len() && #[trigger] spec_eval_one(prefix[k], today) == ev;
                assert(spec_eval_one(entries[k], today) == ev);
            }
        }
    }
}

/// Law: a result appears in the evaluation exactly when some entry
/// evaluates to it and its offset lies in the inclusive window.
pub proof fn lemma_evaluate_membership(
    entries: Seq<BirthdayEntry>,
    today: Date,
    adv: i64,
    past: i64,
    ev: EvaluatedBirthday,
)
    ensures
        spec_evaluate(entries, today, adv, past).contains(ev) <==> ((exists|i: int|
            0 <= i < entries.len() && #[trigger] spec_eval_one(entries[i], today) == ev)
            && spec_in_window(ev.days_offset as int, adv as int, past as int)),
{
    lemma_sort_contains(spec_filtered(entries, today, adv, past), ev);
    lemma_filtered_membership(entries, today, adv, past, ev);
}

/// Law: under forward-only anchoring, every result of an evaluation of
/// real calendar dates carries an offset in 0..=731: the anchoring rule
/// rolls a passed day into the next year, so a negative offset never
/// arises, and the look-back half of the window admits only offset zero.
pub proof fn lemma_offsets_never_negative(
    entries: Seq<BirthdayEntry>,
    today: Date,
    adv: i64,
    past: i64,
)
    requires
        entries_calendar_valid(entries),
        today.valid(),
    ensures
        forall|k: int|
            0 <= k < spec_evaluate(entries, today, adv, past).len() ==> 0 <= (
            #[trigger] spec_evaluate(entries, today, adv, past)[k]).days_offset <= 731,
{
    let r = spec_evaluate(entries, today, adv, past);
    assert forall|k: int| 0 <= k < r.len() implies 0 <= (#[trigger] r[k]).days_offset
        <= 731 by {
        let ev = r[k];
        assert(r.contains(ev)) by {
            assert(0 <= k < r.len() && r[k] == ev);
        }
        lemma_evaluate_membership(entries, today, adv, past, ev);
        let i = choose|i: int|
            0 <= i < entries.len() && #[trigger] spec_eval_one(entries[i], today) == ev;
        lemma_days_offset_bounds(entries[i].birth_date, today);
    }
}

/// Law: the window bounds are inclusive. An entry whose offset equals
/// `days_in_advance`, or equals `-days_in_past`, appears in the result;
/// no result one unit beyond either bound ever appears.
pub proof fn lemma_window_boundary(
    entries: Seq<BirthdayEntry>,
    today: Date,
    adv: i64,
    past: i64,
    i: int,
)
    requires
        0 <= i < entries.len(),
        0 <= adv,
        0 <= past,
    ensures
        spec_eval_one(entries[i], today).days_offset == adv ==> spec_evaluate(
            entries,
            today,
            adv,
            past,
        ).contains(spec_eval_one(entries[i], today)),
        spec_eval_one(entries[i], today).days_offset == -(past as int) ==> spec_evaluate(
            entries,
            today,
            adv,
            past,
        ).contains(spec_eval_one(entries[i], today)),
        forall|ev: EvaluatedBirthday|
            ev.days_offset > adv || ev.days_offset < -(past as int) ==> !spec_evaluate(
                entries,
                today,
                adv,
                past,
            ).contains(ev),
{
    lemma_evaluate_membership(entries, today, adv, past, spec_eval_one(entries[i], today));
    assert forall|ev: EvaluatedBirthday|
        ev.days_offset > adv || ev.days_offset < -(past as int) implies !spec_evaluate(
        entries,
        today,
        adv,
        past,
    ).contains(ev) by {
        lemma_evaluate_membership(entries, today, adv, past, ev);
    }
}

} // verus!
