//! When the cache looks for entries to refresh ahead of expiry, and how the
//! refreshes are batched.
use vstd::prelude::*;
use vstd::string::StringSliceAdditionalSpecFns;

verus! {

/// Refreshes run at most this many at a time, one batch per second.
pub const MAX_PREFETCH_CONCURRENCY: usize = 16;

/// What a request for a later check does to the pending wake-up.
#[derive(Clone, Copy, Debug, PartialEq, Eq, Structural)]
pub enum NotifyPlan {
    /// Wake the checker now.
    Now,
    /// A wake-up is already due sooner: leave it.
    Keep,
    /// Wake the checker at this time (which becomes the pending wake-up).
    At(u64),
}

/// The plan for a check `duration` after `now` when a wake-up is pending
/// at `tick`: at once for no delay; kept when the pending one is still
/// ahead and comes first; else a new wake-up.
pub open spec fn spec_notify_plan(tick: u64, now: u64, duration: u64) -> NotifyPlan {
    let next = if now + duration > u64::MAX { u64::MAX } else { (now + duration) as u64 };
    if duration == 0 {
        NotifyPlan::Now
    } else if tick > now && next > tick {
        NotifyPlan::Keep
    } else {
        NotifyPlan::At(next)
    }
}

pub fn notify_plan(tick: u64, now: u64, duration: u64) -> (r: NotifyPlan)
    ensures
        r == spec_notify_plan(tick, now, duration),
{
    let next = now.saturating_add(duration);
    if duration == 0 {
        NotifyPlan::Now
    } else if tick > now && next > tick {
        NotifyPlan::Keep
    } else {
        NotifyPlan::At(next)
    }
}

/// Whether enough time has passed since the last check for another one.
pub fn check_due(now: u64, last_check: u64, min_interval: u64) -> (r: bool)
    ensures
        r == (now > last_check && now - last_check > min_interval),
{
    now > last_check && now - last_check > min_interval
}

/// The wait before the next check: until the next entry is due, but no
/// less than the minimum interval.
pub fn next_check_delay(most_recent: u64, min_interval: u64) -> (r: u64)
    ensures
        r == if most_recent > min_interval { most_recent } else { min_interval },
{
    if most_recent > min_interval { most_recent } else { min_interval }
}

/// The value of a decimal number: an optional `+`, then digits.
pub open spec fn digits_value(s: Seq<u8>) -> int
    decreases s.len(),
{
    if s.len() == 0 {
        0
    } else {
        digits_value(s.drop_last()) * 10 + (s.last() - 48)
    }
}

pub open spec fn all_digits(s: Seq<u8>) -> bool {
    forall|i: int| 0 <= i < s.len() ==> 48 <= #[trigger] s[i] <= 57
}

/// The number that `u64::from_str` reads from `s`, if any: an optional
/// `+` and at least one digit, and a value that fits.
pub open spec fn parse_u64(s: Seq<u8>) -> Option<u64> {
    let d = if s.len() > 0 && s[0] == 43u8 { s.drop_first() } else { s };
    if d.len() > 0 && all_digits(d) && digits_value(d) <= u64::MAX {
        Some(digits_value(d) as u64)
    } else {
        None
    }
}

proof fn lemma_digits_grow(s: Seq<u8>, i: int)
    requires
        all_digits(s),
        0 <= i <= s.len(),
    ensures
        digits_value(s.take(i)) <= digits_value(s),
        digits_value(s.take(i)) >= 0,
    decreases s.len() - i,
{
    if i < s.len() {
        lemma_digits_grow(s, i + 1);
        assert(s.take(i + 1).drop_last() =~= s.take(i));
    } else {
        assert(s.take(i) =~= s);
    }
    lemma_digits_nonneg(s.take(i));
}

proof fn lemma_digits_nonneg(s: Seq<u8>)
    requires
        all_digits(s),
    ensures
        digits_value(s) >= 0,
    decreases s.len(),
{
    if s.len() > 0 {
        lemma_digits_nonneg(s.drop_last());
    }
}

/// Reads an unsigned number as `u64::from_str` does.
pub fn read_u64(text: &str) -> (r: Option<u64>)
    ensures
        r == parse_u64(text.spec_bytes()),
{
    let b = text.as_bytes();
    let ghost s = b@;
    assert(s == text.spec_bytes());
    let start: usize = if b.len() > 0 && b[0] == 43u8 { 1 } else { 0 };
    let ghost d = if s.len() > 0 && s[0] == 43u8 { s.drop_first() } else { s };
    assert(d =~= s.skip(start as int));
    if start >= b.len() {
        return None;
    }
    let mut value: u64 = 0;
    let mut i: usize = start;
    while i < b.len()
        invariant
            start <= i <= b@.len(),
            s == b@,
            s == text.spec_bytes(),
            d == (if s.len() > 0 && s[0] == 43u8 { s.drop_first() } else { s }),
            d == s.skip(start as int),
            all_digits(d.take(i - start)),
            value == digits_value(d.take(i - start)),
        decreases b.len() - i,
    {
        let c = b[i];
        if c < 48 || c > 57 {
            assert(d[i - start] == c);
            assert(!all_digits(d));
            return None;
        }
        assert(d.take(i - start + 1).drop_last() =~= d.take(i - start));
        assert(d.take(i - start + 1).last() == c);
        if value > (u64::MAX - (c - 48) as u64) / 10 {
            assert(value * 10 + (c - 48) > u64::MAX) by (nonlinear_arith)
                requires
                    value > (u64::MAX - (c - 48) as u64) / 10,
                    48 <= c <= 57,
            ;
            proof {
                assert(all_digits(d.take(i - start + 1)));
                assert(digits_value(d.take(i - start + 1)) == value * 10 + (c - 48));
                if all_digits(d) {
                    lemma_digits_grow(d, i - start + 1);
                    assert(digits_value(d) > u64::MAX);
                }
            }
            return None;
        }
        assert(value * 10 + (c - 48) <= u64::MAX) by (nonlinear_arith)
            requires
                value <= (u64::MAX - (c - 48) as u64) / 10,
                48 <= c <= 57,
        ;
        value = value * 10 + (c - 48) as u64;
        i = i + 1;
    }
    assert(d.take(i - start) =~= d);
    Some(value)
}

/// The least time between checks (seconds): the configured text read as a
/// number, or 1.
pub fn min_interval_of(text: Option<&str>) -> (r: u64)
    ensures
        r == match text {
            Some(t) => match parse_u64(t.spec_bytes()) {
                Some(v) => v,
                None => 1,
            },
            None => 1,
        },
{
    match text {
        Some(t) => match read_u64(t) {
            Some(v) => v,
            None => 1,
        },
        None => 1,
    }
}

/// The items of the batches, in order.
pub open spec fn concat<T>(batches: Seq<Vec<T>>) -> Seq<T>
    decreases batches.len(),
{
    if batches.len() == 0 {
        Seq::empty()
    } else {
        concat(batches.drop_last()) + batches.last()@
    }
}

/// The refreshes in batches of `size`, in order: no batch is empty or
/// larger than `size`, every batch but the last is full, and together they
/// are the list.
pub open spec fn batched<T>(batches: Seq<Vec<T>>, items: Seq<T>, size: nat) -> bool {
    &&& concat(batches) == items
    &&& forall|b: int| 0 <= b < batches.len() ==> 0 < (#[trigger] batches[b])@.len() <= size
    &&& forall|b: int| 0 <= b < batches.len() - 1 ==> (#[trigger] batches[b])@.len() == size
}

/// Splits the refreshes into batches of `size`.
pub fn prefetch_batches<T>(items: Vec<T>, size: usize) -> (r: Vec<Vec<T>>)
    requires
        size > 0,
    ensures
        batched(r@, items@, size as nat),
{
    let count = items.len();
    let ghost all = items@;
    let mut batches: Vec<Vec<T>> = Vec::new();
    let mut current: Vec<T> = Vec::new();
    let mut rest = items;
    let mut taken: usize = 0;
    assert(rest@ =~= all.subrange(0, all.len() as int));
    assert(concat(batches@) + current@ =~= all.subrange(0, 0));
    while rest.len() > 0
        invariant
            size > 0,
            all.len() <= usize::MAX,
            taken + rest@.len() == all.len(),
            rest@ == all.subrange(taken as int, all.len() as int),
            concat(batches@) + current@ == all.subrange(0, taken as int),
            current@.len() < size,
            forall|b: int| 0 <= b < batches@.len() ==> (#[trigger] batches@[b])@.len() == size,
        decreases rest.len(),
    {
        let item = rest.remove(0);
        proof {
            assert(item == all[taken as int]);
        }
        let ghost c0 = current@;
        current.push(item);
        taken = taken + 1;
        assert(all.subrange(0, taken as int) =~= all.subrange(0, taken - 1).push(item));
        assert(concat(batches@) + current@ =~= (concat(batches@) + c0).push(item));
        assert(rest@ =~= all.subrange(taken as int, all.len() as int));
        assert(concat(batches@) + current@ =~= all.subrange(0, taken as int));
        if current.len() == size {
            let full = current;
            current = Vec::new();
            let ghost b0 = batches@;
            batches.push(full);
            assert(batches@.drop_last() =~= b0);
            assert(concat(batches@) + current@ =~= all.subrange(0, taken as int));
        }
    }
    assert(all.subrange(0, taken as int) =~= all);
    if current.len() > 0 {
        let ghost b0 = batches@;
        batches.push(current);
        assert(batches@.drop_last() =~= b0);
    } else {
        assert(concat(batches@) + current@ =~= concat(batches@));
    }
    batches
}

} // verus!
