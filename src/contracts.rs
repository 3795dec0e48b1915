//! The submission guard: a minimum interval between two submissions from one address.
use vstd::prelude::*;
use vstd::string::StringExecFns;
use crate::error::LedgerError;
use crate::primitives::now_seconds;

verus! {

/// The models of a list of `(address, time)` entries.
pub open spec fn times_view(s: Seq<(String, u64)>) -> Seq<(Seq<char>, u64)> {
    s.map_values(|e: (String, u64)| e@)
}

/// The time last recorded for each address: later entries win.
pub open spec fn times_map(s: Seq<(Seq<char>, u64)>) -> Map<Seq<char>, u64>
    decreases s.len(),
{
    if s.len() == 0 {
        Map::empty()
    } else {
        times_map(s.drop_last()).insert(s.last().0, s.last().1)
    }
}

/// The seconds that have passed since `last`; none when the clock reads earlier.
pub open spec fn elapsed(now: u64, last: u64) -> int {
    if now >= last { now - last } else { 0 }
}

/// Records the time of each address's last accepted submission.
pub struct RateLimitContract {
    pub last_transaction_times: Vec<(String, u64)>,
    pub minimum_interval_seconds: u64,
}

impl RateLimitContract {
    pub open spec fn spec_times(&self) -> Map<Seq<char>, u64> {
        times_map(times_view(self.last_transaction_times@))
    }

    /// A guard with no submissions recorded.
    pub fn new(minimum_interval_seconds: u64) -> (r: RateLimitContract)
        ensures
            r.spec_times() == Map::<Seq<char>, u64>::empty(),
            r.minimum_interval_seconds == minimum_interval_seconds,
    {
        RateLimitContract { last_transaction_times: Vec::new(), minimum_interval_seconds }
    }

    /// The time last recorded for `wallet_address`.
    fn last_time(&self, wallet_address: &String) -> (r: Option<u64>)
        ensures
            match r {
                Some(t) => self.spec_times().contains_key(wallet_address@) && self.spec_times()[wallet_address@] == t,
                None => !self.spec_times().contains_key(wallet_address@),
            },
    {
        let ghost all = times_view(self.last_transaction_times@);
        let mut found: Option<u64> = None;
        let mut i: usize = 0;
        while i < self.last_transaction_times.len()
            invariant
                i <= self.last_transaction_times@.len(),
                all == times_view(self.last_transaction_times@),
                match found {
                    Some(t) => times_map(all.subrange(0, i as int)).contains_key(wallet_address@)
                        && times_map(all.subrange(0, i as int))[wallet_address@] == t,
                    None => !times_map(all.subrange(0, i as int)).contains_key(wallet_address@),
                },
            decreases self.last_transaction_times@.len() - i,
        {
            proof {
                let next = all.subrange(0, i + 1);
                assert(next.drop_last() =~= all.subrange(0, i as int));
                assert(next.last() == self.last_transaction_times@[i as int]@);
            }
            if self.last_transaction_times[i].0 == *wallet_address {
                found = Some(self.last_transaction_times[i].1);
            }
            i = i + 1;
        }
        assert(all.subrange(0, i as int) =~= all);
        found
    }

    /// Admits a submission from `wallet_address` at time `now` (seconds), unless the last
    /// admitted one is less than the interval before it: then `RateLimited` with the
    /// seconds still to wait, and nothing recorded. An admitted submission records `now`.
    pub fn execute_at(&mut self, wallet_address: &str, now: u64) -> (r: Result<(), LedgerError>)
        ensures
            final(self).minimum_interval_seconds == old(self).minimum_interval_seconds,
            ({
                let times = old(self).spec_times();
                let limit = old(self).minimum_interval_seconds;
                if times.contains_key(wallet_address@) && elapsed(now, times[wallet_address@]) < limit {
                    &&& r matches Err(e) && e matches LedgerError::RateLimited(wait)
                        && wait == limit - elapsed(now, times[wallet_address@])
                    &&& final(self).spec_times() == times
                } else {
                    &&& r is Ok
                    &&& final(self).spec_times() == times.insert(wallet_address@, now)
                }
            }),
    {
        let key = String::from_str(wallet_address);
        match self.last_time(&key) {
            Some(last) => {
                let passed: u64 = if now >= last { now - last } else { 0 };
                if passed < self.minimum_interval_seconds {
                    return Err(LedgerError::RateLimited(self.minimum_interval_seconds - passed));
                }
            },
            None => {},
        }
        let ghost before = times_view(self.last_transaction_times@);
        self.last_transaction_times.push((key, now));
        assert(times_view(self.last_transaction_times@).drop_last() =~= before);
        Ok(())
    }

    /// Admits a submission from `wallet_address` now, as `execute_at` says; `ClockUnavailable`
    /// when the clock reads before the Unix epoch.
    pub fn execute(&mut self, wallet_address: &str) -> (r: Result<(), LedgerError>)
        ensures
            final(self).minimum_interval_seconds == old(self).minimum_interval_seconds,
            r matches Err(e) ==> e is ClockUnavailable || e is RateLimited,
            r is Ok ==> exists|now: u64| #[trigger] final(self).spec_times() == old(self).spec_times().insert(
                wallet_address@,
                now,
            ),
    {
        match now_seconds() {
            Some(now) => self.execute_at(wallet_address, now),
            None => Err(LedgerError::ClockUnavailable),
        }
    }
}

} // verus!
