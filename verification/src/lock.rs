use std::sync::Arc;
use vstd::prelude::*;

verus! {

/// Largest supported process count. Level numbers live in the `flag` slots as
/// `i32` values, so `P - 2` must fit in an `i32`.
pub const MAX_PROCESSES: usize = 0x7fff_ffff;

/// Rejected configurations. A misconfiguration fails fast, before any worker
/// starts; it is distinct from the two fatal oracle findings.
#[derive(Clone, Copy, Debug, PartialEq, Eq, Structural)]
pub enum ConfigError {
    /// The protocol needs at least two processes: with fewer, the level
    /// ladder is vacuous and would silently provide no exclusion.
    TooFewProcesses,
    /// A level number would not fit in a `flag` slot.
    TooManyProcesses,
}

/// Shared state of the generalized filter lock for `P` processes.
///
/// * `flag[i]` is process `i`'s contention level: `-1` means "not
///   contending"; `k` in `[0, P-2]` means "contending at level `k` or past
///   it". Written only by process `i`, read by all.
/// * `turn[k]` holds the id of the most recent claimant of level `k`, the
///   tie-break loser when two processes contend the same level. Written and
///   read by every contending process.
pub struct FilterLock {
    pub flag: Vec<i32>,
    pub turn: Vec<usize>,
}

impl FilterLock {
    /// The number of processes `P`.
    pub open spec fn p(self) -> int {
        self.flag@.len() as int
    }

    /// Process `j`'s contention level, as a mathematical integer.
    pub open spec fn flag_at(self, j: int) -> int {
        self.flag@[j] as int
    }

    /// The most recent claimant of level `k`, as a mathematical integer.
    pub open spec fn turn_at(self, k: int) -> int {
        self.turn@[k] as int
    }

    /// Well-formedness: sizes match and every slot is in its domain.
    pub open spec fn wf(self) -> bool {
        &&& 2 <= self.p() <= MAX_PROCESSES
        &&& self.turn@.len() == self.p() - 1
        &&& forall|j: int| 0 <= j < self.p() ==> -1 <= #[trigger] self.flag_at(j) <= self.p() - 2
        &&& forall|k: int| 0 <= k < self.p() - 1 ==> 0 <= #[trigger] self.turn_at(k) < self.p()
    }

    /// The blocking predicate of the busy-wait at level `k`, seen by process
    /// `i`: some other process is contending at level `k` or higher, and `i`
    /// is still the most recent claimant of level `k`.
    pub open spec fn blocked_spec(self, i: int, k: int) -> bool {
        exists|j: int|
            0 <= j < self.p() && j != i && #[trigger] self.flag_at(j) >= k && self.turn_at(k) == i
    }

    /// Fresh shared state for `p` processes: nobody contends (`flag` all
    /// `-1`), every tie-break slot starts at process `0`.
    pub fn new(p: usize) -> (r: Result<FilterLock, ConfigError>)
        ensures
            p < 2 ==> r == Err::<FilterLock, ConfigError>(ConfigError::TooFewProcesses),
            p > MAX_PROCESSES ==> r == Err::<FilterLock, ConfigError>(ConfigError::TooManyProcesses),
            2 <= p <= MAX_PROCESSES ==> (r matches Ok(l) && l.p() == p && l.wf()
                && (forall|j: int| 0 <= j < p ==> #[trigger] l.flag_at(j) == -1)
                && (forall|k: int| 0 <= k < p - 1 ==> #[trigger] l.turn_at(k) == 0)),
    {
        if p < 2 {
            return Err(ConfigError::TooFewProcesses);
        }
        if p > MAX_PROCESSES {
            return Err(ConfigError::TooManyProcesses);
        }
        let mut flag: Vec<i32> = Vec::new();
        let mut n: usize = 0;
        while n < p
            invariant
                n <= p,
                flag@.len() == n,
                forall|j: int| 0 <= j < n ==> flag@[j] == -1i32,
            decreases p - n,
        {
            flag.push(-1);
            n += 1;
        }
        let mut turn: Vec<usize> = Vec::new();
        let mut m: usize = 0;
        while m < p - 1
            invariant
                p >= 2,
                m <= p - 1,
                turn@.len() == m,
                forall|k: int| 0 <= k < m ==> turn@[k] == 0usize,
            decreases p - 1 - m,
        {
            turn.push(0);
            m += 1;
        }
        Ok(FilterLock { flag, turn })
    }

    /// Evaluates the blocking predicate at level `k` for process `i`.
    ///
    /// This is the loop condition of the busy-wait in `acquire`: process `i`
    /// keeps polling while this returns true.
    pub fn blocked(&self, i: usize, k: usize) -> (r: bool)
        requires
            self.wf(),
            i < self.p(),
            k < self.p() - 1,
        ensures
            r == self.blocked_spec(i as int, k as int),
    {
        let p = self.flag.len();
        let level = k as i32;
        let mut found: bool = false;
        let mut j: usize = 0;
        while j < p
            invariant
                self.wf(),
                i < self.p(),
                k < self.p() - 1,
                level == k as i32,
                j <= p,
                p == self.p(),
                found == exists|j0: int|
                    0 <= j0 < j && j0 != i && #[trigger] self.flag_at(j0) >= k
                        && self.turn_at(k as int) == i,
            decreases p - j,
        {
            proof {
                assert((k as i32) as int == k as int);
            }
            let hit = j != i && self.flag[j] >= level && self.turn[k] == i;
            proof {
                assert(hit == (j != i && self.flag_at(j as int) >= k && self.turn_at(k as int)
                    == i));
            }
            if hit {
                found = true;
            }
            j += 1;
        }
        found
    }

    /// `release(i)`: process `i` stops contending. Setting `flag[i] = -1` is
    /// the sole signal that unblocks anyone whose blocking predicate was
    /// keyed on `i`.
    pub fn release(&mut self, i: usize)
        requires
            i < old(self).p(),
        ensures
            final(self).flag@ == old(self).flag@.update(i as int, -1i32),
            final(self).turn@ == old(self).turn@,
    {
        self.flag[i] = -1;
    }
}

/// Harness-owned shared storage. The shared containers must outlive every
/// worker, so they are handed out by reference counting instead of the leaked
/// raw allocations a racy demonstration might otherwise use: the value is
/// dropped when the last worker is done with it.
pub fn create_shared_memory<T>(val: T) -> (r: Arc<T>)
    ensures
        r == val,
{
    Arc::new(val)
}

} // verus!
