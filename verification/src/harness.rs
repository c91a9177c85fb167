use crate::lock::{ConfigError, FilterLock, MAX_PROCESSES};
use crate::oracle::{HotPotato, Violation};
use vstd::prelude::*;
use vstd::set_lib::{lemma_int_range, lemma_len_subset, set_int_range};

verus! {

broadcast use vstd::set::group_set_axioms;

/// Program counter of one worker. Each shared-memory access of the protocol
/// is one atomic step of the model, so the counter records exactly where a
/// worker stands between accesses.
#[derive(Clone, Copy, Debug, PartialEq, Eq, Structural)]
pub enum Phase {
    /// Between rounds: not contending (`flag[i] == -1`).
    Idle,
    /// About to declare contention with `flag[i] = k`.
    SetFlag { k: usize },
    /// Has declared level `k`; about to concede the tie with `turn[k] = i`.
    SetTurn { k: usize },
    /// Busy-waiting at level `k`, polling the blocking predicate.
    Poll { k: usize },
    /// Inside the critical section, past every level.
    Crit,
}

/// What one atomic step of a worker did.
#[derive(Clone, Copy, Debug, PartialEq, Eq, Structural)]
pub enum StepEvent {
    /// An idle worker with rounds left began a new acquire at level 0.
    Started,
    /// The worker wrote its `flag` slot for the current level.
    FlagSet,
    /// The worker wrote the `turn` slot of the current level.
    TurnSet,
    /// The blocking predicate held; the worker keeps polling.
    Waited,
    /// The blocking predicate was clear; the worker moved up one level.
    Advanced,
    /// The worker cleared the last level and seized the oracle.
    Entered,
    /// The worker left the critical section and finished a round.
    Released,
    /// The worker has completed all its rounds; nothing to do.
    Finished,
}

/// The whole interleaving model: the shared protocol state, the oracle, one
/// program counter per worker, and the round bookkeeping of the harness.
///
/// `step` advances one worker by one atomic action. With `enabled` set, the
/// invariant of this transition system proves mutual exclusion, so the oracle
/// can never fire. With `enabled` cleared — the deliberately broken mode —
/// the busy-wait is skipped and the oracle detects the resulting race.
pub struct System {
    pub lock: FilterLock,
    pub oracle: HotPotato,
    pub pcs: Vec<Phase>,
    pub done: Vec<usize>,
    pub rounds: usize,
    pub enabled: bool,
}

impl System {
    /// The number of workers `P`.
    pub open spec fn p(self) -> int {
        self.lock.p()
    }

    pub open spec fn flag_at(self, j: int) -> int {
        self.lock.flag_at(j)
    }

    pub open spec fn turn_at(self, k: int) -> int {
        self.lock.turn_at(k)
    }

    pub open spec fn pc(self, i: int) -> Phase {
        self.pcs@[i]
    }

    /// Worker `i` is inside the critical section.
    pub open spec fn at_crit(self, i: int) -> bool {
        self.pc(i) is Crit
    }

    /// Worker `i` is polling at exactly level `lvl`.
    pub open spec fn at_poll(self, i: int, lvl: int) -> bool {
        self.pc(i) matches Phase::Poll { k } && k == lvl
    }

    /// Worker `i` has written `flag[i]` for level `lvl` but not yet
    /// `turn[lvl]`.
    pub open spec fn at_set_turn(self, i: int, lvl: int) -> bool {
        self.pc(i) matches Phase::SetTurn { k } && k == lvl
    }

    /// Worker `i` has passed the busy-wait of level `lvl`: it stands strictly
    /// above it on the ladder.
    pub open spec fn beyond(self, i: int, lvl: int) -> bool {
        match self.pc(i) {
            Phase::Idle => false,
            Phase::SetFlag { k } => k > lvl,
            Phase::SetTurn { k } => k > lvl,
            Phase::Poll { k } => k > lvl,
            Phase::Crit => true,
        }
    }

    /// The workers that have passed the busy-wait of level `lvl`.
    pub open spec fn beyond_set(self, lvl: int) -> Set<int> {
        Set::new(|i: int| 0 <= i < self.p() && self.beyond(i, lvl))
    }

    /// Levels carried by a phase are on the ladder: in `[0, P-2]`.
    pub open spec fn phase_wf_at(self, i: int) -> bool {
        match self.pc(i) {
            Phase::Idle => true,
            Phase::SetFlag { k } => k <= self.p() - 2,
            Phase::SetTurn { k } => k <= self.p() - 2,
            Phase::Poll { k } => k <= self.p() - 2,
            Phase::Crit => true,
        }
    }

    /// `flag[i]` is exactly what worker `i`'s program counter says it last
    /// wrote: `-1` when idle or about to write level 0, `k - 1` on the way to
    /// writing level `k`, `k` at level `k`, `P - 2` in the critical section.
    pub open spec fn flag_pc_at(self, i: int) -> bool {
        match self.pc(i) {
            Phase::Idle => self.flag_at(i) == -1,
            Phase::SetFlag { k } => self.flag_at(i) == k - 1,
            Phase::SetTurn { k } => self.flag_at(i) == k,
            Phase::Poll { k } => self.flag_at(i) == k,
            Phase::Crit => self.flag_at(i) == self.p() - 2,
        }
    }

    /// Sizes, domains and bookkeeping bounds.
    pub open spec fn wf(self) -> bool {
        &&& self.lock.wf()
        &&& self.pcs@.len() == self.p()
        &&& self.done@.len() == self.p()
        &&& forall|i: int| 0 <= i < self.p() ==> #[trigger] self.phase_wf_at(i)
        &&& forall|i: int| 0 <= i < self.p() ==> #[trigger] self.done@[i] <= self.rounds
        &&& forall|i: int|
            0 <= i < self.p() && !(self.pc(i) is Idle) ==> #[trigger] self.done@[i] < self.rounds
    }

    /// The oracle flag is held exactly while some worker is in the critical
    /// section.
    pub open spec fn oracle_sync(self) -> bool {
        self.oracle.is_held() <==> exists|i: int| 0 <= i < self.p() && #[trigger] self.at_crit(i)
    }

    /// Mutual exclusion: at most one worker in the critical section.
    pub open spec fn mutex_now(self) -> bool {
        forall|i: int, j: int|
            #![trigger self.at_crit(i), self.at_crit(j)]
            0 <= i < self.p() && 0 <= j < self.p() && i != j ==> !(self.at_crit(i) && self.at_crit(
                j,
            ))
    }

    /// Tie-break priority at level `lvl`, pointwise: if worker `a` got past
    /// the busy-wait of `lvl` while still being the most recent claimant of
    /// `lvl`, then at the moment it passed nobody else contended at `lvl` or
    /// above — and that stays true until `turn[lvl]` is overwritten, except
    /// for workers that have set their flag for `lvl` but not yet the turn.
    pub open spec fn g_at(self, lvl: int, a: int) -> bool {
        (self.beyond(a, lvl) && self.turn_at(lvl) == a) ==> forall|b: int|
            0 <= b < self.p() && b != a ==> (self.flag_at(b) < lvl || #[trigger] self.at_set_turn(
                b,
                lvl,
            ))
    }

    /// While anyone is past the busy-wait of level `lvl`, the most recent
    /// claimant of `lvl` is still contending at `lvl` or above.
    pub open spec fn u_at(self, lvl: int) -> bool {
        (exists|a: int| 0 <= a < self.p() && #[trigger] self.beyond(a, lvl)) ==> self.flag_at(
            self.turn_at(lvl),
        ) >= lvl
    }

    /// While worker `b` polls at level `lvl`, either `b` itself is the most
    /// recent claimant, or that claimant is still contending at `lvl` or
    /// above.
    pub open spec fn v_at(self, lvl: int, b: int) -> bool {
        self.at_poll(b, lvl) ==> (self.turn_at(lvl) == b || self.flag_at(self.turn_at(lvl)) >= lvl)
    }

    /// The ladder bound: at most `P - 1 - lvl` workers are past the busy-wait
    /// of level `lvl`. At the last level this is mutual exclusion.
    pub open spec fn ladder_at(self, lvl: int) -> bool {
        self.beyond_set(lvl).len() <= self.p() - 1 - lvl
    }

    /// The always-maintained part of the invariant: it holds whether or not
    /// the blocking predicate is enabled, because the oracle itself gates
    /// entry into `Crit` in the model.
    pub open spec fn inv_basic(self) -> bool {
        &&& self.wf()
        &&& forall|i: int| 0 <= i < self.p() ==> #[trigger] self.flag_pc_at(i)
        &&& self.oracle_sync()
        &&& self.mutex_now()
    }

    /// The protocol invariant proper. It is inductive only while the blocking
    /// predicate is enabled: a worker that skips the busy-wait breaks it.
    pub open spec fn inv_strong(self) -> bool {
        &&& forall|lvl: int, a: int|
            0 <= lvl < self.p() - 1 && 0 <= a < self.p() ==> #[trigger] self.g_at(lvl, a)
        &&& forall|lvl: int| 0 <= lvl < self.p() - 1 ==> #[trigger] self.u_at(lvl)
        &&& forall|lvl: int, b: int|
            0 <= lvl < self.p() - 1 && 0 <= b < self.p() ==> #[trigger] self.v_at(lvl, b)
        &&& forall|lvl: int| 0 <= lvl < self.p() - 1 ==> #[trigger] self.ladder_at(lvl)
    }

    /// The full invariant of the transition system.
    pub open spec fn inv(self) -> bool {
        &&& self.inv_basic()
        &&& self.enabled ==> self.inv_strong()
    }

    /// A fresh harness: `p` workers, each owing `rounds` rounds, all idle,
    /// nothing contended, the oracle free. `enabled` selects whether the
    /// busy-wait honours the blocking predicate; clearing it is the
    /// deliberately broken mode of the negative control.
    pub fn new(p: usize, rounds: usize, enabled: bool) -> (r: Result<System, ConfigError>)
        ensures
            p < 2 ==> r == Err::<System, ConfigError>(ConfigError::TooFewProcesses),
            p > MAX_PROCESSES ==> r == Err::<System, ConfigError>(ConfigError::TooManyProcesses),
            2 <= p <= MAX_PROCESSES ==> (r matches Ok(s) && s.inv() && s.p() == p && s.rounds
                == rounds && s.enabled == enabled && !s.oracle.is_held() && (forall|i: int|
                0 <= i < p ==> #[trigger] s.pc(i) is Idle) && (forall|i: int|
                0 <= i < p ==> #[trigger] s.done@[i] == 0) && (forall|k: int|
                0 <= k < p - 1 ==> #[trigger] s.turn_at(k) == 0)),
    {
        let lock = match FilterLock::new(p) {
            Ok(l) => l,
            Err(e) => {
                return Err(e);
            },
        };
        let mut pcs: Vec<Phase> = Vec::new();
        let mut done: Vec<usize> = Vec::new();
        let mut n: usize = 0;
        while n < p
            invariant
                n <= p,
                pcs@.len() == n,
                done@.len() == n,
                forall|i: int| 0 <= i < n ==> pcs@[i] is Idle,
                forall|i: int| 0 <= i < n ==> done@[i] == 0usize,
            decreases p - n,
        {
            pcs.push(Phase::Idle);
            done.push(0);
            n += 1;
        }
        let s = System { lock, oracle: HotPotato::new(), pcs, done, rounds, enabled };
        proof {
            s.lemma_initial_inv();
        }
        Ok(s)
    }

    /// The initial state satisfies the invariant: with every worker idle,
    /// every clause is vacuous or immediate.
    proof fn lemma_initial_inv(self)
        requires
            self.lock.wf(),
            self.pcs@.len() == self.p(),
            self.done@.len() == self.p(),
            forall|i: int| 0 <= i < self.p() ==> #[trigger] self.pc(i) is Idle,
            forall|i: int| 0 <= i < self.p() ==> #[trigger] self.done@[i] == 0usize,
            forall|j: int| 0 <= j < self.p() ==> #[trigger] self.flag_at(j) == -1,
            !self.oracle.is_held(),
        ensures
            self.inv(),
    {
        assert forall|i: int| 0 <= i < self.p() implies #[trigger] self.phase_wf_at(i) by {
            assert(self.pc(i) is Idle);
        }
        assert forall|i: int| 0 <= i < self.p() implies #[trigger] self.flag_pc_at(i) by {
            assert(self.pc(i) is Idle);
        }
        assert forall|lvl: int, a: int|
            0 <= lvl < self.p() - 1 && 0 <= a < self.p() implies #[trigger] self.g_at(lvl, a) by {
            assert(self.pc(a) is Idle);
            assert(!self.beyond(a, lvl));
        }
        assert forall|lvl: int| 0 <= lvl < self.p() - 1 implies #[trigger] self.u_at(lvl) by {
            assert forall|a: int| 0 <= a < self.p() implies !(#[trigger] self.beyond(a, lvl)) by {
                assert(self.pc(a) is Idle);
            }
        }
        assert forall|lvl: int, b: int|
            0 <= lvl < self.p() - 1 && 0 <= b < self.p() implies #[trigger] self.v_at(lvl, b) by {
            assert(self.pc(b) is Idle);
            assert(!self.at_poll(b, lvl));
        }
        assert forall|lvl: int| 0 <= lvl < self.p() - 1 implies #[trigger] self.ladder_at(lvl) by {
            assert forall|a: int| 0 <= a < self.p() implies !(#[trigger] self.beyond(a, lvl)) by {
                assert(self.pc(a) is Idle);
            }
            assert(self.beyond_set(lvl) =~= Set::<int>::empty());
        }
    }

    /// Past the busy-wait of `lvl` means contending at `lvl` or above, and in
    /// particular past the turn write of `lvl`.
    proof fn lemma_beyond_flag(self, a: int, lvl: int)
        requires
            0 <= a < self.p(),
            self.flag_pc_at(a),
            self.beyond(a, lvl),
            0 <= lvl < self.p() - 1,
        ensures
            self.flag_at(a) >= lvl,
            !self.at_set_turn(a, lvl),
            !self.at_poll(a, lvl),
    {
    }

    /// Contending at `lvl` or above means past the busy-wait of `lvl - 1`.
    proof fn lemma_flag_beyond_prev(self, a: int, lvl: int)
        requires
            0 <= a < self.p(),
            self.flag_pc_at(a),
            self.flag_at(a) >= lvl,
            lvl >= 1,
        ensures
            self.beyond(a, lvl - 1),
    {
    }

    /// `beyond_set` is a set of worker ids, hence finite and at most `P`
    /// strong.
    proof fn lemma_beyond_set_finite(self, lvl: int)
        requires
            self.p() >= 0,
        ensures
            self.beyond_set(lvl).finite(),
            self.beyond_set(lvl).len() <= self.p(),
    {
        lemma_int_range(0, self.p());
        assert(self.beyond_set(lvl).subset_of(set_int_range(0, self.p())));
        lemma_len_subset(self.beyond_set(lvl), set_int_range(0, self.p()));
    }

    /// The counting heart of the safety proof. If worker `i`, polling at
    /// level `k`, sees the blocking predicate clear, then at most `P - 2 - k`
    /// workers are past level `k`: there is room for `i` above.
    ///
    /// The argument is the classical one, made state-local by the `g`/`u`/`v`
    /// clauses: were the level full, the tie-break holder `turn[k]` would be
    /// yet another worker contending at `k` or above, and together with `i`
    /// that crowd would exceed the ladder bound one level below.
    proof fn lemma_pass_not_full(self, i: int, k: int)
        requires
            self.inv_basic(),
            self.inv_strong(),
            0 <= i < self.p(),
            0 <= k < self.p() - 1,
            self.at_poll(i, k),
            !self.lock.blocked_spec(i, k),
        ensures
            self.beyond_set(k).finite(),
            self.beyond_set(k).len() <= self.p() - 2 - k,
    {
        let p = self.p();
        let s = self.beyond_set(k);
        self.lemma_beyond_set_finite(k);
        if s.len() > p - 2 - k {
            // The level is full: find a worker past it.
            assert(s.len() >= 1);
            assert(exists|b: int| s.contains(b)) by {
                if forall|b: int| !(#[trigger] s.contains(b)) {
                    assert(s =~= Set::<int>::empty());
                }
            }
            let b = choose|b: int| s.contains(b);
            assert(self.beyond(b, k));
            self.lemma_beyond_flag(b, k);
            assert(b != i);
            // `i` polls unblocked while `b` contends at `k` or above, so `i`
            // is not the tie-break holder.
            assert(self.turn_at(k) != i) by {
                if self.turn_at(k) == i {
                    assert(0 <= b < p && b != i && self.flag_at(b) >= k && self.turn_at(k) == i);
                    assert(self.lock.blocked_spec(i, k));
                }
            }
            let t = self.turn_at(k);
            assert(0 <= t < p);
            // The tie-break holder contends at `k` or above (u), and is not
            // itself past the level (g, witnessed by `i` polling at `k`).
            assert(self.u_at(k));
            assert(self.flag_at(t) >= k);
            assert(!s.contains(t)) by {
                if s.contains(t) {
                    assert(self.g_at(k, t));
                    assert(self.flag_at(i) < k || self.at_set_turn(i, k));
                    assert(self.flag_pc_at(i));
                }
            }
            // So `s`, `i` and `t` are pairwise-distinct workers all
            // contending at `k` or above.
            let crowd = s.insert(i).insert(t);
            assert(crowd.len() == s.len() + 2);
            assert(crowd.len() >= p + 1 - k);
            if k == 0 {
                lemma_int_range(0, p);
                assert(crowd.subset_of(set_int_range(0, p)));
                lemma_len_subset(crowd, set_int_range(0, p));
                assert(false);
            } else {
                // Everyone in the crowd is past level `k - 1`, whose ladder
                // bound is `P - k`: contradiction.
                let below = self.beyond_set(k - 1);
                assert(crowd.subset_of(below)) by {
                    assert forall|c: int| crowd.contains(c) implies below.contains(c) by {
                        if s.contains(c) {
                            self.lemma_beyond_flag(c, k);
                            self.lemma_flag_beyond_prev(c, k);
                        } else if c == i {
                            assert(self.flag_pc_at(i));
                            self.lemma_flag_beyond_prev(i, k);
                        } else {
                            self.lemma_flag_beyond_prev(t, k);
                        }
                    }
                }
                self.lemma_beyond_set_finite(k - 1);
                lemma_len_subset(crowd, below);
                assert(self.ladder_at(k - 1));
                assert(false);
            }
        }
    }

    /// Oracle synchrony and mutual exclusion carry over any step that leaves
    /// critical-section occupancy and the oracle flag alone.
    proof fn lemma_crit_frame(pre: System, post: System)
        requires
            pre.oracle_sync(),
            pre.mutex_now(),
            post.p() == pre.p(),
            post.oracle.is_held() == pre.oracle.is_held(),
            forall|j: int| 0 <= j < pre.p() ==> #[trigger] post.at_crit(j) == pre.at_crit(j),
        ensures
            post.oracle_sync(),
            post.mutex_now(),
    {
        let p = pre.p();
        if post.oracle.is_held() {
            let w = choose|w: int| 0 <= w < p && #[trigger] pre.at_crit(w);
            assert(pre.at_crit(w));
            assert(post.at_crit(w));
        }
        if exists|w: int| 0 <= w < p && #[trigger] post.at_crit(w) {
            let w = choose|w: int| 0 <= w < p && #[trigger] post.at_crit(w);
            assert(pre.at_crit(w));
        }
        assert forall|a: int, b: int|
            #![trigger post.at_crit(a), post.at_crit(b)]
            0 <= a < p && 0 <= b < p && a != b implies !(post.at_crit(a) && post.at_crit(b)) by {
            assert(post.at_crit(a) == pre.at_crit(a));
            assert(post.at_crit(b) == pre.at_crit(b));
        }
    }

    /// An idle worker with rounds left starts a new acquire: only its program
    /// counter moves, to `SetFlag { k: 0 }`. Every invariant clause carries
    /// over pointwise.
    proof fn lemma_step_start(pre: System, post: System, i: int)
        requires
            pre.inv(),
            0 <= i < pre.p(),
            pre.pc(i) is Idle,
            pre.done@[i] < pre.rounds,
            post.lock.flag@ == pre.lock.flag@,
            post.lock.turn@ == pre.lock.turn@,
            post.pcs@ == pre.pcs@.update(i, Phase::SetFlag { k: 0 }),
            post.done@ == pre.done@,
            post.oracle.is_held() == pre.oracle.is_held(),
            post.rounds == pre.rounds,
            post.enabled == pre.enabled,
        ensures
            post.inv(),
    {
        let p = pre.p();
        assert forall|j: int| 0 <= j < p implies #[trigger] post.phase_wf_at(j) by {
            assert(pre.phase_wf_at(j));
        }
        assert forall|j: int| 0 <= j < p implies #[trigger] post.flag_pc_at(j) by {
            assert(pre.flag_pc_at(j));
        }
        assert forall|j: int| 0 <= j < post.lock.p() implies -1 <= #[trigger] post.lock.flag_at(j)
            <= post.lock.p() - 2 by {
            assert(-1 <= pre.lock.flag_at(j) <= p - 2);
        }
        assert forall|lvl: int| 0 <= lvl < post.lock.p() - 1 implies 0
            <= #[trigger] post.lock.turn_at(lvl) < post.lock.p() by {
            assert(0 <= pre.lock.turn_at(lvl) < p);
        }
        assert(post.lock.wf());
        assert forall|j: int| 0 <= j < p implies #[trigger] post.done@[j] <= post.rounds by {
            assert(pre.done@[j] <= pre.rounds);
        }
        assert forall|j: int| 0 <= j < p && !(post.pc(j) is Idle) implies #[trigger] post.done@[j]
            < post.rounds by {
            if j != i {
                assert(pre.done@[j] < pre.rounds);
            }
        }
        assert forall|j: int| 0 <= j < p implies #[trigger] post.at_crit(j) == pre.at_crit(j) by {}
        Self::lemma_crit_frame(pre, post);
        if post.enabled {
            assert forall|a: int, lvl: int| 0 <= a < p && 0 <= lvl implies #[trigger] post.beyond(
                a,
                lvl,
            ) == pre.beyond(a, lvl) by {}
            assert forall|lvl: int, a: int|
                0 <= lvl < p - 1 && 0 <= a < p implies #[trigger] post.g_at(lvl, a) by {
                if post.beyond(a, lvl) && post.turn_at(lvl) == a {
                    assert(pre.g_at(lvl, a));
                    assert(pre.beyond(a, lvl));
                    assert forall|b: int| 0 <= b < p && b != a implies (post.flag_at(b) < lvl
                        || #[trigger] post.at_set_turn(b, lvl)) by {
                        assert(pre.flag_at(b) < lvl || pre.at_set_turn(b, lvl));
                        assert(post.at_set_turn(b, lvl) == pre.at_set_turn(b, lvl));
                    }
                }
            }
            assert forall|lvl: int| 0 <= lvl < p - 1 implies #[trigger] post.u_at(lvl) by {
                if exists|a: int| 0 <= a < p && #[trigger] post.beyond(a, lvl) {
                    let a = choose|a: int| 0 <= a < p && #[trigger] post.beyond(a, lvl);
                    assert(pre.beyond(a, lvl));
                    assert(pre.u_at(lvl));
                }
            }
            assert forall|lvl: int, b: int|
                0 <= lvl < p - 1 && 0 <= b < p implies #[trigger] post.v_at(lvl, b) by {
                if post.at_poll(b, lvl) {
                    assert(pre.at_poll(b, lvl));
                    assert(pre.v_at(lvl, b));
                }
            }
            assert forall|lvl: int| 0 <= lvl < p - 1 implies #[trigger] post.ladder_at(lvl) by {
                assert(pre.ladder_at(lvl));
                assert(post.beyond_set(lvl) =~= pre.beyond_set(lvl));
            }
        }
    }

    /// A worker writes its `flag` slot for level `k` and moves on to the turn
    /// write. Its flag rises from `k - 1` to `k`; since the tie-break clause
    /// `g` tolerates exactly a worker between its flag and turn writes, every
    /// clause is preserved.
    proof fn lemma_step_set_flag(pre: System, post: System, i: int, k: int)
        requires
            pre.inv(),
            0 <= i < pre.p(),
            0 <= k <= pre.p() - 2,
            pre.pc(i) == (Phase::SetFlag { k: k as usize }),
            post.lock.flag@ == pre.lock.flag@.update(i, k as i32),
            post.lock.turn@ == pre.lock.turn@,
            post.pcs@ == pre.pcs@.update(i, Phase::SetTurn { k: k as usize }),
            post.done@ == pre.done@,
            post.oracle.is_held() == pre.oracle.is_held(),
            post.rounds == pre.rounds,
            post.enabled == pre.enabled,
        ensures
            post.inv(),
    {
        let p = pre.p();
        assert((k as i32) as int == k);
        assert((k as usize) as int == k);
        assert(pre.flag_pc_at(i));
        assert(pre.flag_at(i) == k - 1);
        assert(post.flag_at(i) == k);
        assert forall|j: int| 0 <= j < p && j != i implies #[trigger] post.flag_at(j)
            == pre.flag_at(j) by {}
        assert forall|j: int| 0 <= j < p implies #[trigger] post.phase_wf_at(j) by {
            assert(pre.phase_wf_at(j));
        }
        assert forall|j: int| 0 <= j < p implies #[trigger] post.flag_pc_at(j) by {
            assert(pre.flag_pc_at(j));
        }
        assert forall|j: int| 0 <= j < post.lock.p() implies -1 <= #[trigger] post.lock.flag_at(j)
            <= post.lock.p() - 2 by {
            assert(-1 <= pre.lock.flag_at(j) <= p - 2);
        }
        assert forall|lvl: int| 0 <= lvl < post.lock.p() - 1 implies 0
            <= #[trigger] post.lock.turn_at(lvl) < post.lock.p() by {
            assert(0 <= pre.lock.turn_at(lvl) < p);
        }
        assert(post.lock.wf());
        assert forall|j: int| 0 <= j < p implies #[trigger] post.at_crit(j) == pre.at_crit(j) by {}
        Self::lemma_crit_frame(pre, post);
        if post.enabled {
            assert forall|a: int, lvl: int| 0 <= a < p && 0 <= lvl implies #[trigger] post.beyond(
                a,
                lvl,
            ) == pre.beyond(a, lvl) by {}
            assert forall|lvl: int, a: int|
                0 <= lvl < p - 1 && 0 <= a < p implies #[trigger] post.g_at(lvl, a) by {
                if post.beyond(a, lvl) && post.turn_at(lvl) == a {
                    assert(pre.g_at(lvl, a));
                    assert(pre.beyond(a, lvl));
                    assert forall|b: int| 0 <= b < p && b != a implies (post.flag_at(b) < lvl
                        || #[trigger] post.at_set_turn(b, lvl)) by {
                        assert(pre.flag_at(b) < lvl || pre.at_set_turn(b, lvl));
                        if b != i {
                            assert(post.at_set_turn(b, lvl) == pre.at_set_turn(b, lvl));
                        } else {
                            // Before the write `flag[i]` was `k - 1 < lvl`,
                            // so either `i` is still below `lvl`, or it is
                            // exactly the flag-written-turn-pending case.
                            assert(!pre.at_set_turn(i, lvl));
                            assert(pre.flag_at(i) == k - 1);
                            if k == lvl {
                                assert(post.at_set_turn(i, lvl));
                            } else {
                                assert(k < lvl);
                                assert(post.flag_at(i) < lvl);
                            }
                        }
                    }
                }
            }
            assert forall|lvl: int| 0 <= lvl < p - 1 implies #[trigger] post.u_at(lvl) by {
                if exists|a: int| 0 <= a < p && #[trigger] post.beyond(a, lvl) {
                    let a = choose|a: int| 0 <= a < p && #[trigger] post.beyond(a, lvl);
                    assert(pre.beyond(a, lvl));
                    assert(pre.u_at(lvl));
                    let t = pre.turn_at(lvl);
                    assert(pre.flag_at(t) >= lvl);
                    assert(post.flag_at(t) >= pre.flag_at(t));
                }
            }
            assert forall|lvl: int, b: int|
                0 <= lvl < p - 1 && 0 <= b < p implies #[trigger] post.v_at(lvl, b) by {
                if post.at_poll(b, lvl) {
                    assert(pre.at_poll(b, lvl));
                    assert(pre.v_at(lvl, b));
                    let t = pre.turn_at(lvl);
                    if t != b {
                        assert(pre.flag_at(t) >= lvl);
                        assert(post.flag_at(t) >= pre.flag_at(t));
                    }
                }
            }
            assert forall|lvl: int| 0 <= lvl < p - 1 implies #[trigger] post.ladder_at(lvl) by {
                assert(pre.ladder_at(lvl));
                assert(post.beyond_set(lvl) =~= pre.beyond_set(lvl));
            }
        }
    }

    /// A worker writes `turn[k] = i`, conceding the tie at level `k`, and
    /// starts polling. The fresh claimant `i` now contends at `k`, which
    /// discharges the `u`/`v` clauses at `k`; `g` at `k` becomes vacuous
    /// because `i`, the new holder, is not past the level.
    proof fn lemma_step_set_turn(pre: System, post: System, i: int, k: int)
        requires
            pre.inv(),
            0 <= i < pre.p(),
            0 <= k <= pre.p() - 2,
            pre.pc(i) == (Phase::SetTurn { k: k as usize }),
            post.lock.flag@ == pre.lock.flag@,
            post.lock.turn@ == pre.lock.turn@.update(k, i as usize),
            post.pcs@ == pre.pcs@.update(i, Phase::Poll { k: k as usize }),
            post.done@ == pre.done@,
            post.oracle.is_held() == pre.oracle.is_held(),
            post.rounds == pre.rounds,
            post.enabled == pre.enabled,
        ensures
            post.inv(),
    {
        let p = pre.p();
        assert((i as usize) as int == i);
        assert((k as usize) as int == k);
        assert(pre.flag_pc_at(i));
        assert(post.turn_at(k) == i);
        assert forall|lvl: int| 0 <= lvl < p - 1 && lvl != k implies #[trigger] post.turn_at(lvl)
            == pre.turn_at(lvl) by {}
        assert forall|j: int| 0 <= j < p implies #[trigger] post.phase_wf_at(j) by {
            assert(pre.phase_wf_at(j));
        }
        assert forall|j: int| 0 <= j < p implies #[trigger] post.flag_pc_at(j) by {
            assert(pre.flag_pc_at(j));
        }
        assert forall|j: int| 0 <= j < post.lock.p() implies -1 <= #[trigger] post.lock.flag_at(j)
            <= post.lock.p() - 2 by {
            assert(-1 <= pre.lock.flag_at(j) <= p - 2);
        }
        assert forall|lvl: int| 0 <= lvl < post.lock.p() - 1 implies 0
            <= #[trigger] post.lock.turn_at(lvl) < post.lock.p() by {
            if lvl != k {
                assert(0 <= pre.lock.turn_at(lvl) < p);
            }
        }
        assert(post.lock.wf());
        assert forall|j: int| 0 <= j < p implies #[trigger] post.at_crit(j) == pre.at_crit(j) by {}
        Self::lemma_crit_frame(pre, post);
        if post.enabled {
            assert forall|a: int, lvl: int| 0 <= a < p && 0 <= lvl implies #[trigger] post.beyond(
                a,
                lvl,
            ) == pre.beyond(a, lvl) by {}
            assert(post.flag_at(i) == k) by {
                assert(pre.flag_pc_at(i));
            }
            assert forall|lvl: int, a: int|
                0 <= lvl < p - 1 && 0 <= a < p implies #[trigger] post.g_at(lvl, a) by {
                if post.beyond(a, lvl) && post.turn_at(lvl) == a {
                    if lvl == k {
                        // The new holder is `i`, which is polling at `k`, not
                        // past it: the premise cannot hold.
                        assert(a == i);
                        assert(!post.beyond(i, k));
                        assert(false);
                    } else {
                        assert(pre.g_at(lvl, a));
                        assert(pre.beyond(a, lvl));
                        assert forall|b: int| 0 <= b < p && b != a implies (post.flag_at(b) < lvl
                            || #[trigger] post.at_set_turn(b, lvl)) by {
                            assert(pre.flag_at(b) < lvl || pre.at_set_turn(b, lvl));
                            if b != i {
                                assert(post.at_set_turn(b, lvl) == pre.at_set_turn(b, lvl));
                            } else {
                                assert(!pre.at_set_turn(i, lvl));
                            }
                        }
                    }
                }
            }
            assert forall|lvl: int| 0 <= lvl < p - 1 implies #[trigger] post.u_at(lvl) by {
                if lvl == k {
                    assert(post.flag_at(post.turn_at(k)) >= k);
                } else {
                    if exists|a: int| 0 <= a < p && #[trigger] post.beyond(a, lvl) {
                        let a = choose|a: int| 0 <= a < p && #[trigger] post.beyond(a, lvl);
                        assert(pre.beyond(a, lvl));
                        assert(pre.u_at(lvl));
                    }
                }
            }
            assert forall|lvl: int, b: int|
                0 <= lvl < p - 1 && 0 <= b < p implies #[trigger] post.v_at(lvl, b) by {
                if post.at_poll(b, lvl) {
                    if lvl == k {
                        if b != i {
                            assert(post.flag_at(post.turn_at(k)) >= k);
                        }
                    } else {
                        assert(b != i);
                        assert(pre.at_poll(b, lvl));
                        assert(pre.v_at(lvl, b));
                    }
                }
            }
            assert forall|lvl: int| 0 <= lvl < p - 1 implies #[trigger] post.ladder_at(lvl) by {
                assert(pre.ladder_at(lvl));
                assert(post.beyond_set(lvl) =~= pre.beyond_set(lvl));
            }
        }
    }

    /// A polling worker sees the blocking predicate clear and passes its
    /// level: up one rung, or — from the last level — into the critical
    /// section, seizing the oracle. This is the step the ladder bound guards:
    /// `lemma_pass_not_full` shows the level had room.
    ///
    /// With the blocking predicate disabled the pass happens regardless and
    /// only the basic invariant survives, which is exactly what the negative
    /// control expects.
    proof fn lemma_step_pass(pre: System, post: System, i: int, k: int)
        requires
            pre.inv(),
            0 <= i < pre.p(),
            0 <= k <= pre.p() - 2,
            pre.pc(i) == (Phase::Poll { k: k as usize }),
            pre.enabled ==> !pre.lock.blocked_spec(i, k),
            post.lock.flag@ == pre.lock.flag@,
            post.lock.turn@ == pre.lock.turn@,
            k < pre.p() - 2 ==> post.pcs@ == pre.pcs@.update(
                i,
                Phase::SetFlag { k: (k + 1) as usize },
            ) && post.oracle.is_held() == pre.oracle.is_held(),
            k == pre.p() - 2 ==> post.pcs@ == pre.pcs@.update(i, Phase::Crit)
                && !pre.oracle.is_held() && post.oracle.is_held(),
            post.done@ == pre.done@,
            post.rounds == pre.rounds,
            post.enabled == pre.enabled,
        ensures
            post.inv(),
    {
        let p = pre.p();
        assert((k as usize) as int == k);
        assert(((k + 1) as usize) as int == k + 1);
        assert(pre.flag_pc_at(i));
        assert(pre.flag_at(i) == k);
        assert forall|j: int| 0 <= j < p implies #[trigger] post.phase_wf_at(j) by {
            assert(pre.phase_wf_at(j));
        }
        assert forall|j: int| 0 <= j < p implies #[trigger] post.flag_pc_at(j) by {
            assert(pre.flag_pc_at(j));
        }
        assert forall|j: int| 0 <= j < post.lock.p() implies -1 <= #[trigger] post.lock.flag_at(j)
            <= post.lock.p() - 2 by {
            assert(-1 <= pre.lock.flag_at(j) <= p - 2);
        }
        assert forall|lvl: int| 0 <= lvl < post.lock.p() - 1 implies 0
            <= #[trigger] post.lock.turn_at(lvl) < post.lock.p() by {
            assert(0 <= pre.lock.turn_at(lvl) < p);
        }
        assert(post.lock.wf());
        assert forall|j: int| 0 <= j < p implies #[trigger] post.done@[j] <= post.rounds by {
            assert(pre.done@[j] <= pre.rounds);
        }
        assert forall|j: int| 0 <= j < p && !(post.pc(j) is Idle) implies #[trigger] post.done@[j]
            < post.rounds by {
            assert(pre.done@[j] < pre.rounds || pre.pc(j) is Idle);
        }
        if k < p - 2 {
            assert forall|j: int| 0 <= j < p implies #[trigger] post.at_crit(j) == pre.at_crit(
                j,
            ) by {}
            Self::lemma_crit_frame(pre, post);
        } else {
            // Entering the critical section: the oracle was free, so by
            // synchrony nobody else was inside.
            assert forall|w: int| 0 <= w < p && w != i implies !(#[trigger] post.at_crit(w)) by {
                assert(!pre.at_crit(w)) by {
                    if pre.at_crit(w) {
                        assert(pre.oracle.is_held());
                    }
                }
            }
            assert(post.at_crit(i));
            assert(post.oracle_sync());
            assert(post.mutex_now());
        }
        if post.enabled {
            assert(!pre.lock.blocked_spec(i, k));
            assert forall|a: int, lvl: int|
                0 <= a < p && 0 <= lvl < p - 1 && a != i implies #[trigger] post.beyond(a, lvl)
                == pre.beyond(a, lvl) by {}
            assert forall|lvl: int| 0 <= lvl < p - 1 implies #[trigger] post.beyond(i, lvl) == (lvl
                <= k) by {}
            assert forall|lvl: int, a: int|
                0 <= lvl < p - 1 && 0 <= a < p implies #[trigger] post.g_at(lvl, a) by {
                if post.beyond(a, lvl) && post.turn_at(lvl) == a {
                    if a == i && lvl == k {
                        // Fresh pass while still the tie-break holder: the
                        // clear predicate says nobody else contends at `k`.
                        assert forall|b: int| 0 <= b < p && b != i implies (post.flag_at(b) < k
                            || #[trigger] post.at_set_turn(b, k)) by {
                            if post.flag_at(b) >= k {
                                assert(0 <= b < pre.lock.p() && b != i && pre.lock.flag_at(b) >= k
                                    && pre.lock.turn_at(k) == i);
                                assert(pre.lock.blocked_spec(i, k));
                                assert(false);
                            }
                        }
                    } else if a == i {
                        assert(lvl < k);
                        assert(pre.beyond(i, lvl));
                        assert(pre.g_at(lvl, i));
                        assert forall|b: int| 0 <= b < p && b != i implies (post.flag_at(b) < lvl
                            || #[trigger] post.at_set_turn(b, lvl)) by {
                            assert(pre.flag_at(b) < lvl || pre.at_set_turn(b, lvl));
                            assert(post.at_set_turn(b, lvl) == pre.at_set_turn(b, lvl));
                        }
                    } else {
                        assert(pre.beyond(a, lvl));
                        assert(pre.g_at(lvl, a));
                        assert forall|b: int| 0 <= b < p && b != a implies (post.flag_at(b) < lvl
                            || #[trigger] post.at_set_turn(b, lvl)) by {
                            assert(pre.flag_at(b) < lvl || pre.at_set_turn(b, lvl));
                            if b != i {
                                assert(post.at_set_turn(b, lvl) == pre.at_set_turn(b, lvl));
                            } else {
                                assert(!pre.at_set_turn(i, lvl));
                                assert(post.flag_at(i) < lvl);
                            }
                        }
                    }
                }
            }
            assert forall|lvl: int| 0 <= lvl < p - 1 implies #[trigger] post.u_at(lvl) by {
                if exists|a: int| 0 <= a < p && #[trigger] post.beyond(a, lvl) {
                    let a = choose|a: int| 0 <= a < p && #[trigger] post.beyond(a, lvl);
                    if a != i || lvl < k {
                        assert(pre.beyond(a, lvl));
                        assert(pre.u_at(lvl));
                    } else {
                        assert(lvl == k);
                        let t = pre.turn_at(k);
                        if t == i {
                            assert(post.flag_at(i) == k);
                        } else {
                            assert(pre.at_poll(i, k));
                            assert(pre.v_at(k, i));
                            assert(pre.flag_at(t) >= k);
                        }
                    }
                }
            }
            assert forall|lvl: int, b: int|
                0 <= lvl < p - 1 && 0 <= b < p implies #[trigger] post.v_at(lvl, b) by {
                if post.at_poll(b, lvl) {
                    assert(b != i);
                    assert(pre.at_poll(b, lvl));
                    assert(pre.v_at(lvl, b));
                }
            }
            assert forall|lvl: int| 0 <= lvl < p - 1 implies #[trigger] post.ladder_at(lvl) by {
                if lvl != k {
                    assert(pre.ladder_at(lvl));
                    assert(post.beyond_set(lvl) =~= pre.beyond_set(lvl));
                } else {
                    pre.lemma_pass_not_full(i, k);
                    assert(post.beyond_set(k) =~= pre.beyond_set(k).insert(i));
                }
            }
        }
    }

    /// A worker leaves the critical section: the oracle is handed back, its
    /// flag drops to `-1`, and one more round is done. The `g` clause for the
    /// leaving worker shows nobody depended on it still holding the tie.
    proof fn lemma_step_release(pre: System, post: System, i: int)
        requires
            pre.inv(),
            0 <= i < pre.p(),
            pre.pc(i) is Crit,
            post.lock.flag@ == pre.lock.flag@.update(i, -1i32),
            post.lock.turn@ == pre.lock.turn@,
            post.pcs@ == pre.pcs@.update(i, Phase::Idle),
            post.done@ == pre.done@.update(i, (pre.done@[i] + 1) as usize),
            pre.oracle.is_held(),
            !post.oracle.is_held(),
            post.rounds == pre.rounds,
            post.enabled == pre.enabled,
        ensures
            post.inv(),
    {
        let p = pre.p();
        assert(pre.flag_pc_at(i));
        assert(pre.done@[i] < pre.rounds);
        assert(post.flag_at(i) == -1);
        assert forall|j: int| 0 <= j < p && j != i implies #[trigger] post.flag_at(j)
            == pre.flag_at(j) by {}
        assert forall|j: int| 0 <= j < p implies #[trigger] post.phase_wf_at(j) by {
            assert(pre.phase_wf_at(j));
        }
        assert forall|j: int| 0 <= j < p implies #[trigger] post.flag_pc_at(j) by {
            assert(pre.flag_pc_at(j));
        }
        assert forall|j: int| 0 <= j < post.lock.p() implies -1 <= #[trigger] post.lock.flag_at(j)
            <= post.lock.p() - 2 by {
            assert(-1 <= pre.lock.flag_at(j) <= p - 2);
        }
        assert forall|lvl: int| 0 <= lvl < post.lock.p() - 1 implies 0
            <= #[trigger] post.lock.turn_at(lvl) < post.lock.p() by {
            assert(0 <= pre.lock.turn_at(lvl) < p);
        }
        assert(post.lock.wf());
        assert forall|j: int| 0 <= j < p implies #[trigger] post.done@[j] <= post.rounds by {
            assert(pre.done@[j] <= pre.rounds);
        }
        assert forall|j: int| 0 <= j < p && !(post.pc(j) is Idle) implies #[trigger] post.done@[j]
            < post.rounds by {
            assert(j != i);
            assert(pre.done@[j] < pre.rounds || pre.pc(j) is Idle);
        }
        // Nobody is left in the critical section: `i` was alone by mutual
        // exclusion.
        assert forall|w: int| 0 <= w < p implies !(#[trigger] post.at_crit(w)) by {
            if w != i {
                assert(pre.at_crit(i));
                assert(!(pre.at_crit(i) && pre.at_crit(w)));
            }
        }
        assert(post.oracle_sync());
        assert(post.mutex_now());
        if post.enabled {
            assert forall|a: int, lvl: int|
                0 <= a < p && 0 <= lvl < p - 1 && a != i implies #[trigger] post.beyond(a, lvl)
                == pre.beyond(a, lvl) by {}
            assert forall|lvl: int| 0 <= lvl < p - 1 implies !(#[trigger] post.beyond(
                i,
                lvl,
            )) by {}
            assert forall|lvl: int, a: int|
                0 <= lvl < p - 1 && 0 <= a < p implies #[trigger] post.g_at(lvl, a) by {
                if post.beyond(a, lvl) && post.turn_at(lvl) == a {
                    assert(a != i);
                    assert(pre.beyond(a, lvl));
                    assert(pre.g_at(lvl, a));
                    assert forall|b: int| 0 <= b < p && b != a implies (post.flag_at(b) < lvl
                        || #[trigger] post.at_set_turn(b, lvl)) by {
                        if b == i {
                            assert(post.flag_at(i) < lvl);
                        } else {
                            assert(pre.flag_at(b) < lvl || pre.at_set_turn(b, lvl));
                            assert(post.at_set_turn(b, lvl) == pre.at_set_turn(b, lvl));
                        }
                    }
                }
            }
            assert forall|lvl: int| 0 <= lvl < p - 1 implies #[trigger] post.u_at(lvl) by {
                if exists|a: int| 0 <= a < p && #[trigger] post.beyond(a, lvl) {
                    let a = choose|a: int| 0 <= a < p && #[trigger] post.beyond(a, lvl);
                    assert(a != i);
                    assert(pre.beyond(a, lvl));
                    assert(pre.u_at(lvl));
                    let t = pre.turn_at(lvl);
                    assert(pre.flag_at(t) >= lvl);
                    if t == i {
                        // `i` left while still the holder at `lvl`: by `g` no
                        // one could be past `lvl` besides `i` itself.
                        assert(pre.beyond(i, lvl));
                        assert(pre.g_at(lvl, i));
                        assert(pre.flag_at(a) < lvl || pre.at_set_turn(a, lvl));
                        pre.lemma_beyond_flag(a, lvl);
                        assert(false);
                    }
                }
            }
            assert forall|lvl: int, b: int|
                0 <= lvl < p - 1 && 0 <= b < p implies #[trigger] post.v_at(lvl, b) by {
                if post.at_poll(b, lvl) {
                    assert(b != i);
                    assert(pre.at_poll(b, lvl));
                    assert(pre.v_at(lvl, b));
                    let t = pre.turn_at(lvl);
                    if t != b && t == i {
                        assert(pre.beyond(i, lvl));
                        assert(pre.g_at(lvl, i));
                        assert(pre.flag_at(b) < lvl || pre.at_set_turn(b, lvl));
                        assert(pre.flag_pc_at(b));
                        assert(false);
                    }
                }
            }
            assert forall|lvl: int| 0 <= lvl < p - 1 implies #[trigger] post.ladder_at(lvl) by {
                assert(pre.ladder_at(lvl));
                pre.lemma_beyond_set_finite(lvl);
                assert(post.beyond_set(lvl) =~= pre.beyond_set(lvl).remove(i));
            }
        }
    }

    /// The transition relation of the model: what one atomic step of worker
    /// `i` does to the state and reports, as a function of the prior state.
    /// `step` promises exactly this, so a caller knows the whole move.
    pub open spec fn step_rel(
        pre: System,
        post: System,
        i: int,
        r: Result<StepEvent, Violation>,
    ) -> bool {
        match pre.pc(i) {
            Phase::Idle => {
                if pre.done@[i] < pre.rounds {
                    &&& Self::only_pc_changed(pre, post, i)
                    &&& post.pc(i) == (Phase::SetFlag { k: 0usize })
                    &&& r == Ok::<StepEvent, Violation>(StepEvent::Started)
                } else {
                    &&& Self::unchanged(pre, post)
                    &&& r == Ok::<StepEvent, Violation>(StepEvent::Finished)
                }
            },
            Phase::SetFlag { k } => {
                &&& post.lock.flag@ == pre.lock.flag@.update(i, k as i32)
                &&& post.lock.turn@ == pre.lock.turn@
                &&& post.pcs@ == pre.pcs@.update(i, Phase::SetTurn { k })
                &&& post.done@ == pre.done@
                &&& post.oracle.is_held() == pre.oracle.is_held()
                &&& Self::config_frame(pre, post)
                &&& r == Ok::<StepEvent, Violation>(StepEvent::FlagSet)
            },
            Phase::SetTurn { k } => {
                &&& post.lock.turn@ == pre.lock.turn@.update(k as int, i as usize)
                &&& post.lock.flag@ == pre.lock.flag@
                &&& post.pcs@ == pre.pcs@.update(i, Phase::Poll { k })
                &&& post.done@ == pre.done@
                &&& post.oracle.is_held() == pre.oracle.is_held()
                &&& Self::config_frame(pre, post)
                &&& r == Ok::<StepEvent, Violation>(StepEvent::TurnSet)
            },
            Phase::Poll { k } => {
                if pre.enabled && pre.lock.blocked_spec(i, k as int) {
                    &&& Self::unchanged(pre, post)
                    &&& r == Ok::<StepEvent, Violation>(StepEvent::Waited)
                } else if (k as int) < pre.p() - 2 {
                    &&& Self::only_pc_changed(pre, post, i)
                    &&& post.pc(i) == (Phase::SetFlag { k: (k + 1) as usize })
                    &&& r == Ok::<StepEvent, Violation>(StepEvent::Advanced)
                } else {
                    if !pre.oracle.is_held() {
                        &&& post.lock.flag@ == pre.lock.flag@
                        &&& post.lock.turn@ == pre.lock.turn@
                        &&& post.pcs@ == pre.pcs@.update(i, Phase::Crit)
                        &&& post.done@ == pre.done@
                        &&& post.oracle.is_held()
                        &&& Self::config_frame(pre, post)
                        &&& r == Ok::<StepEvent, Violation>(StepEvent::Entered)
                    } else {
                        &&& Self::unchanged(pre, post)
                        &&& r == Err::<StepEvent, Violation>(Violation::ExclusivityViolation)
                    }
                }
            },
            Phase::Crit => {
                &&& post.lock.flag@ == pre.lock.flag@.update(i, -1i32)
                &&& post.lock.turn@ == pre.lock.turn@
                &&& post.pcs@ == pre.pcs@.update(i, Phase::Idle)
                &&& post.done@ == pre.done@.update(i, (pre.done@[i] + 1) as usize)
                &&& !post.oracle.is_held()
                &&& Self::config_frame(pre, post)
                &&& r == Ok::<StepEvent, Violation>(StepEvent::Released)
            },
        }
    }

    /// The run parameters never change.
    pub open spec fn config_frame(pre: System, post: System) -> bool {
        &&& post.rounds == pre.rounds
        &&& post.enabled == pre.enabled
    }

    /// Only worker `i`'s program counter moved.
    pub open spec fn only_pc_changed(pre: System, post: System, i: int) -> bool {
        &&& post.lock.flag@ == pre.lock.flag@
        &&& post.lock.turn@ == pre.lock.turn@
        &&& post.pcs@ == pre.pcs@.update(i, post.pc(i))
        &&& post.done@ == pre.done@
        &&& post.oracle.is_held() == pre.oracle.is_held()
        &&& Self::config_frame(pre, post)
    }

    /// Nothing moved at all.
    pub open spec fn unchanged(pre: System, post: System) -> bool {
        &&& post.lock.flag@ == pre.lock.flag@
        &&& post.lock.turn@ == pre.lock.turn@
        &&& post.pcs@ == pre.pcs@
        &&& post.done@ == pre.done@
        &&& post.oracle.is_held() == pre.oracle.is_held()
        &&& Self::config_frame(pre, post)
    }

    /// One atomic step of worker `i`: exactly one shared-memory access (or
    /// one poll, or one oracle transition) of the protocol.
    ///
    /// The result and the new state are pinned down by [`System::step_rel`].
    /// While the blocking predicate is enabled the invariant makes the oracle
    /// unreachable, so the step cannot fail; an `UnbalancedRelease` cannot
    /// happen in any mode.
    pub fn step(&mut self, i: usize) -> (r: Result<StepEvent, Violation>)
        requires
            old(self).inv(),
            i < old(self).p(),
        ensures
            final(self).inv(),
            Self::step_rel(*old(self), *final(self), i as int, r),
            old(self).enabled ==> r is Ok,
            r != Err::<StepEvent, Violation>(Violation::UnbalancedRelease),
    {
        let ph = self.pcs[i];
        match ph {
            Phase::Idle => {
                if self.done[i] < self.rounds {
                    self.pcs[i] = Phase::SetFlag { k: 0 };
                    proof {
                        Self::lemma_step_start(*old(self), *self, i as int);
                    }
                    Ok(StepEvent::Started)
                } else {
                    Ok(StepEvent::Finished)
                }
            },
            Phase::SetFlag { k } => {
                proof {
                    assert(old(self).phase_wf_at(i as int));
                }
                self.lock.flag[i] = k as i32;
                self.pcs[i] = Phase::SetTurn { k };
                proof {
                    Self::lemma_step_set_flag(*old(self), *self, i as int, k as int);
                }
                Ok(StepEvent::FlagSet)
            },
            Phase::SetTurn { k } => {
                proof {
                    assert(old(self).phase_wf_at(i as int));
                }
                self.lock.turn[k] = i;
                self.pcs[i] = Phase::Poll { k };
                proof {
                    Self::lemma_step_set_turn(*old(self), *self, i as int, k as int);
                }
                Ok(StepEvent::TurnSet)
            },
            Phase::Poll { k } => {
                proof {
                    assert(old(self).phase_wf_at(i as int));
                }
                if self.enabled && self.lock.blocked(i, k) {
                    Ok(StepEvent::Waited)
                } else if k + 2 < self.lock.flag.len() {
                    self.pcs[i] = Phase::SetFlag { k: k + 1 };
                    proof {
                        Self::lemma_step_pass(*old(self), *self, i as int, k as int);
                    }
                    Ok(StepEvent::Advanced)
                } else {
                    match self.oracle.hold() {
                        Ok(()) => {
                            self.pcs[i] = Phase::Crit;
                            proof {
                                Self::lemma_step_pass(*old(self), *self, i as int, k as int);
                            }
                            Ok(StepEvent::Entered)
                        },
                        Err(v) => {
                            proof {
                                if old(self).enabled {
                                    // The invariant rules this out: the level
                                    // was empty, so nobody held the oracle.
                                    old(self).lemma_pass_not_full(i as int, k as int);
                                    let w = choose|w: int|
                                        0 <= w < old(self).p() && #[trigger] old(self).at_crit(w);
                                    assert(old(self).beyond(w, k as int));
                                    assert(old(self).beyond_set(k as int).contains(w));
                                    assert(false);
                                }
                            }
                            Err(v)
                        },
                    }
                }
            },
            Phase::Crit => {
                match self.oracle.release() {
                    Ok(()) => {
                        self.lock.release(i);
                        self.pcs[i] = Phase::Idle;
                        let d = self.done[i];
                        proof {
                            assert(old(self).done@[i as int] < old(self).rounds);
                        }
                        self.done[i] = d + 1;
                        proof {
                            Self::lemma_step_release(*old(self), *self, i as int);
                        }
                        Ok(StepEvent::Released)
                    },
                    Err(v) => {
                        proof {
                            // Synchrony makes this unreachable: a worker in
                            // the critical section implies the oracle is held.
                            assert(old(self).at_crit(i as int));
                            assert(old(self).oracle.is_held());
                            assert(false);
                        }
                        Err(v)
                    },
                }
            },
        }
    }

    /// Whether every worker has completed all its rounds.
    pub fn all_done(&self) -> (r: bool)
        requires
            self.inv(),
        ensures
            r == (forall|i: int| 0 <= i < self.p() ==> #[trigger] self.done@[i] == self.rounds),
    {
        let p = self.done.len();
        let mut i: usize = 0;
        let mut all: bool = true;
        while i < p
            invariant
                self.inv(),
                p == self.done@.len(),
                i <= p,
                all == (forall|j: int| 0 <= j < i ==> #[trigger] self.done@[j] == self.rounds),
            decreases p - i,
        {
            if self.done[i] != self.rounds {
                all = false;
            }
            i += 1;
        }
        all
    }

    /// What a whole run does: the steps of `schedule` are taken in order
    /// (entries that name no worker are skipped), `acc` critical-section
    /// entries have happened so far, and `r` is the final report — the total
    /// entry count, or the first violation, at which point the run stops.
    pub open spec fn run_rel(
        pre: System,
        post: System,
        schedule: Seq<usize>,
        acc: int,
        r: Result<usize, Violation>,
    ) -> bool
        decreases schedule.len(),
    {
        if schedule.len() == 0 {
            &&& post == pre
            &&& r matches Ok(e) && e == acc
        } else {
            let w = schedule[0];
            if (w as int) >= pre.p() {
                Self::run_rel(pre, post, schedule.drop_first(), acc, r)
            } else {
                exists|mid: System, sr: Result<StepEvent, Violation>|
                    {
                        &&& #[trigger] Self::step_rel(pre, mid, w as int, sr)
                        &&& match sr {
                            Ok(ev) => Self::run_rel(
                                mid,
                                post,
                                schedule.drop_first(),
                                acc + (if ev is Entered {
                                    1int
                                } else {
                                    0int
                                }),
                                r,
                            ),
                            Err(v) => post == mid && r == Err::<usize, Violation>(v),
                        }
                    }
            }
        }
    }

    /// Runs a schedule: one entry per step, naming the worker to advance;
    /// entries that name no worker are skipped. Returns the number of
    /// critical-section entries, or the first violation the oracle reported.
    ///
    /// The whole run is pinned by [`System::run_rel`]. With the blocking
    /// predicate enabled the oracle can never fire — that is the verified
    /// mutual-exclusion guarantee over whole runs — and no run, in any mode,
    /// ever reports an unbalanced release.
    pub fn run(&mut self, schedule: &Vec<usize>) -> (r: Result<usize, Violation>)
        requires
            old(self).inv(),
        ensures
            final(self).inv(),
            Self::run_rel(*old(self), *final(self), schedule@, 0, r),
            old(self).enabled ==> r is Ok,
            r != Err::<usize, Violation>(Violation::UnbalancedRelease),
    {
        let ghost orig = *old(self);
        let mut idx: usize = 0;
        let mut entries: usize = 0;
        proof {
            assert(schedule@.skip(0) =~= schedule@);
        }
        while idx < schedule.len()
            invariant
                orig == *old(self),
                self.inv(),
                self.enabled == orig.enabled,
                idx <= schedule@.len(),
                entries <= idx,
                forall|post: System, r2: Result<usize, Violation>|
                    Self::run_rel(*self, post, schedule@.skip(idx as int), entries as int, r2)
                        ==> #[trigger] Self::run_rel(orig, post, schedule@, 0, r2),
            decreases schedule@.len() - idx,
        {
            let ghost before = *self;
            let ghost rest = schedule@.skip(idx as int);
            proof {
                assert(rest[0] == schedule@[idx as int]);
                assert(rest.drop_first() =~= schedule@.skip(idx as int + 1));
            }
            let w = schedule[idx];
            if w < self.lock.flag.len() {
                match self.step(w) {
                    Ok(ev) => {
                        let grew: usize = if ev == StepEvent::Entered {
                            1
                        } else {
                            0
                        };
                        proof {
                            assert(Self::step_rel(before, *self, w as int, Ok(ev)));
                            assert forall|post: System, r2: Result<usize, Violation>|
                                Self::run_rel(
                                    *self,
                                    post,
                                    schedule@.skip(idx as int + 1),
                                    entries + grew,
                                    r2,
                                ) implies #[trigger] Self::run_rel(orig, post, schedule@, 0, r2) by {
                                assert(Self::run_rel(before, post, rest, entries as int, r2));
                            }
                        }
                        entries += grew;
                    },
                    Err(v) => {
                        proof {
                            assert(Self::step_rel(before, *self, w as int, Err(v)));
                            assert(Self::run_rel(
                                before,
                                *self,
                                rest,
                                entries as int,
                                Err::<usize, Violation>(v),
                            ));
                            assert(Self::run_rel(
                                orig,
                                *self,
                                schedule@,
                                0,
                                Err::<usize, Violation>(v),
                            ));
                        }
                        return Err(v);
                    },
                }
            } else {
                proof {
                    assert forall|post: System, r2: Result<usize, Violation>|
                        Self::run_rel(
                            *self,
                            post,
                            schedule@.skip(idx as int + 1),
                            entries as int,
                            r2,
                        ) implies #[trigger] Self::run_rel(orig, post, schedule@, 0, r2) by {
                        assert(Self::run_rel(before, post, rest, entries as int, r2));
                    }
                }
            }
            idx += 1;
        }
        proof {
            assert(schedule@.skip(idx as int) =~= Seq::<usize>::empty());
            assert(Self::run_rel(
                *self,
                *self,
                schedule@.skip(idx as int),
                entries as int,
                Ok::<usize, Violation>(entries),
            ));
            assert(Self::run_rel(orig, *self, schedule@, 0, Ok::<usize, Violation>(entries)));
        }
        Ok(entries)
    }

    /// Mutual exclusion, as a statement about any reachable state: two
    /// distinct workers are never both inside the critical section. Together
    /// with `run`'s guarantee that the oracle never fires in enabled runs,
    /// this is the safety property of the filter lock.
    pub proof fn lemma_mutual_exclusion(self, i: int, j: int)
        requires
            self.inv(),
            0 <= i < self.p(),
            0 <= j < self.p(),
            i != j,
        ensures
            !(self.at_crit(i) && self.at_crit(j)),
    {
        assert(!(self.at_crit(i) && self.at_crit(j))) by {
            if self.at_crit(i) && self.at_crit(j) {
                assert(self.mutex_now());
            }
        }
    }

    /// Balance: the oracle flag is held exactly while some worker is inside
    /// the critical section, so every hold is matched by the release of the
    /// same worker's round, and a release never finds the flag free.
    pub proof fn lemma_balanced_oracle(self)
        requires
            self.inv(),
        ensures
            self.oracle.is_held() <==> exists|i: int|
                0 <= i < self.p() && #[trigger] self.at_crit(i),
    {
    }

    /// With two workers the ladder collapses to the classical two-process
    /// Peterson algorithm: a single level, flags in `{-1, 0}`, and `turn[0]`
    /// deciding ties — and its mutual exclusion is the general theorem at
    /// `P = 2`.
    pub proof fn lemma_two_process_peterson(self)
        requires
            self.inv(),
            self.p() == 2,
        ensures
            self.lock.turn@.len() == 1,
            forall|j: int| 0 <= j < 2 ==> -1 <= #[trigger] self.flag_at(j) <= 0,
            !(self.at_crit(0) && self.at_crit(1)),
    {
        self.lemma_mutual_exclusion(0, 1);
    }

    /// Picks a poller at the highest occupied poll level: a worker polling at
    /// some level `k0` such that no worker polls above `k0`. `lvl` bounds the
    /// search from above.
    proof fn lemma_highest_poller(self, lvl: int) -> (r: (int, int))
        requires
            self.inv(),
            0 <= lvl <= self.p() - 2,
            exists|i: int, k: int|
                0 <= i < self.p() && 0 <= k && #[trigger] self.at_poll(i, k),
            forall|i: int, k: int|
                0 <= i < self.p() && 0 <= k && #[trigger] self.at_poll(i, k) ==> k <= lvl,
        ensures
            0 <= r.0 < self.p(),
            0 <= r.1 <= lvl,
            self.at_poll(r.0, r.1),
            forall|i: int, k: int|
                0 <= i < self.p() && 0 <= k && #[trigger] self.at_poll(i, k) ==> k <= r.1,
        decreases lvl,
    {
        if exists|i: int| 0 <= i < self.p() && #[trigger] self.at_poll(i, lvl) {
            let i0 = choose|i: int| 0 <= i < self.p() && #[trigger] self.at_poll(i, lvl);
            (i0, lvl)
        } else {
            let (iw, kw) = choose|i: int, k: int|
                0 <= i < self.p() && 0 <= k && #[trigger] self.at_poll(i, k);
            assert(kw < lvl);
            assert forall|i: int, k: int|
                0 <= i < self.p() && 0 <= k && #[trigger] self.at_poll(i, k) implies k <= lvl
                - 1 by {
                if k == lvl {
                    assert(self.at_poll(i, lvl));
                }
            }
            self.lemma_highest_poller(lvl - 1)
        }
    }

    /// Deadlock freedom: in any reachable state where every worker is either
    /// idle or stuck polling, and at least one is polling, some polling
    /// worker is in fact unblocked — its next step climbs the ladder. The
    /// protocol can always make progress.
    pub proof fn lemma_no_deadlock(self)
        requires
            self.inv(),
            exists|i: int, k: int|
                0 <= i < self.p() && 0 <= k && #[trigger] self.at_poll(i, k),
            forall|i: int|
                0 <= i < self.p() ==> (#[trigger] self.pc(i) is Idle || self.pc(i) matches
                    Phase::Poll { .. }),
        ensures
            exists|i: int, k: int|
                0 <= i < self.p() && 0 <= k && #[trigger] self.at_poll(i, k)
                    && !self.lock.blocked_spec(i, k),
    {
        let p = self.p();
        assert forall|i: int, k: int|
            0 <= i < p && 0 <= k && #[trigger] self.at_poll(i, k) implies k <= p - 2 by {
            assert(self.phase_wf_at(i));
        }
        let (i0, k0) = self.lemma_highest_poller(p - 2);
        if self.turn_at(k0) != i0 {
            // Not the tie-break holder: never blocked.
            assert(!self.lock.blocked_spec(i0, k0)) by {
                if self.lock.blocked_spec(i0, k0) {
                    assert(self.lock.turn_at(k0) == i0);
                }
            }
            assert(self.at_poll(i0, k0) && !self.lock.blocked_spec(i0, k0));
        } else if exists|j: int| 0 <= j < p && j != i0 && #[trigger] self.at_poll(j, k0) {
            // Someone else polls at the top level and does not hold the
            // turn: that worker is unblocked.
            let j = choose|j: int| 0 <= j < p && j != i0 && #[trigger] self.at_poll(j, k0);
            assert(!self.lock.blocked_spec(j, k0)) by {
                if self.lock.blocked_spec(j, k0) {
                    assert(self.lock.turn_at(k0) == j);
                }
            }
            assert(self.at_poll(j, k0) && !self.lock.blocked_spec(j, k0));
        } else {
            // `i0` polls alone at the top level: nobody contends at `k0` or
            // above, so its blocking predicate has no witness.
            assert(!self.lock.blocked_spec(i0, k0)) by {
                if self.lock.blocked_spec(i0, k0) {
                    let w = choose|w: int|
                        0 <= w < self.lock.p() && w != i0 && #[trigger] self.lock.flag_at(w) >= k0
                            && self.lock.turn_at(k0) == i0;
                    assert(self.flag_pc_at(w));
                    assert(self.pc(w) is Idle || self.pc(w) matches Phase::Poll { .. });
                    let kw = self.pc(w)->Poll_k;
                    assert(self.at_poll(w, kw as int));
                    assert(kw <= k0);
                    assert(self.flag_at(w) == kw);
                    assert(false);
                }
            }
            assert(self.at_poll(i0, k0) && !self.lock.blocked_spec(i0, k0));
        }
    }

    /// A worker alone on the ladder is never blocked: the blocking predicate
    /// needs a contender. This is the heart of the progress argument — a
    /// polling worker waits only while someone else contends.
    pub proof fn lemma_solo_unblocked(self, i: int, k: int)
        requires
            self.inv(),
            0 <= i < self.p(),
            0 <= k < self.p() - 1,
            forall|j: int| 0 <= j < self.p() && j != i ==> #[trigger] self.flag_at(j) == -1,
        ensures
            !self.lock.blocked_spec(i, k),
    {
        assert forall|j: int|
            0 <= j < self.lock.p() && j != i implies !(#[trigger] self.lock.flag_at(j) >= k) by {
            assert(self.flag_at(j) == -1);
        }
    }
}

} // verus!
