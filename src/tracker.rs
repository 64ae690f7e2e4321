use vstd::prelude::*;

use crate::error::EngineError;

verus! {

/// `x` with the labels `a` and `b` exchanged.
pub open spec fn transpose(x: u16, a: u16, b: u16) -> u16 {
    if x == a {
        b
    } else if x == b {
        a
    } else {
        x
    }
}

/// Every label of `s` with `a` and `b` exchanged.
pub open spec fn swap_labels(s: Seq<u16>, a: u16, b: u16) -> Seq<u16> {
    s.map_values(|x: u16| transpose(x, a, b))
}

/// The raw assignment `raw` seen through the running permutation `perm`.
pub open spec fn relabel(perm: Seq<u16>, raw: Seq<u16>) -> Seq<u16> {
    raw.map_values(|x: u16| perm[x as int])
}

/// One more than the largest label of `s`, or 0 for an empty `s`.
pub open spec fn label_bound(s: Seq<u16>) -> nat
    decreases s.len(),
{
    if s.len() == 0 {
        0
    } else {
        let rest = label_bound(s.drop_last());
        if s.last() as nat + 1 > rest {
            s.last() as nat + 1
        } else {
            rest
        }
    }
}

/// The identity permutation on the labels `0..n`.
pub open spec fn identity_perm(n: nat) -> Seq<u16> {
    Seq::new(n, |i: int| i as u16)
}

/// `i` is the first index at which `cur` and `next` disagree.
pub open spec fn is_first_disagreement(cur: Seq<u16>, next: Seq<u16>, i: int) -> bool {
    &&& 0 <= i < cur.len()
    &&& i < next.len()
    &&& cur[i] != next[i]
    &&& forall|j: int| 0 <= j < i ==> cur[j] == next[j]
}

/// The two labels exchanged by the corrective swap: the labels of `cur` and
/// `next` at their first disagreement, or a label paired with itself (no swap
/// at all) where they agree everywhere.
pub open spec fn correction_pair(cur: Seq<u16>, next: Seq<u16>) -> (u16, u16) {
    if exists|i: int| is_first_disagreement(cur, next, i) {
        let i = choose|i: int| is_first_disagreement(cur, next, i);
        (cur[i], next[i])
    } else {
        (0, 0)
    }
}

/// The counters after one comparison: node `i` gains one where `cur` and
/// `next` give it different labels.
pub open spec fn add_changes(counts: Seq<nat>, cur: Seq<u16>, next: Seq<u16>) -> Seq<nat> {
    Seq::new(counts.len(), |i: int| if cur[i] != next[i] { counts[i] + 1 } else { counts[i] })
}

/// The state of a change tracker.
pub struct TrackerModel {
    /// The last accepted assignment, permutation applied.
    pub current: Seq<u16>,
    /// `perm[raw_label]` is the label that `raw_label` currently stands for.
    pub perm: Seq<u16>,
    /// How often each node changed label so far.
    pub counts: Seq<nat>,
    /// How many records were processed, the first included.
    pub processed: nat,
    /// The last raw assignment processed.
    pub last_raw: Seq<u16>,
}

/// A raw assignment that the tracker in state `m` can process: one label per
/// node, each label known to the permutation.
pub open spec fn accepts(m: TrackerModel, raw: Seq<u16>) -> bool {
    &&& raw.len() == m.current.len()
    &&& forall|i: int| 0 <= i < raw.len() ==> raw[i] < m.perm.len()
}

/// The invariant of every reachable tracker state.
pub open spec fn tracker_inv(m: TrackerModel) -> bool {
    &&& m.processed >= 1
    &&& m.perm.len() <= 65536
    &&& m.counts.len() == m.current.len()
    &&& m.last_raw.len() == m.current.len()
    &&& forall|i: int| 0 <= i < m.last_raw.len() ==> m.last_raw[i] < m.perm.len()
    &&& m.current == relabel(m.perm, m.last_raw)
    &&& forall|i: int, j: int|
        0 <= i < m.perm.len() && 0 <= j < m.perm.len() && i != j ==> m.perm[i] != m.perm[j]
    &&& forall|i: int| 0 <= i < m.counts.len() ==> m.counts[i] < m.processed
}

/// The state after the first record.
pub open spec fn initial_model(first: Seq<u16>) -> TrackerModel {
    TrackerModel {
        current: first,
        perm: identity_perm(label_bound(first)),
        counts: Seq::new(first.len(), |i: int| 0nat),
        processed: 1,
        last_raw: first,
    }
}

/// The state after processing `raw`; `swap` says whether the corrective
/// label swap is applied to this record.
pub open spec fn step_model(m: TrackerModel, raw: Seq<u16>, swap: bool) -> TrackerModel {
    let next = relabel(m.perm, raw);
    if swap {
        let (a, b) = correction_pair(m.current, next);
        let corrected = swap_labels(next, a, b);
        TrackerModel {
            current: corrected,
            perm: swap_labels(m.perm, a, b),
            counts: add_changes(m.counts, m.current, corrected),
            processed: m.processed + 1,
            last_raw: raw,
        }
    } else {
        TrackerModel {
            current: next,
            perm: m.perm,
            counts: add_changes(m.counts, m.current, next),
            processed: m.processed + 1,
            last_raw: raw,
        }
    }
}

/// The swap decisions of a run: the coin flips, masked by whether
/// correction is on.
pub open spec fn swaps_of(coins: Seq<bool>, correction: bool) -> Seq<bool> {
    coins.map_values(|c: bool| correction && c)
}

/// The state after processing the records `rest` in order from `m`;
/// `swaps[k]` decides the corrective swap of `rest[k]`. `None` where a record
/// is refused.
pub open spec fn run_model(m: TrackerModel, rest: Seq<Seq<u16>>, swaps: Seq<bool>) -> Option<
    TrackerModel,
>
    decreases rest.len(),
{
    if rest.len() == 0 {
        Some(m)
    } else {
        match run_model(m, rest.drop_last(), swaps) {
            Some(p) => if accepts(p, rest.last()) {
                Some(step_model(p, rest.last(), swaps[rest.len() - 1]))
            } else {
                None
            },
            None => None,
        }
    }
}

/// How many of `len` records a run processes under the limit `max_accepted`:
/// the limit is checked after each record, so the first is always processed.
pub open spec fn taken_count(len: nat, max_accepted: Option<usize>) -> nat {
    match max_accepted {
        Some(m) => if m as nat >= len {
            len
        } else if m == 0 {
            1
        } else {
            m as nat
        },
        None => len,
    }
}

/// Tracks, over a stream of assignments, how often each node changed
/// partition, with labels corrected by a running permutation.
pub struct ChangeTracker {
    current: Vec<u16>,
    perm: Vec<u16>,
    counts: Vec<u64>,
    processed: u64,
    last_raw: Ghost<Seq<u16>>,
}

impl View for ChangeTracker {
    type V = TrackerModel;

    closed spec fn view(&self) -> TrackerModel {
        TrackerModel {
            current: self.current@,
            perm: self.perm@,
            counts: self.counts@.map_values(|c: u64| c as nat),
            processed: self.processed as nat,
            last_raw: self.last_raw@,
        }
    }
}

proof fn lemma_transpose_injective(a: u16, b: u16, x: u16, y: u16)
    ensures
        x != y ==> transpose(x, a, b) != transpose(y, a, b),
        transpose(transpose(x, a, b), a, b) == x,
{
}

proof fn lemma_label_bound(s: Seq<u16>)
    ensures
        forall|i: int| 0 <= i < s.len() ==> s[i] < label_bound(s),
        label_bound(s) <= 65536,
    decreases s.len(),
{
    if s.len() > 0 {
        lemma_label_bound(s.drop_last());
        assert forall|i: int| 0 <= i < s.len() implies s[i] < label_bound(s) by {
            if i < s.len() - 1 {
                assert(s[i] == s.drop_last()[i]);
            }
        }
    }
}

/// After a corrective swap the permutation stays injective and the current
/// assignment is still the relabeled raw one.
proof fn lemma_step_inv(m: TrackerModel, raw: Seq<u16>, swap: bool)
    requires
        tracker_inv(m),
        accepts(m, raw),
    ensures
        tracker_inv(step_model(m, raw, swap)),
{
    let next = relabel(m.perm, raw);
    let r = step_model(m, raw, swap);
    if swap {
        let (a, b) = correction_pair(m.current, next);
        assert forall|i: int, j: int|
            0 <= i < r.perm.len() && 0 <= j < r.perm.len() && i != j implies r.perm[i]
            != r.perm[j] by {
            lemma_transpose_injective(a, b, m.perm[i], m.perm[j]);
        }
        assert(r.current =~= relabel(r.perm, raw));
    } else {
        assert(r.current =~= relabel(r.perm, raw));
    }
}

/// Processing the raw assignment processed last changes no counter.
pub proof fn lemma_repeat_leaves_counts(m: TrackerModel, swap: bool)
    requires
        tracker_inv(m),
    ensures
        step_model(m, m.last_raw, swap).counts == m.counts,
{
    let next = relabel(m.perm, m.last_raw);
    assert(next =~= m.current);
    if swap {
        assert(!exists|i: int| is_first_disagreement(m.current, next, i));
        assert(swap_labels(next, 0, 0) =~= next);
    }
    assert(add_changes(m.counts, m.current, m.current) =~= m.counts);
}

/// A run whose prefix is refused is refused.
proof fn lemma_run_refused_prefix(m: TrackerModel, rest: Seq<Seq<u16>>, swaps: Seq<bool>, k: int)
    requires
        0 <= k <= rest.len(),
        run_model(m, rest.subrange(0, k), swaps) is None,
    ensures
        run_model(m, rest, swaps) is None,
    decreases rest.len(),
{
    if k == rest.len() {
        assert(rest.subrange(0, k) =~= rest);
    } else {
        assert(rest.drop_last().subrange(0, k) =~= rest.subrange(0, k));
        lemma_run_refused_prefix(m, rest.drop_last(), swaps, k);
    }
}

/// With correction off the coin flips play no part: the same records give
/// the same result, whatever the coins.
pub proof fn lemma_run_ignores_coins_without_correction(
    m: TrackerModel,
    rest: Seq<Seq<u16>>,
    coins1: Seq<bool>,
    coins2: Seq<bool>,
)
    requires
        coins1.len() >= rest.len(),
        coins2.len() >= rest.len(),
    ensures
        run_model(m, rest, swaps_of(coins1, false)) == run_model(m, rest, swaps_of(coins2, false)),
    decreases rest.len(),
{
    if rest.len() > 0 {
        lemma_run_ignores_coins_without_correction(m, rest.drop_last(), coins1, coins2);
        assert(swaps_of(coins1, false)[rest.len() - 1] == swaps_of(coins2, false)[rest.len() - 1]);
    }
}

proof fn lemma_first_disagreement_exists(cur: Seq<u16>, s: Seq<u16>, w: int)
    requires
        0 <= w < cur.len(),
        w < s.len(),
        cur[w] != s[w],
    ensures
        exists|i: int| is_first_disagreement(cur, s, i),
    decreases w,
{
    if forall|j: int| 0 <= j < w ==> cur[j] == s[j] {
        assert(is_first_disagreement(cur, s, w));
    } else {
        let j = choose|j: int| 0 <= j < w && cur[j] != s[j];
        lemma_first_disagreement_exists(cur, s, j);
    }
}

/// Where every disagreement of `cur` and `s` is between the labels `a` and
/// `b`, and there is one, the corrective swap exchanges `a` and `b`.
proof fn lemma_pair_within(cur: Seq<u16>, s: Seq<u16>, a: u16, b: u16)
    requires
        cur.len() == s.len(),
        a != b,
        s != cur,
        forall|i: int|
            0 <= i < s.len() && cur[i] != s[i] ==> (cur[i] == a && s[i] == b) || (cur[i] == b
                && s[i] == a),
    ensures
        ({
            let (p, q) = correction_pair(cur, s);
            swap_labels(s, p, q) == swap_labels(s, a, b)
        }),
{
    if forall|i: int| 0 <= i < s.len() ==> cur[i] == s[i] {
        assert(s =~= cur);
    }
    let w = choose|i: int| 0 <= i < s.len() && cur[i] != s[i];
    lemma_first_disagreement_exists(cur, s, w);
    let i = choose|i: int| is_first_disagreement(cur, s, i);
    let (p, q) = correction_pair(cur, s);
    assert(p == cur[i] && q == s[i]);
    assert(swap_labels(s, p, q) =~= swap_labels(s, a, b));
}

/// Exchanging two raw labels `x` and `y` in a record whose move is between
/// exactly the two partitions that they stand for, and is not a mere exchange
/// of the two labels: the result with the corrective swap for one labeling is
/// the result without it for the other. With a fair coin the two labelings
/// therefore give the same distribution of counters and current assignment.
pub proof fn lemma_label_swap_invariance(m: TrackerModel, raw: Seq<u16>, x: u16, y: u16)
    requires
        tracker_inv(m),
        accepts(m, raw),
        x < m.perm.len(),
        y < m.perm.len(),
        x != y,
        relabel(m.perm, raw) != m.current,
        swap_labels(relabel(m.perm, raw), m.perm[x as int], m.perm[y as int]) != m.current,
        forall|i: int|
            0 <= i < raw.len() && m.current[i] != relabel(m.perm, raw)[i] ==> (m.current[i]
                == m.perm[x as int] && relabel(m.perm, raw)[i] == m.perm[y as int]) || (
            m.current[i] == m.perm[y as int] && relabel(m.perm, raw)[i] == m.perm[x as int]),
    ensures
        step_model(m, swap_labels(raw, x, y), false).current == step_model(m, raw, true).current,
        step_model(m, swap_labels(raw, x, y), false).counts == step_model(m, raw, true).counts,
        step_model(m, swap_labels(raw, x, y), true).current == step_model(m, raw, false).current,
        step_model(m, swap_labels(raw, x, y), true).counts == step_model(m, raw, false).counts,
{
    let a = m.perm[x as int];
    let b = m.perm[y as int];
    let cur = m.current;
    let next = relabel(m.perm, raw);
    let flipped = swap_labels(raw, x, y);
    let next2 = relabel(m.perm, flipped);
    assert(next2 =~= swap_labels(next, a, b));
    lemma_pair_within(cur, next, a, b);
    assert forall|i: int|
        0 <= i < next2.len() && cur[i] != next2[i] implies (cur[i] == a && next2[i] == b) || (
    cur[i] == b && next2[i] == a) by {
        assert(next2[i] == transpose(next[i], a, b));
    }
    lemma_pair_within(cur, next2, a, b);
    assert(swap_labels(next2, a, b) =~= next);
}

impl ChangeTracker {
    /// The invariant of the tracker's state.
    pub closed spec fn wf(&self) -> bool {
        &&& tracker_inv(self@)
        &&& self.counts@.len() == self.current@.len()
    }

    /// Starts tracking with the first record: the permutation is the identity
    /// on `0..=max(first)`, and every counter is zero.
    pub fn new(first: &Vec<u16>) -> (r: ChangeTracker)
        ensures
            r.wf(),
            r@ == initial_model(first@),
    {
        let n = first.len();
        let mut current: Vec<u16> = Vec::new();
        let mut counts: Vec<u64> = Vec::new();
        let mut bound: usize = 0;
        let mut k: usize = 0;
        while k < n
            invariant
                n == first@.len(),
                k <= n,
                current@ == first@.subrange(0, k as int),
                counts@.len() == k,
                forall|i: int| 0 <= i < k ==> counts@[i] == 0,
                bound == label_bound(first@.subrange(0, k as int)),
                bound <= 65536,
            decreases n - k,
        {
            let x = first[k];
            proof {
                assert(first@.subrange(0, k + 1).drop_last() =~= first@.subrange(0, k as int));
            }
            if x as usize + 1 > bound {
                bound = x as usize + 1;
            }
            current.push(x);
            counts.push(0);
            k = k + 1;
            proof {
                assert(current@ =~= first@.subrange(0, k as int));
            }
        }
        let mut perm: Vec<u16> = Vec::new();
        let mut p: usize = 0;
        while p < bound
            invariant
                bound <= 65536,
                p <= bound,
                perm@ =~= identity_perm(p as nat),
            decreases bound - p,
        {
            perm.push(p as u16);
            p = p + 1;
        }
        let r = ChangeTracker { current, perm, counts, processed: 1, last_raw: Ghost(first@) };
        proof {
            assert(first@.subrange(0, n as int) =~= first@);
            lemma_label_bound(first@);
            assert(r@.counts =~= initial_model(first@).counts);
            assert(r@.current =~= relabel(r@.perm, first@));
        }
        r
    }

    /// Processes one raw assignment. `swap` decides whether the corrective
    /// swap of the two labels at the first disagreement is applied; it is a
    /// coin flip where correction is on, and `false` where it is off.
    /// An assignment of the wrong length, or with a label that the first
    /// record did not reach, is refused and changes nothing.
    pub fn step(&mut self, raw: &Vec<u16>, swap: bool) -> (r: Result<(), EngineError>)
        requires
            old(self).wf(),
            old(self)@.processed < u64::MAX,
        ensures
            final(self).wf(),
            accepts(old(self)@, raw@) ==> r is Ok && final(self)@ == step_model(
                old(self)@,
                raw@,
                swap,
            ),
            !accepts(old(self)@, raw@) ==> r == Err::<(), EngineError>(
                EngineError::CorruptAssignment,
            ) && final(self)@ == old(self)@,
            raw@ == old(self)@.last_raw ==> final(self)@.counts == old(self)@.counts,
    {
        let n = self.current.len();
        if raw.len() != n {
            return Err(EngineError::CorruptAssignment);
        }
        let mut next: Vec<u16> = Vec::new();
        let mut k: usize = 0;
        while k < n
            invariant
                self.wf(),
                n == self.current@.len(),
                raw@.len() == n,
                k <= n,
                forall|i: int| 0 <= i < k ==> raw@[i] < self.perm@.len(),
                next@ == relabel(self.perm@, raw@.subrange(0, k as int)),
            decreases n - k,
        {
            let x = raw[k] as usize;
            if x >= self.perm.len() {
                return Err(EngineError::CorruptAssignment);
            }
            next.push(self.perm[x]);
            k = k + 1;
            proof {
                assert(next@ =~= relabel(self.perm@, raw@.subrange(0, k as int)));
            }
        }
        proof {
            assert(raw@.subrange(0, n as int) =~= raw@);
            lemma_step_inv(self@, raw@, swap);
            lemma_repeat_leaves_counts(self@, swap);
        }
        let ghost old_model = self@;
        if swap {
            match first_disagreement(&self.current, &next) {
                Some(i) => {
                    let a = self.current[i];
                    let b = next[i];
                    proof {
                        assert(is_first_disagreement(self.current@, next@, i as int));
                        assert forall|j: int| is_first_disagreement(self.current@, next@, j) implies j
                            == i by {
                            if j < i {
                                assert(self.current@[j] == next@[j]);
                            } else if j > i {
                                assert(self.current@[i as int] == next@[i as int]);
                            }
                        }
                        assert(correction_pair(self.current@, next@) == (a, b));
                    }
                    swap_in_place(&mut next, a, b);
                    swap_in_place(&mut self.perm, a, b);
                },
                None => {
                    proof {
                        assert(correction_pair(self.current@, next@) == (0u16, 0u16));
                        assert(swap_labels(next@, 0, 0) =~= next@);
                        assert(swap_labels(self.perm@, 0, 0) =~= self.perm@);
                    }
                },
            }
        }
        proof {
            let target = step_model(old_model, raw@, swap);
            assert(next@ =~= target.current);
            assert(self.perm@ =~= target.perm);
        }
        let ghost new_perm = self.perm@;
        let mut c: usize = 0;
        while c < n
            invariant
                self.perm@ == new_perm,
                old_model.processed < u64::MAX,
                n == self.current@.len(),
                next@.len() == n,
                self.counts@.len() == n,
                old_model.counts.len() == n,
                old_model.current == self.current@,
                c <= n,
                forall|i: int| 0 <= i < n ==> old_model.counts[i] < old_model.processed,
                old_model.processed == self.processed,
                forall|i: int|
                    0 <= i < c ==> self.counts@[i] as nat == add_changes(
                        old_model.counts,
                        self.current@,
                        next@,
                    )[i],
                forall|i: int| c <= i < n ==> self.counts@[i] as nat == old_model.counts[i],
            decreases n - c,
        {
            if self.current[c] != next[c] {
                let v = self.counts[c];
                assert(v as nat == old_model.counts[c as int]);
                assert(old_model.counts[c as int] < old_model.processed);
                self.counts.set(c, v + 1);
            }
            c = c + 1;
        }
        self.current = next;
        self.processed = self.processed + 1;
        self.last_raw = Ghost(raw@);
        proof {
            let target = step_model(old_model, raw@, swap);
            assert(self@.counts =~= target.counts);
            assert(self@.current =~= target.current);
        }
        Ok(())
    }

    /// Processes one raw assignment as `step` does, with the corrective swap
    /// decided by a fair coin where `correction` is on, and never where it is
    /// off.
    pub fn observe(&mut self, raw: &Vec<u16>, correction: bool) -> (r: Result<(), EngineError>)
        requires
            old(self).wf(),
            old(self)@.processed < u64::MAX,
        ensures
            final(self).wf(),
            accepts(old(self)@, raw@) ==> r is Ok && (final(self)@ == step_model(
                old(self)@,
                raw@,
                false,
            ) || (correction && final(self)@ == step_model(old(self)@, raw@, true))),
            !accepts(old(self)@, raw@) ==> r == Err::<(), EngineError>(
                EngineError::CorruptAssignment,
            ) && final(self)@ == old(self)@,
    {
        let swap = if correction {
            fair_coin()
        } else {
            false
        };
        self.step(raw, swap)
    }

    /// Whether the limit `max_accepted` on processed records is reached.
    pub fn limit_reached(&self, max_accepted: Option<usize>) -> (r: bool)
        ensures
            r == (max_accepted matches Some(m) && self@.processed >= m),
    {
        match max_accepted {
            Some(m) => self.processed >= m as u64,
            None => false,
        }
    }

    /// The counters so far.
    pub fn counts(&self) -> (r: Vec<u64>)
        ensures
            r@.map_values(|c: u64| c as nat) == self@.counts,
    {
        self.counts.clone()
    }

    /// How many records were processed, the first included.
    pub fn processed(&self) -> (r: u64)
        ensures
            r == self@.processed,
    {
        self.processed
    }

    /// The last accepted assignment, permutation applied.
    pub fn current(&self) -> (r: Vec<u16>)
        ensures
            r@ == self@.current,
    {
        self.current.clone()
    }
}

/// Relies on rand::random::<bool>: a fair coin from the thread-local generator.
/// Nothing is promised of the outcome.
#[verifier::external_body]
fn fair_coin() -> (r: bool) {
    rand::random::<bool>()
}

/// Runs a tracker over `records` in order, up to the limit `max_accepted`.
/// The corrective swap of record `k` (from the second on) is `coins[k - 1]`
/// where `correction` is on, and never where it is off.
pub fn track_changes(
    records: &Vec<Vec<u16>>,
    coins: &Vec<bool>,
    correction: bool,
    max_accepted: Option<usize>,
) -> (r: Result<ChangeTracker, EngineError>)
    requires
        coins@.len() + 1 >= records@.len(),
        records@.len() < u64::MAX,
    ensures
        records@.len() == 0 ==> r == Err::<ChangeTracker, EngineError>(EngineError::EmptyStream),
        records@.len() > 0 ==> ({
            let rest = records.deep_view().subrange(
                1,
                taken_count(records@.len(), max_accepted) as int,
            );
            let out = run_model(initial_model(records@[0]@), rest, swaps_of(coins@, correction));
            &&& out is None ==> r == Err::<ChangeTracker, EngineError>(
                EngineError::CorruptAssignment,
            )
            &&& out matches Some(mm) ==> r matches Ok(t) && t.wf() && t@ == mm
        }),
{
    if records.len() == 0 {
        return Err(EngineError::EmptyStream);
    }
    let ghost recs = records.deep_view();
    let ghost swaps = swaps_of(coins@, correction);
    let ghost init = initial_model(records@[0]@);
    let n = records.len();
    let mut tracker = ChangeTracker::new(&records[0]);
    let mut k: usize = 1;
    while k < n && !tracker.limit_reached(max_accepted)
        invariant
            n == records@.len(),
            recs == records.deep_view(),
            swaps == swaps_of(coins@, correction),
            init == initial_model(records@[0]@),
            coins@.len() + 1 >= n,
            n < u64::MAX,
            1 <= k <= n,
            tracker.wf(),
            tracker@.processed == k,
            k <= taken_count(n as nat, max_accepted),
            run_model(init, recs.subrange(1, k as int), swaps) == Some(tracker@),
        decreases n - k,
    {
        let swap = correction && coins[k - 1];
        let ghost before = tracker@;
        let res = tracker.step(&records[k], swap);
        proof {
            let sub = recs.subrange(1, k + 1);
            assert(sub.drop_last() =~= recs.subrange(1, k as int));
            assert(sub.last() == records@[k as int]@);
            assert(swaps[k - 1] == swap);
        }
        if res.is_err() {
            proof {
                let t = taken_count(n as nat, max_accepted) as int;
                let sub = recs.subrange(1, k + 1);
                assert(sub.drop_last() =~= recs.subrange(1, k as int));
                assert(sub.last() == records@[k as int]@);
                assert(!accepts(before, records@[k as int]@));
                assert(run_model(init, sub, swaps) is None);
                assert(k + 1 <= t);
                let rest = recs.subrange(1, t);
                assert(rest.subrange(0, k as int) =~= recs.subrange(1, k + 1));
                lemma_run_refused_prefix(init, rest, swaps, k as int);
            }
            return Err(EngineError::CorruptAssignment);
        }
        k = k + 1;
    }
    proof {
        let t = taken_count(n as nat, max_accepted);
        assert(k == t);
    }
    Ok(tracker)
}

/// The first index at which `cur` and `next` disagree, with `None` where they
/// agree everywhere.
pub fn first_disagreement(cur: &Vec<u16>, next: &Vec<u16>) -> (r: Option<usize>)
    ensures
        r matches Some(i) ==> is_first_disagreement(cur@, next@, i as int),
        r is None ==> forall|i: int| 0 <= i < cur@.len() && i < next@.len() ==> cur@[i] == next@[i],
{
    let mut k: usize = 0;
    while k < cur.len() && k < next.len()
        invariant
            k <= cur@.len(),
            forall|j: int| 0 <= j < k && j < next@.len() ==> cur@[j] == next@[j],
        decreases cur@.len() - k,
    {
        if cur[k] != next[k] {
            return Some(k);
        }
        k = k + 1;
    }
    None
}

/// Exchanges the labels `a` and `b` everywhere in `s`.
fn swap_in_place(s: &mut Vec<u16>, a: u16, b: u16)
    ensures
        final(s)@ == swap_labels(old(s)@, a, b),
{
    let n = s.len();
    let mut k: usize = 0;
    while k < n
        invariant
            n == old(s)@.len(),
            s@.len() == n,
            k <= n,
            forall|i: int| 0 <= i < k ==> s@[i] == transpose(old(s)@[i], a, b),
            forall|i: int| k <= i < n ==> s@[i] == old(s)@[i],
        decreases n - k,
    {
        let x = s[k];
        let y = if x == a {
            b
        } else if x == b {
            a
        } else {
            x
        };
        s.set(k, y);
        k = k + 1;
    }
    proof {
        assert(s@ =~= swap_labels(old(s)@, a, b));
    }
}

} // verus!
