use vstd::prelude::*;

verus! {

/// The bookkeeping columns of one output row: the sample count at the start
/// of the record, the record's repetition count, and the accepted count.
#[derive(Debug, Clone, Copy, PartialEq, Eq, Structural)]
pub struct RowHeader {
    pub step: u64,
    pub n_reps: u16,
    pub accepted: u64,
}

/// The running counters of the batched driver: the samples seen so far (each
/// record counts as many samples as its repetition count) and the distinct
/// records seen so far, both starting at 1.
pub struct RowCounter {
    sample_count: u64,
    accepted_count: u64,
}

impl View for RowCounter {
    type V = (nat, nat);

    closed spec fn view(&self) -> (nat, nat) {
        (self.sample_count as nat, self.accepted_count as nat)
    }
}

impl RowCounter {
    pub fn new() -> (r: RowCounter)
        ensures
            r@ == (1nat, 1nat),
    {
        RowCounter { sample_count: 1, accepted_count: 1 }
    }

    /// The header of the next record, which repeats `n_reps` times; the
    /// counters then move past it. `None`, with the counters unchanged, where
    /// a counter would leave the range of `u64`.
    pub fn record(&mut self, n_reps: u16) -> (r: Option<RowHeader>)
        ensures
            old(self)@.0 + n_reps <= u64::MAX && old(self)@.1 < u64::MAX ==> r == Some(
                RowHeader {
                    step: old(self)@.0 as u64,
                    n_reps,
                    accepted: old(self)@.1 as u64,
                },
            ) && final(self)@ == ((old(self)@.0 + n_reps) as nat, old(self)@.1 + 1),
            !(old(self)@.0 + n_reps <= u64::MAX && old(self)@.1 < u64::MAX) ==> r is None
                && final(self)@ == old(self)@,
    {
        if self.sample_count > u64::MAX - n_reps as u64 || self.accepted_count == u64::MAX {
            return None;
        }
        let header = RowHeader {
            step: self.sample_count,
            n_reps,
            accepted: self.accepted_count,
        };
        self.sample_count = self.sample_count + n_reps as u64;
        self.accepted_count = self.accepted_count + 1;
        Some(header)
    }

    pub fn sample_count(&self) -> (r: u64)
        ensures
            r == self@.0,
    {
        self.sample_count
    }

    pub fn accepted_count(&self) -> (r: u64)
        ensures
            r == self@.1,
    {
        self.accepted_count
    }
}

/// `s` is in strictly increasing order.
pub open spec fn strictly_increasing(s: Seq<u16>) -> bool {
    forall|j: int, k: int| 0 <= j < k < s.len() ==> s[j] < s[k]
}

/// Two strictly increasing label lists with the same labels are the same
/// list.
pub proof fn lemma_strictly_increasing_determined(s1: Seq<u16>, s2: Seq<u16>)
    requires
        strictly_increasing(s1),
        strictly_increasing(s2),
        forall|x: u16| s1.contains(x) <==> s2.contains(x),
    ensures
        s1 == s2,
    decreases s1.len() + s2.len(),
{
    if s1.len() == 0 || s2.len() == 0 {
        if s1.len() > 0 {
            assert(s1.contains(s1[0]));
        }
        if s2.len() > 0 {
            assert(s2.contains(s2[0]));
        }
        assert(s1 =~= s2);
    } else {
        let m1 = s1.last();
        let m2 = s2.last();
        assert(s1.contains(m1) && s2.contains(m2));
        let k2 = choose|k: int| 0 <= k < s2.len() && s2[k] == m1;
        let k1 = choose|k: int| 0 <= k < s1.len() && s1[k] == m2;
        assert(m1 <= m2 && m2 <= m1) by {
            if k2 < s2.len() - 1 {
                assert(s2[k2] < s2[s2.len() - 1]);
            }
            if k1 < s1.len() - 1 {
                assert(s1[k1] < s1[s1.len() - 1]);
            }
        }
        let t1 = s1.drop_last();
        let t2 = s2.drop_last();
        assert forall|x: u16| t1.contains(x) <==> t2.contains(x) by {
            if t1.contains(x) {
                let q = choose|q: int| 0 <= q < t1.len() && t1[q] == x;
                assert(s1[q] < m1);
                assert(s1.contains(x));
                let r = choose|r: int| 0 <= r < s2.len() && s2[r] == x;
                if r == s2.len() - 1 {
                    assert(false);
                }
                assert(t2[r] == x);
            }
            if t2.contains(x) {
                let q = choose|q: int| 0 <= q < t2.len() && t2[q] == x;
                assert(s2[q] < m2);
                assert(s2.contains(x));
                let r = choose|r: int| 0 <= r < s1.len() && s1[r] == x;
                if r == s1.len() - 1 {
                    assert(false);
                }
                assert(t1[r] == x);
            }
        }
        lemma_strictly_increasing_determined(t1, t2);
        assert(s1 =~= t1.push(m1));
        assert(s2 =~= t2.push(m2));
    }
}

/// Rerunning gives the same columns: the labels of `observed_labels` are
/// determined by the rows.
pub proof fn lemma_observed_labels_determined(rows: Seq<Seq<u16>>, c1: Seq<u16>, c2: Seq<u16>)
    requires
        strictly_increasing(c1),
        strictly_increasing(c2),
        forall|l: u16| c1.contains(l) <==> in_some_row(rows, l),
        forall|l: u16| c2.contains(l) <==> in_some_row(rows, l),
    ensures
        c1 == c2,
{
    lemma_strictly_increasing_determined(c1, c2);
}

/// `l` is a label of one of the rows.
pub open spec fn in_some_row(rows: Seq<Seq<u16>>, l: u16) -> bool {
    exists|k: int| 0 <= k < rows.len() && #[trigger] rows[k].contains(l)
}

/// The partition columns of a tally output: every label that occurs in some
/// row, each once, in increasing order.
pub fn observed_labels(rows: &Vec<Vec<u16>>) -> (r: Vec<u16>)
    ensures
        strictly_increasing(r@),
        forall|l: u16| r@.contains(l) <==> in_some_row(rows.deep_view(), l),
{
    let ghost dr = rows.deep_view();
    let mut seen: Vec<bool> = Vec::new();
    let mut b: usize = 0;
    while b < 65536
        invariant
            b <= 65536,
            seen@.len() == b,
            forall|l: int| 0 <= l < b ==> !(#[trigger] seen@[l]),
        decreases 65536 - b,
    {
        seen.push(false);
        b = b + 1;
    }
    let mut k: usize = 0;
    while k < rows.len()
        invariant
            dr == rows.deep_view(),
            k <= rows@.len(),
            seen@.len() == 65536,
            forall|l: u16|
                #[trigger] seen@[l as int] <==> exists|k2: int|
                    0 <= k2 < k && #[trigger] dr[k2].contains(l),
        decreases rows@.len() - k,
    {
        let row = &rows[k];
        let mut m: usize = 0;
        while m < row.len()
            invariant
                dr == rows.deep_view(),
                k < rows@.len(),
                row@ == dr[k as int],
                m <= row@.len(),
                seen@.len() == 65536,
                forall|l: u16|
                    #[trigger] seen@[l as int] <==> (exists|k2: int|
                        0 <= k2 < k && #[trigger] dr[k2].contains(l)) || row@.subrange(
                        0,
                        m as int,
                    ).contains(l),
            decreases row@.len() - m,
        {
            let x = row[m];
            seen.set(x as usize, true);
            proof {
                let sub = row@.subrange(0, m as int);
                let sub1 = row@.subrange(0, m + 1);
                assert(sub1[m as int] == x);
                assert forall|l: u16| #[trigger] sub1.contains(l) <==> (sub.contains(l) || l == x) by {
                    if sub.contains(l) {
                        let q = choose|q: int| 0 <= q < sub.len() && sub[q] == l;
                        assert(sub1[q] == l);
                    }
                    if sub1.contains(l) && l != x {
                        let q = choose|q: int| 0 <= q < sub1.len() && sub1[q] == l;
                        assert(sub[q] == l);
                    }
                }
            }
            m = m + 1;
        }
        proof {
            assert(row@.subrange(0, row@.len() as int) =~= row@);
            assert forall|l: u16| #[trigger] seen@[l as int] <==> exists|k2: int|
                0 <= k2 < k + 1 && #[trigger] dr[k2].contains(l) by {
                if dr[k as int].contains(l) {
                    assert(row@.contains(l));
                }
                if exists|k2: int| 0 <= k2 < k + 1 && #[trigger] dr[k2].contains(l) {
                    let k2 = choose|k2: int| 0 <= k2 < k + 1 && #[trigger] dr[k2].contains(l);
                    if k2 == k {
                        assert(row@.contains(l));
                    }
                }
            }
        }
        k = k + 1;
    }
    let mut out: Vec<u16> = Vec::new();
    let mut l: usize = 0;
    while l < 65536
        invariant
            dr == rows.deep_view(),
            l <= 65536,
            seen@.len() == 65536,
            forall|l2: u16| #[trigger] seen@[l2 as int] <==> in_some_row(dr, l2),
            strictly_increasing(out@),
            forall|j: int| 0 <= j < out@.len() ==> (#[trigger] out@[j]) < l,
            forall|l2: u16| out@.contains(l2) <==> (l2 < l && in_some_row(dr, l2)),
        decreases 65536 - l,
    {
        if seen[l] {
            let ghost before = out@;
            out.push(l as u16);
            proof {
                assert(out@[out@.len() - 1] == l as u16);
                assert forall|l2: u16| out@.contains(l2) <==> (l2 < l + 1 && in_some_row(dr, l2)) by {
                    if before.contains(l2) {
                        let q = choose|q: int| 0 <= q < before.len() && before[q] == l2;
                        assert(out@[q] == l2);
                    }
                    if out@.contains(l2) && l2 != l as u16 {
                        let q = choose|q: int| 0 <= q < out@.len() && out@[q] == l2;
                        assert(before[q] == l2);
                    }
                    if l2 == l as u16 {
                        assert(seen@[l2 as int]);
                    }
                }
            }
        } else {
            proof {
                assert forall|l2: u16| out@.contains(l2) <==> (l2 < l + 1 && in_some_row(dr, l2)) by {
                    if l2 == l as u16 {
                        assert(!seen@[l2 as int]);
                    }
                }
            }
        }
        l = l + 1;
    }
    out
}

/// Where each column's label stands among `labels`: `Some(j)` with
/// `labels[j] == columns[c]`, or `None` where the row lacks that label.
pub fn align_columns(columns: &Vec<u16>, labels: &Vec<u16>) -> (r: Vec<Option<usize>>)
    ensures
        r@.len() == columns@.len(),
        forall|c: int|
            0 <= c < columns@.len() ==> match #[trigger] r@[c] {
                Some(j) => j < labels@.len() && labels@[j as int] == columns@[c],
                None => !labels@.contains(columns@[c]),
            },
{
    let mut out: Vec<Option<usize>> = Vec::new();
    let mut c: usize = 0;
    while c < columns.len()
        invariant
            c <= columns@.len(),
            out@.len() == c,
            forall|c2: int|
                0 <= c2 < c ==> match #[trigger] out@[c2] {
                    Some(j) => j < labels@.len() && labels@[j as int] == columns@[c2],
                    None => !labels@.contains(columns@[c2]),
                },
        decreases columns@.len() - c,
    {
        let target = columns[c];
        let mut found: Option<usize> = None;
        let mut j: usize = 0;
        while j < labels.len()
            invariant
                j <= labels@.len(),
                target == columns@[c as int],
                found is None ==> forall|q: int| 0 <= q < j ==> labels@[q] != target,
                found matches Some(q) ==> q < labels@.len() && labels@[q as int] == target,
            decreases labels@.len() - j,
        {
            if found.is_none() && labels[j] == target {
                found = Some(j);
            }
            j = j + 1;
        }
        out.push(found);
        c = c + 1;
    }
    out
}

} // verus!
