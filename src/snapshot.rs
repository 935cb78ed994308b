use vstd::prelude::*;

use crate::reservoir::Sample;

verus! {

broadcast use vstd::seq_lib::group_seq_properties;

/// The values of `s` never decrease.
pub open spec fn sorted_by_value(s: Seq<Sample>) -> bool {
    forall|i: int, j: int| 0 <= i < j < s.len() ==> s[i].value <= s[j].value
}

/// The samples of `s` whose value is `v`, in their order in `s`.
pub open spec fn with_value(s: Seq<Sample>, v: i64) -> Seq<Sample> {
    s.filter(|x: Sample| x.value == v)
}

/// The keys of `q` never decrease.
pub open spec fn non_decreasing(q: Seq<u64>) -> bool {
    forall|i: int, j: int| 0 <= i < j < q.len() ==> q[i] <= q[j]
}

/// `i` is the entry that quantile `q` falls on: the first whose cumulative
/// quantile reaches `q`, or the last entry when none does.
pub open spec fn is_quantile_index(qs: Seq<u64>, q: u64, i: int) -> bool {
    &&& 0 <= i < qs.len()
    &&& forall|j: int| 0 <= j < i ==> qs[j] < q
    &&& (i == qs.len() - 1 || q <= qs[i])
}

/// The sequence that `runs` stands for: each value repeated as many times as
/// its run says.
pub open spec fn expand(runs: Seq<(i64, usize)>) -> Seq<i64>
    decreases runs.len(),
{
    if runs.len() == 0 {
        Seq::empty()
    } else {
        expand(runs.drop_last()) + Seq::new(runs.last().1 as nat, |_i: int| runs.last().0)
    }
}

proof fn lemma_insert_filter(s: Seq<Sample>, p: int, x: Sample, v: i64)
    requires
        sorted_by_value(s),
        0 <= p <= s.len(),
        forall|i: int| 0 <= i < p ==> s[i].value <= x.value,
        forall|i: int| p <= i < s.len() ==> s[i].value > x.value,
    ensures
        with_value(s.insert(p, x), v) == if x.value == v {
            with_value(s, v).push(x)
        } else {
            with_value(s, v)
        },
{
    let f = |y: Sample| y.value == v;
    let a = s.take(p);
    let b = s.skip(p);
    assert(s =~= a + b);
    assert(s.insert(p, x) =~= a.push(x) + b);
    Seq::filter_distributes_over_add(a, b, f);
    Seq::filter_distributes_over_add(a.push(x), b, f);
    a.lemma_filter_push(x, f);
    if x.value == v {
        assert forall|i: int| 0 <= i < b.len() implies !f(b[i]) by {
            assert(b[i] == s[p + i]);
        }
        b.lemma_all_neg_filter_empty(f);
        assert(b.filter(f) =~= Seq::<Sample>::empty());
        assert(a.filter(f) + b.filter(f) =~= a.filter(f));
        assert(a.filter(f).push(x) + b.filter(f) =~= a.filter(f).push(x));
    }
}

/// Two sequences with the same samples of each value hold the same samples.
pub proof fn lemma_same_samples(r: Seq<Sample>, s: Seq<Sample>)
    requires
        forall|v: i64| #[trigger] with_value(r, v) == with_value(s, v),
    ensures
        forall|i: int| 0 <= i < r.len() ==> s.contains(#[trigger] r[i]),
        forall|j: int| 0 <= j < s.len() ==> r.contains(#[trigger] s[j]),
{
    assert forall|i: int| 0 <= i < r.len() implies s.contains(#[trigger] r[i]) by {
        let f = |y: Sample| y.value == r[i].value;
        r.lemma_filter_contains(f, i);
        assert(with_value(r, r[i].value) == with_value(s, r[i].value));
        s.lemma_filter_contains_rev(f, r[i]);
    }
    assert forall|j: int| 0 <= j < s.len() implies r.contains(#[trigger] s[j]) by {
        let f = |y: Sample| y.value == s[j].value;
        s.lemma_filter_contains(f, j);
        assert(with_value(r, s[j].value) == with_value(s, s[j].value));
        r.lemma_filter_contains_rev(f, s[j]);
    }
}

/// Sorts `s` by value, keeping the order of samples of equal value.
pub fn sort_by_value(s: &Vec<Sample>) -> (r: Vec<Sample>)
    ensures
        r.len() == s.len(),
        sorted_by_value(r@),
        forall|v: i64| #[trigger] with_value(r@, v) == with_value(s@, v),
        forall|i: int| 0 <= i < r.len() ==> s@.contains(#[trigger] r@[i]),
        forall|j: int| 0 <= j < s.len() ==> r@.contains(#[trigger] s@[j]),
{
    let mut r: Vec<Sample> = Vec::new();
    let mut i: usize = 0;
    while i < s.len()
        invariant
            i <= s.len(),
            r.len() == i,
            sorted_by_value(r@),
            forall|v: i64| #[trigger] with_value(r@, v) == with_value(s@.take(i as int), v),
        decreases s.len() - i,
    {
        let x = s[i];
        let mut p: usize = r.len();
        while p > 0 && r[p - 1].value > x.value
            invariant
                p <= r.len(),
                sorted_by_value(r@),
                forall|j: int| p <= j < r.len() ==> r@[j].value > x.value,
            decreases p,
        {
            p -= 1;
        }
        let ghost old_r = r@;
        proof {
            assert forall|j: int| 0 <= j < p implies old_r[j].value <= x.value by {
                if p > 0 {
                    assert(old_r[j].value <= old_r[p - 1].value);
                }
            }
        }
        r.insert(p, x);
        proof {
            assert forall|v: i64| #[trigger]
                with_value(r@, v) == with_value(s@.take(i + 1), v) by {
                lemma_insert_filter(old_r, p as int, x, v);
                assert(s@.take(i + 1) =~= s@.take(i as int).push(x));
                s@.take(i as int).lemma_filter_push(x, |y: Sample| y.value == v);
            }
            assert forall|a: int, b: int| 0 <= a < b < r.len() implies r@[a].value
                <= r@[b].value by {
                if b < p {
                    assert(r@[a] == old_r[a] && r@[b] == old_r[b]);
                } else if b == p {
                    assert(r@[a] == old_r[a]);
                } else if a < p {
                    assert(r@[a] == old_r[a] && r@[b] == old_r[b - 1]);
                } else if a == p {
                    assert(r@[b] == old_r[b - 1]);
                } else {
                    assert(r@[a] == old_r[a - 1] && r@[b] == old_r[b - 1]);
                }
            }
        }
        i += 1;
    }
    proof {
        assert(s@.take(i as int) =~= s@);
        lemma_same_samples(r@, s@);
    }
    r
}

/// The entries of a reservoir at one instant, ordered by value, with the
/// cumulative quantile at which each entry starts.
///
/// Weights and quantiles are order keys (see the crate docs).
pub struct Snapshot {
    entries: Vec<Sample>,
    quantiles: Vec<u64>,
    count: u64,
}

impl View for Snapshot {
    type V = Seq<Sample>;

    /// The entries in ascending order of value.
    closed spec fn view(&self) -> Seq<Sample> {
        self.entries@
    }
}

impl Snapshot {
    /// The cumulative quantile of each entry: the sum of the weights of the
    /// entries before it.
    pub closed spec fn quantiles(&self) -> Seq<u64> {
        self.quantiles@
    }

    /// The number of updates the reservoir had taken.
    pub closed spec fn total(&self) -> u64 {
        self.count
    }

    /// One quantile per entry, entries ordered by value, quantiles never
    /// decreasing.
    pub closed spec fn wf(&self) -> bool {
        &&& self.entries.len() == self.quantiles.len()
        &&& sorted_by_value(self.entries@)
        &&& non_decreasing(self.quantiles@)
    }

    /// A snapshot of `entries` with their cumulative `quantiles`, taken after
    /// `count` updates; refused unless the entries are ordered by value, the
    /// quantiles never decrease, and there is one quantile per entry.
    pub fn new(entries: Vec<Sample>, quantiles: Vec<u64>, count: u64) -> (r: Option<Snapshot>)
        ensures
            r is Some <==> {
                &&& entries.len() == quantiles.len()
                &&& sorted_by_value(entries@)
                &&& non_decreasing(quantiles@)
            },
            r matches Some(snap) ==> {
                &&& snap.wf()
                &&& snap@ == entries@
                &&& snap.quantiles() == quantiles@
                &&& snap.total() == count
            },
    {
        if entries.len() != quantiles.len() {
            return None;
        }
        if entries.len() == 0 {
            return Some(Snapshot { entries, quantiles, count });
        }
        let mut i: usize = 1;
        while i < entries.len()
            invariant
                entries.len() == quantiles.len(),
                1 <= i <= entries.len(),
                sorted_by_value(entries@.take(i as int)),
                non_decreasing(quantiles@.take(i as int)),
            decreases entries.len() - i,
        {
            if entries[i].value < entries[i - 1].value {
                proof {
                    assert(!sorted_by_value(entries@));
                }
                return None;
            }
            if quantiles[i] < quantiles[i - 1] {
                proof {
                    assert(!non_decreasing(quantiles@));
                }
                return None;
            }
            proof {
                let e = entries@.take(i + 1);
                assert forall|a: int, b: int| 0 <= a < b < e.len() implies e[a].value
                    <= e[b].value by {
                    if b < i {
                        assert(entries@.take(i as int)[a] == e[a]);
                        assert(entries@.take(i as int)[b] == e[b]);
                    } else if a < i - 1 {
                        assert(entries@.take(i as int)[a] == e[a]);
                        assert(entries@.take(i as int)[i - 1] == e[i - 1]);
                    }
                }
                let q = quantiles@.take(i + 1);
                assert forall|a: int, b: int| 0 <= a < b < q.len() implies q[a] <= q[b] by {
                    if b < i {
                        assert(quantiles@.take(i as int)[a] == q[a]);
                        assert(quantiles@.take(i as int)[b] == q[b]);
                    } else if a < i - 1 {
                        assert(quantiles@.take(i as int)[a] == q[a]);
                        assert(quantiles@.take(i as int)[i - 1] == q[i - 1]);
                    }
                }
            }
            i += 1;
        }
        proof {
            assert(entries@.take(i as int) =~= entries@);
            assert(quantiles@.take(i as int) =~= quantiles@);
        }
        Some(Snapshot { entries, quantiles, count })
    }

    /// The number of entries.
    pub fn len(&self) -> (n: usize)
        ensures
            n == self@.len(),
    {
        self.entries.len()
    }

    /// The entries in ascending order of value.
    pub fn entries(&self) -> (r: &Vec<Sample>)
        ensures
            r@ == self@,
    {
        &self.entries
    }

    /// The value at quantile `q`, or 0 when the snapshot is empty: the value
    /// of the first entry whose cumulative quantile reaches `q`, or of the
    /// last entry when none does.
    pub fn value(&self, q: u64) -> (r: i64)
        requires
            self.wf(),
        ensures
            self@.len() == 0 ==> r == 0,
            self@.len() > 0 ==> exists|i: int|
                is_quantile_index(self.quantiles(), q, i) && r == self@[i].value,
    {
        let n = self.quantiles.len();
        if n == 0 {
            return 0;
        }
        let mut lo: usize = 0;
        let mut hi: usize = n;
        while lo < hi
            invariant
                lo <= hi <= n == self.quantiles.len() == self.entries.len(),
                non_decreasing(self.quantiles@),
                forall|j: int| 0 <= j < lo ==> self.quantiles@[j] < q,
                forall|j: int| hi <= j < n ==> q <= self.quantiles@[j],
            decreases hi - lo,
        {
            let mid = lo + (hi - lo) / 2;
            if self.quantiles[mid] < q {
                lo = mid + 1;
            } else {
                hi = mid;
            }
        }
        let idx = if lo >= n { n - 1 } else { lo };
        proof {
            assert(is_quantile_index(self.quantiles(), q, idx as int));
        }
        self.entries[idx].value
    }

    /// The smallest value, or 0 when the snapshot is empty.
    pub fn min(&self) -> (r: i64)
        requires
            self.wf(),
        ensures
            self@.len() == 0 ==> r == 0,
            self@.len() > 0 ==> r == self@[0].value,
            forall|i: int| 0 <= i < self@.len() ==> r <= self@[i].value,
    {
        if self.entries.len() == 0 {
            0
        } else {
            self.entries[0].value
        }
    }

    /// The largest value, or 0 when the snapshot is empty.
    pub fn max(&self) -> (r: i64)
        requires
            self.wf(),
        ensures
            self@.len() == 0 ==> r == 0,
            self@.len() > 0 ==> r == self@.last().value,
            forall|i: int| 0 <= i < self@.len() ==> self@[i].value <= r,
    {
        if self.entries.len() == 0 {
            0
        } else {
            self.entries[self.entries.len() - 1].value
        }
    }

    /// The number of updates the reservoir had taken.
    pub fn count(&self) -> (r: u64)
        ensures
            r == self.total(),
    {
        self.count
    }

    /// The distinct values in ascending order, each with the number of
    /// entries that hold it.
    pub fn runs(&self) -> (r: Vec<(i64, usize)>)
        requires
            self.wf(),
        ensures
            expand(r@) == self@.map_values(|e: Sample| e.value),
            forall|i: int| 0 <= i < r.len() ==> r@[i].1 > 0,
            forall|i: int, j: int| 0 <= i < j < r.len() ==> r@[i].0 < r@[j].0,
    {
        let ghost vals = self@.map_values(|e: Sample| e.value);
        let mut r: Vec<(i64, usize)> = Vec::new();
        let mut i: usize = 0;
        proof {
            assert(vals.take(0) =~= expand(r@));
        }
        while i < self.entries.len()
            invariant
                i <= self.entries.len(),
                vals == self@.map_values(|e: Sample| e.value),
                sorted_by_value(self.entries@),
                expand(r@) == vals.take(i as int),
                r.len() <= i,
                i > 0 ==> r.len() > 0 && r@.last().0 == vals[i - 1],
                i == 0 ==> r.len() == 0,
                forall|k: int| 0 <= k < r.len() ==> r@[k].1 > 0,
                forall|k: int| 0 <= k < r.len() ==> r@[k].1 <= i,
                forall|a: int, b: int| 0 <= a < b < r.len() ==> r@[a].0 < r@[b].0,
            decreases self.entries.len() - i,
        {
            let v = self.entries[i].value;
            let ghost old_r = r@;
            let last = r.len();
            if last > 0 && r[last - 1].0 == v {
                let c = r[last - 1].1;
                r.set(last - 1, (v, c + 1));
                proof {
                    assert(r@.drop_last() =~= old_r.drop_last());
                    assert(Seq::new((c + 1) as nat, |_i: int| v) =~= Seq::new(c as nat, |_i: int| v).push(v));
                    assert(vals.take(i + 1) =~= vals.take(i as int).push(v));
                }
            } else {
                r.push((v, 1));
                proof {
                    assert(r@.drop_last() =~= old_r);
                    assert(Seq::new(1, |_i: int| v) =~= seq![v]);
                    assert(vals.take(i + 1) =~= vals.take(i as int) + seq![v]);
                    if i > 0 {
                        assert(self.entries@[i - 1].value <= self.entries@[i as int].value);
                    }
                }
            }
            i += 1;
        }
        proof {
            assert(vals.take(i as int) =~= vals);
        }
        r
    }
}

} // verus!
