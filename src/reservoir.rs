use vstd::prelude::*;

use crate::HistogramError;

verus! {

/// One retained measurement.
#[derive(Clone, Copy, Debug, PartialEq, Eq)]
pub struct Sample {
    /// The measurement.
    pub value: i64,
    /// The sample's decay weight, as an order key (see the crate docs). The
    /// reservoir carries it and never computes with it.
    pub weight: u64,
}

/// The map that the pairs of `s` build when inserted from first to last, a
/// later pair replacing an earlier one with the same priority.
pub open spec fn to_map(s: Seq<(u64, Sample)>) -> Map<u64, Sample>
    decreases s.len(),
{
    if s.len() == 0 {
        Map::empty()
    } else {
        to_map(s.drop_last()).insert(s.last().0, s.last().1)
    }
}

/// The priorities of `s` increase strictly.
pub open spec fn strictly_sorted(s: Seq<(u64, Sample)>) -> bool {
    forall|i: int, j: int| 0 <= i < j < s.len() ==> s[i].0 < s[j].0
}

/// `k` is the smallest priority of `m`.
pub open spec fn is_min_key(m: Map<u64, Sample>, k: u64) -> bool {
    &&& m.contains_key(k)
    &&& forall|j: u64| m.contains_key(j) ==> k <= j
}

/// The smallest priority of a non-empty map.
pub open spec fn min_key(m: Map<u64, Sample>) -> u64 {
    choose|k: u64| is_min_key(m, k)
}

/// The admission rule: below capacity a sample always goes in; at capacity it
/// goes in only with a priority above the smallest one, which it then
/// evicts (unless it replaces a sample of equal priority).
pub open spec fn offer_map(m: Map<u64, Sample>, capacity: nat, key: u64, sample: Sample) -> Map<
    u64,
    Sample,
> {
    if m.len() < capacity {
        m.insert(key, sample)
    } else if min_key(m) < key {
        if m.contains_key(key) {
            m.insert(key, sample)
        } else {
            m.insert(key, sample).remove(min_key(m))
        }
    } else {
        m
    }
}

/// The pairs of `s` re-keyed by `scaled`: the `i`-th pair takes priority
/// `scaled[i].0` and weight `scaled[i].1`, and keeps its value.
pub open spec fn rescaled(s: Seq<(u64, Sample)>, scaled: Seq<(u64, u64)>) -> Seq<(u64, Sample)> {
    Seq::new(
        s.len(),
        |i: int| (scaled[i].0, Sample { value: s[i].1.value, weight: scaled[i].1 }),
    )
}

proof fn lemma_to_map_keys(s: Seq<(u64, Sample)>)
    ensures
        to_map(s).dom().finite(),
        forall|k: u64|
            to_map(s).contains_key(k) <==> exists|i: int| 0 <= i < s.len() && s[i].0 == k,
    decreases s.len(),
{
    if s.len() > 0 {
        let t = s.drop_last();
        lemma_to_map_keys(t);
        assert forall|k: u64|
            to_map(s).contains_key(k) <==> exists|i: int| 0 <= i < s.len() && s[i].0 == k by {
            if to_map(s).contains_key(k) {
                if k == s.last().0 {
                    assert(s[s.len() - 1].0 == k);
                } else {
                    let i = choose|i: int| 0 <= i < t.len() && t[i].0 == k;
                    assert(s[i].0 == k);
                }
            }
            if exists|i: int| 0 <= i < s.len() && s[i].0 == k {
                let i = choose|i: int| 0 <= i < s.len() && s[i].0 == k;
                if i < s.len() - 1 {
                    assert(t[i].0 == k);
                }
            }
        }
    }
}

proof fn lemma_to_map_sorted(s: Seq<(u64, Sample)>)
    requires
        strictly_sorted(s),
    ensures
        to_map(s).len() == s.len(),
        forall|i: int|
            0 <= i < s.len() ==> to_map(s).contains_key(#[trigger] s[i].0) && to_map(s)[s[i].0]
                == s[i].1,
    decreases s.len(),
{
    lemma_to_map_keys(s);
    if s.len() > 0 {
        let t = s.drop_last();
        lemma_to_map_sorted(t);
        lemma_to_map_keys(t);
        if to_map(t).contains_key(s.last().0) {
            let i = choose|i: int| 0 <= i < t.len() && t[i].0 == s.last().0;
            assert(s[i].0 < s[s.len() - 1].0);
        }
        assert forall|i: int| 0 <= i < s.len() - 1 implies to_map(s).contains_key(
            #[trigger] s[i].0,
        ) && to_map(s)[s[i].0] == s[i].1 by {
            assert(t[i] == s[i]);
            assert(s[i].0 < s[s.len() - 1].0);
        }
    }
}

/// A strictly sorted `y` builds `m` when its pairs are exactly `m`'s.
proof fn lemma_to_map_ext(y: Seq<(u64, Sample)>, m: Map<u64, Sample>)
    requires
        strictly_sorted(y),
        forall|i: int| 0 <= i < y.len() ==> m.contains_key(#[trigger] y[i].0) && m[y[i].0] == y[i].1,
        forall|k: u64| m.contains_key(k) ==> exists|i: int| 0 <= i < y.len() && y[i].0 == k,
    ensures
        to_map(y) == m,
{
    lemma_to_map_keys(y);
    lemma_to_map_sorted(y);
    assert forall|k: u64| #[trigger] m.contains_key(k) implies to_map(y).contains_key(k) && to_map(
        y,
    )[k] == m[k] by {
        let i = choose|i: int| 0 <= i < y.len() && y[i].0 == k;
        assert(y[i].0 == k);
    }
    assert(to_map(y) =~= m);
}

proof fn lemma_min_unique(m: Map<u64, Sample>, k: u64)
    requires
        is_min_key(m, k),
    ensures
        min_key(m) == k,
{
    let c = min_key(m);
    assert(is_min_key(m, c));
    assert(c <= k && k <= c);
}

/// First index of `v` whose priority is at least `key`.
fn lower_bound(v: &Vec<(u64, Sample)>, key: u64) -> (p: usize)
    requires
        strictly_sorted(v@),
    ensures
        p <= v.len(),
        forall|i: int| 0 <= i < p ==> v@[i].0 < key,
        forall|i: int| p <= i < v.len() ==> v@[i].0 >= key,
{
    let mut lo: usize = 0;
    let mut hi: usize = v.len();
    while lo < hi
        invariant
            lo <= hi <= v.len(),
            strictly_sorted(v@),
            forall|i: int| 0 <= i < lo ==> v@[i].0 < key,
            forall|i: int| hi <= i < v.len() ==> v@[i].0 >= key,
        decreases hi - lo,
    {
        let mid = lo + (hi - lo) / 2;
        if v[mid].0 < key {
            lo = mid + 1;
        } else {
            hi = mid;
        }
    }
    lo
}

/// Inserts `(key, sample)`, replacing the pair of equal priority if there is
/// one; returns whether there was.
fn put(v: &mut Vec<(u64, Sample)>, key: u64, sample: Sample) -> (replaced: bool)
    requires
        strictly_sorted(old(v)@),
    ensures
        strictly_sorted(final(v)@),
        to_map(final(v)@) == to_map(old(v)@).insert(key, sample),
        replaced == to_map(old(v)@).contains_key(key),
        final(v).len() == old(v).len() + if replaced { 0int } else { 1 },
        !replaced ==> forall|i: int|
            0 <= i < old(v).len() && old(v)@[i].0 < key ==> final(v)@[i] == old(v)@[i],
{
    let p = lower_bound(v, key);
    proof {
        lemma_to_map_keys(v@);
        lemma_to_map_sorted(v@);
    }
    if p < v.len() && v[p].0 == key {
        let ghost s = v@;
        v.set(p, (key, sample));
        proof {
            let m = to_map(s).insert(key, sample);
            assert forall|k: u64| m.contains_key(k) implies exists|i: int|
                0 <= i < v@.len() && v@[i].0 == k by {
                if k != key {
                    let i = choose|i: int| 0 <= i < s.len() && s[i].0 == k;
                    assert(v@[i].0 == k);
                } else {
                    assert(v@[p as int].0 == k);
                }
            }
            lemma_to_map_ext(v@, m);
        }
        true
    } else {
        let ghost s = v@;
        v.insert(p, (key, sample));
        proof {
            assert(!to_map(s).contains_key(key)) by {
                if to_map(s).contains_key(key) {
                    let i = choose|i: int| 0 <= i < s.len() && s[i].0 == key;
                    if i < p {
                    } else if i > p {
                        assert(s[p as int].0 < s[i].0);
                    }
                }
            }
            let m = to_map(s).insert(key, sample);
            assert forall|i: int| 0 <= i < v@.len() implies m.contains_key(#[trigger] v@[i].0)
                && m[v@[i].0] == v@[i].1 by {
                if i < p {
                    assert(v@[i] == s[i]);
                } else if i > p {
                    assert(v@[i] == s[i - 1]);
                }
            }
            assert forall|k: u64| m.contains_key(k) implies exists|i: int|
                0 <= i < v@.len() && v@[i].0 == k by {
                if k != key {
                    let j = choose|j: int| 0 <= j < s.len() && s[j].0 == k;
                    if j < p {
                        assert(v@[j].0 == k);
                    } else {
                        assert(v@[j + 1].0 == k);
                    }
                } else {
                    assert(v@[p as int].0 == k);
                }
            }
            lemma_to_map_ext(v@, m);
        }
        false
    }
}

/// Drops the first pair of a strictly sorted sequence from the map it builds.
proof fn lemma_drop_first(y: Seq<(u64, Sample)>)
    requires
        strictly_sorted(y),
        y.len() > 0,
    ensures
        strictly_sorted(y.subrange(1, y.len() as int)),
        to_map(y.subrange(1, y.len() as int)) == to_map(y).remove(y[0].0),
{
    let z = y.subrange(1, y.len() as int);
    lemma_to_map_keys(y);
    lemma_to_map_sorted(y);
    let m = to_map(y).remove(y[0].0);
    assert forall|i: int| 0 <= i < z.len() implies m.contains_key(#[trigger] z[i].0) && m[z[i].0]
        == z[i].1 by {
        assert(z[i] == y[i + 1]);
        assert(y[0].0 < y[i + 1].0);
    }
    assert forall|k: u64| m.contains_key(k) implies exists|i: int| 0 <= i < z.len() && z[i].0 == k by {
        let j = choose|j: int| 0 <= j < y.len() && y[j].0 == k;
        assert(j != 0);
        assert(z[j - 1].0 == k);
    }
    lemma_to_map_ext(z, m);
}

/// The map that offering the pairs of `offers` in turn makes of `m`.
pub open spec fn offer_all(m: Map<u64, Sample>, capacity: nat, offers: Seq<(u64, Sample)>) -> Map<
    u64,
    Sample,
>
    decreases offers.len(),
{
    if offers.len() == 0 {
        m
    } else {
        offer_map(offer_all(m, capacity, offers.drop_last()), capacity, offers.last().0, offers.last().1)
    }
}

/// No two pairs of `s` share a priority.
pub open spec fn distinct_keys(s: Seq<(u64, Sample)>) -> bool {
    forall|i: int, j: int| 0 <= i < j < s.len() ==> s[i].0 != s[j].0
}

/// A finite, non-empty map has a smallest priority.
proof fn lemma_min_exists(m: Map<u64, Sample>)
    requires
        m.dom().finite(),
        m.len() > 0,
    ensures
        is_min_key(m, min_key(m)),
    decreases m.len(),
{
    let k = m.dom().choose();
    let rest = m.remove(k);
    if rest.len() == 0 {
        assert forall|j: u64| m.contains_key(j) implies k <= j by {
            if j != k {
                assert(rest.contains_key(j));
            }
        }
        assert(is_min_key(m, k));
    } else {
        lemma_min_exists(rest);
        let c = min_key(rest);
        let least = if c < k { c } else { k };
        assert forall|j: u64| m.contains_key(j) implies least <= j by {
            if j != k {
                assert(rest.contains_key(j));
            }
        }
        assert(is_min_key(m, least));
    }
}

/// Every pair of the map that `x` builds is a pair of `x`.
proof fn lemma_to_map_pairs(x: Seq<(u64, Sample)>)
    ensures
        forall|k: u64| #[trigger]
            to_map(x).contains_key(k) ==> exists|i: int|
                0 <= i < x.len() && x[i] == (k, to_map(x)[k]),
    decreases x.len(),
{
    if x.len() > 0 {
        let t = x.drop_last();
        lemma_to_map_pairs(t);
        assert forall|k: u64| #[trigger] to_map(x).contains_key(k) implies exists|i: int|
            0 <= i < x.len() && x[i] == (k, to_map(x)[k]) by {
            if k == x.last().0 {
                assert(x[x.len() - 1] == (k, to_map(x)[k]));
            } else {
                let i = choose|i: int| 0 <= i < t.len() && t[i] == (k, to_map(t)[k]);
                assert(x[i] == t[i]);
            }
        }
    }
}

/// Offering samples with distinct priorities to an empty reservoir keeps
/// every one of them while they fit, and fills it to capacity once they no
/// longer do; every sample retained is one that was offered, under the
/// priority it was offered with.
pub proof fn lemma_offers_fill_to_capacity(capacity: nat, offers: Seq<(u64, Sample)>)
    requires
        capacity > 0,
        distinct_keys(offers),
    ensures
        offer_all(Map::empty(), capacity, offers).dom().finite(),
        offers.len() <= capacity ==> offer_all(Map::empty(), capacity, offers).len()
            == offers.len(),
        offers.len() > capacity ==> offer_all(Map::empty(), capacity, offers).len() == capacity,
        forall|k: u64| #[trigger]
            offer_all(Map::empty(), capacity, offers).contains_key(k) ==> exists|i: int|
                0 <= i < offers.len() && offers[i] == (k, offer_all(Map::empty(), capacity, offers)[k]),
    decreases offers.len(),
{
    let m = offer_all(Map::empty(), capacity, offers);
    if offers.len() > 0 {
        let t = offers.drop_last();
        let (key, sample) = offers.last();
        lemma_offers_fill_to_capacity(capacity, t);
        let prev = offer_all(Map::empty(), capacity, t);
        assert(!prev.contains_key(key)) by {
            if prev.contains_key(key) {
                let i = choose|i: int| 0 <= i < t.len() && t[i] == (key, prev[key]);
                assert(offers[i].0 == offers[offers.len() - 1].0);
            }
        }
        if prev.len() >= capacity {
            lemma_min_exists(prev);
        }
        assert forall|k: u64| #[trigger] m.contains_key(k) implies exists|i: int|
            0 <= i < offers.len() && offers[i] == (k, m[k]) by {
            if k == key {
                assert(offers[offers.len() - 1] == (k, m[k]));
            } else {
                assert(prev.contains_key(k));
                let i = choose|i: int| 0 <= i < t.len() && t[i] == (k, prev[k]);
                assert(offers[i] == t[i]);
            }
        }
    }
}

/// When every value offered lies in `lo..=hi`, so does every value retained.
pub proof fn lemma_offers_stay_in_range(
    capacity: nat,
    offers: Seq<(u64, Sample)>,
    lo: i64,
    hi: i64,
)
    requires
        capacity > 0,
        distinct_keys(offers),
        forall|i: int| 0 <= i < offers.len() ==> lo <= #[trigger] offers[i].1.value <= hi,
    ensures
        forall|k: u64| #[trigger]
            offer_all(Map::empty(), capacity, offers).contains_key(k) ==> lo <= offer_all(
                Map::empty(),
                capacity,
                offers,
            )[k].value <= hi,
{
    let m = offer_all(Map::empty(), capacity, offers);
    lemma_offers_fill_to_capacity(capacity, offers);
    assert forall|k: u64| #[trigger] m.contains_key(k) implies lo <= m[k].value <= hi by {
        let i = choose|i: int| 0 <= i < offers.len() && offers[i] == (k, m[k]);
        assert(lo <= offers[i].1.value <= hi);
    }
}

/// Rescaling and then offering one sample never brings in a value from
/// elsewhere: each value retained afterwards was retained before, or is the
/// new sample's. Nothing is dropped but by collapse of equal priorities or
/// by eviction.
pub proof fn lemma_rescale_then_offer_keeps_values(
    s: Seq<(u64, Sample)>,
    scaled: Seq<(u64, u64)>,
    capacity: nat,
    key: u64,
    sample: Sample,
)
    requires
        scaled.len() == s.len(),
    ensures
        forall|k: u64| #[trigger]
            offer_map(to_map(rescaled(s, scaled)), capacity, key, sample).contains_key(k) ==> {
                ||| offer_map(to_map(rescaled(s, scaled)), capacity, key, sample)[k] == sample
                ||| exists|i: int|
                    0 <= i < s.len() && s[i].1.value == offer_map(
                        to_map(rescaled(s, scaled)),
                        capacity,
                        key,
                        sample,
                    )[k].value
            },
{
    let x = rescaled(s, scaled);
    let m = to_map(x);
    let after = offer_map(m, capacity, key, sample);
    lemma_to_map_pairs(x);
    assert forall|k: u64| #[trigger] after.contains_key(k) implies {
        ||| after[k] == sample
        ||| exists|i: int| 0 <= i < s.len() && s[i].1.value == after[k].value
    } by {
        if k != key {
            assert(m.contains_key(k) && after[k] == m[k]);
            let i = choose|i: int| 0 <= i < x.len() && x[i] == (k, m[k]);
            assert(s[i].1.value == after[k].value);
        }
    }
}

/// A bounded set of samples keyed by priority.
///
/// Priorities are order keys: integers whose order is the order of the
/// non-negative reals they stand for. No two samples share a priority.
pub struct Reservoir {
    entries: Vec<(u64, Sample)>,
    capacity: usize,
    count: u64,
}

impl View for Reservoir {
    type V = Map<u64, Sample>;

    /// The retained samples, by priority.
    closed spec fn view(&self) -> Map<u64, Sample> {
        to_map(self.entries@)
    }
}

impl Reservoir {
    /// The retained pairs in ascending order of priority.
    pub closed spec fn ordered(&self) -> Seq<(u64, Sample)> {
        self.entries@
    }

    /// The largest number of samples retained.
    pub closed spec fn capacity(&self) -> nat {
        self.capacity as nat
    }

    /// The number of updates made, saturating at `u64::MAX`.
    pub closed spec fn count(&self) -> u64 {
        self.count
    }

    /// Priorities increase strictly along the entries, and there are at
    /// most `capacity` of them, which is positive.
    pub closed spec fn wf(&self) -> bool {
        &&& strictly_sorted(self.entries@)
        &&& 0 < self.capacity
        &&& self.entries.len() <= self.capacity
    }

    /// What a well-formed reservoir's view and order say of each other.
    pub proof fn lemma_ordered(&self)
        requires
            self.wf(),
        ensures
            strictly_sorted(self.ordered()),
            self@ == to_map(self.ordered()),
            self@.len() == self.ordered().len(),
            self@.len() <= self.capacity(),
            self@.dom().finite(),
    {
        lemma_to_map_sorted(self.entries@);
        lemma_to_map_keys(self.entries@);
    }

    /// An empty reservoir that keeps at most `capacity` samples; a capacity
    /// of zero is refused.
    pub fn new(capacity: usize) -> (r: Result<Reservoir, HistogramError>)
        ensures
            capacity == 0 <==> r is Err,
            r is Err ==> r == Err::<Reservoir, _>(HistogramError::InvalidConfiguration),
            r matches Ok(res) ==> {
                &&& res.wf()
                &&& res@ == Map::<u64, Sample>::empty()
                &&& res.ordered() == Seq::<(u64, Sample)>::empty()
                &&& res.capacity() == capacity
                &&& res.count() == 0
            },
    {
        if capacity == 0 {
            Err(HistogramError::InvalidConfiguration)
        } else {
            let r = Reservoir { entries: Vec::new(), capacity, count: 0 };
            proof {
                assert(r.entries@ =~= Seq::<(u64, Sample)>::empty());
            }
            Ok(r)
        }
    }

    /// The number of retained samples.
    pub fn len(&self) -> (n: usize)
        requires
            self.wf(),
        ensures
            n == self@.len(),
            n == self.ordered().len(),
    {
        proof {
            self.lemma_ordered();
        }
        self.entries.len()
    }

    /// The largest number of samples retained.
    pub fn size(&self) -> (n: usize)
        ensures
            n == self.capacity(),
    {
        self.capacity
    }

    /// The number of updates made.
    pub fn total_count(&self) -> (n: u64)
        ensures
            n == self.count(),
    {
        self.count
    }

    /// The `i`-th retained pair in ascending order of priority.
    pub fn entry(&self, i: usize) -> (e: (u64, Sample))
        requires
            i < self.ordered().len(),
        ensures
            e == self.ordered()[i as int],
    {
        self.entries[i]
    }

    /// Counts one update and offers its sample at priority `key`, by the
    /// admission rule of `offer_map`.
    pub fn offer(&mut self, key: u64, sample: Sample)
        requires
            old(self).wf(),
        ensures
            final(self).wf(),
            final(self)@ == offer_map(old(self)@, old(self).capacity(), key, sample),
            final(self).capacity() == old(self).capacity(),
            final(self).count() == if old(self).count() == u64::MAX {
                u64::MAX
            } else {
                (old(self).count() + 1) as u64
            },
    {
        proof {
            self.lemma_ordered();
        }
        self.count = self.count.saturating_add(1);
        let n = self.entries.len();
        if n < self.capacity {
            put(&mut self.entries, key, sample);
        } else {
            let ghost s = self.entries@;
            let first = self.entries[0].0;
            proof {
                lemma_to_map_keys(s);
                lemma_to_map_sorted(s);
                assert forall|j: u64| to_map(s).contains_key(j) implies first <= j by {
                    let i = choose|i: int| 0 <= i < s.len() && s[i].0 == j;
                    assert(s[0].0 <= s[i].0);
                }
                lemma_min_unique(to_map(s), first);
            }
            if first < key {
                let replaced = put(&mut self.entries, key, sample);
                if !replaced {
                    let ghost t = self.entries@;
                    self.entries.remove(0);
                    proof {
                        lemma_drop_first(t);
                        assert(self.entries@ =~= t.subrange(1, t.len() as int));
                    }
                }
            }
        }
    }
    /// Replaces the priority and weight of every retained sample by the
    /// matching pair of `scaled` (in ascending order of the old priorities),
    /// keeping the values. Samples whose new priorities coincide collapse
    /// into the one that comes last.
    pub fn rescale(&mut self, scaled: &Vec<(u64, u64)>)
        requires
            old(self).wf(),
            scaled.len() == old(self).ordered().len(),
        ensures
            final(self).wf(),
            final(self)@ == to_map(rescaled(old(self).ordered(), scaled@)),
            final(self).capacity() == old(self).capacity(),
            final(self).count() == old(self).count(),
    {
        let ghost rs = rescaled(self.entries@, scaled@);
        let mut fresh: Vec<(u64, Sample)> = Vec::new();
        let mut i: usize = 0;
        proof {
            assert(rs.take(0) =~= Seq::<(u64, Sample)>::empty());
            assert(fresh@ =~= Seq::<(u64, Sample)>::empty());
        }
        while i < scaled.len()
            invariant
                i <= scaled.len() == self.entries.len(),
                self.wf(),
                rs == rescaled(self.entries@, scaled@),
                strictly_sorted(fresh@),
                fresh.len() <= i,
                to_map(fresh@) == to_map(rs.take(i as int)),
            decreases scaled.len() - i,
        {
            let (key, weight) = scaled[i];
            let value = self.entries[i].1.value;
            put(&mut fresh, key, Sample { value, weight });
            proof {
                assert(rs.take(i + 1).drop_last() =~= rs.take(i as int));
            }
            i += 1;
        }
        proof {
            assert(rs.take(i as int) =~= rs);
        }
        self.entries = fresh;
    }

    /// The retained samples in ascending order of priority.
    pub fn samples(&self) -> (r: Vec<Sample>)
        requires
            self.wf(),
        ensures
            r@ == self.ordered().map_values(|e: (u64, Sample)| e.1),
            r.len() == self@.len(),
    {
        proof {
            self.lemma_ordered();
        }
        let mut r: Vec<Sample> = Vec::new();
        let mut i: usize = 0;
        while i < self.entries.len()
            invariant
                i <= self.entries.len(),
                r@ == self.entries@.take(i as int).map_values(|e: (u64, Sample)| e.1),
            decreases self.entries.len() - i,
        {
            r.push(self.entries[i].1);
            proof {
                assert(self.entries@.take(i + 1).map_values(|e: (u64, Sample)| e.1) =~= r@);
            }
            i += 1;
        }
        proof {
            assert(self.entries@.take(i as int) =~= self.entries@);
        }
        r
    }
}

} // verus!
