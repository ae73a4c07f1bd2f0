use vstd::prelude::*;

use crate::protocol::CxxrtlItem;
use crate::protocol::CxxrtlTimestamp;
use crate::protocol::Sample;
use crate::refs::VariableRef;

verus! {

/// A variable's value at one time, as little-endian 32-bit words.
pub struct TimedValue {
    pub time: u128,
    pub value: Vec<u32>,
}

/// The result of a point query: the sample active at the asked time, if any.
#[derive(Debug)]
pub struct QueryResult {
    pub current: Option<(CxxrtlTimestamp, Vec<u32>)>,
}

/// The decoded samples of an interval query, for each referenced variable.
pub struct QueryContainer {
    pub variables: Vec<VariableRef>,
    pub series: Vec<Vec<TimedValue>>,
}

pub type VarView = (Seq<Seq<char>>, Seq<char>);

pub open spec fn series_view(v: Seq<TimedValue>) -> Seq<(u128, Seq<u32>)> {
    v.map_values(|tv: TimedValue| (tv.time, tv.value@))
}

pub open spec fn samples_view(v: Seq<Sample>) -> Seq<(u128, Seq<u32>)> {
    v.map_values(|s: Sample| (s.time.femtoseconds, s.item_values@))
}

pub open spec fn vars_view(v: Seq<VariableRef>) -> Seq<VarView> {
    v.map_values(|r: VariableRef| r@)
}

pub open spec fn items_view(v: Seq<(VariableRef, CxxrtlItem)>) -> Seq<(VarView, u32)> {
    v.map_values(|p: (VariableRef, CxxrtlItem)| (p.0@, p.1.width))
}

/// Times in strictly increasing order.
pub open spec fn strictly_sorted(s: Seq<(u128, Seq<u32>)>) -> bool {
    forall|i: int, j: int| 0 <= i < j < s.len() ==> s[i].0 < s[j].0
}

/// `i` is the position of the latest sample at or before `t`.
pub open spec fn is_latest_at(s: Seq<(u128, Seq<u32>)>, i: int, t: u128) -> bool {
    0 <= i < s.len() && s[i].0 <= t && (i + 1 == s.len() || t < s[i + 1].0)
}

/// The width of the first item for `v`, if there is one.
pub open spec fn item_width(items: Seq<(VarView, u32)>, v: VarView) -> Option<u32>
    decreases items.len(),
{
    if items.len() == 0 {
        None
    } else {
        let r = item_width(items.drop_last(), v);
        if r is Some {
            r
        } else if items.last().0 == v {
            Some(items.last().1)
        } else {
            None
        }
    }
}

/// The number of 32-bit words that hold a value of `width` bits.
pub open spec fn n_words(width: u32) -> nat {
    ((width as nat) + 31) / 32
}

/// Where the value of the `k`-th referenced variable starts in a sample: the words of all
/// variables before it. Unknown if one of those has no known width.
pub open spec fn word_offset(widths: Seq<Option<u32>>, k: int) -> Option<nat>
    decreases k,
{
    if k <= 0 {
        Some(0)
    } else {
        match (word_offset(widths, k - 1), widths[k - 1]) {
            (Some(o), Some(w)) => if o + n_words(w) <= usize::MAX {
                Some(o + n_words(w))
            } else {
                None
            },
            _ => None,
        }
    }
}

/// The samples of one variable, whose value is the `n` words at `off`: a sample too short
/// to hold them, or not later than the one kept before it, is left out.
pub open spec fn series_of(samples: Seq<(u128, Seq<u32>)>, off: nat, n: nat) -> Seq<
    (u128, Seq<u32>),
>
    decreases samples.len(),
{
    if samples.len() == 0 {
        Seq::empty()
    } else {
        let p = series_of(samples.drop_last(), off, n);
        let s = samples.last();
        if off + n <= s.1.len() && (p.len() == 0 || p.last().0 < s.0) {
            p.push((s.0, s.1.subrange(off as int, (off + n) as int)))
        } else {
            p
        }
    }
}

/// The series of the `k`-th referenced variable.
pub open spec fn expected_series(
    widths: Seq<Option<u32>>,
    samples: Seq<(u128, Seq<u32>)>,
    k: int,
) -> Seq<(u128, Seq<u32>)> {
    match (word_offset(widths, k), widths[k]) {
        (Some(o), Some(w)) => series_of(samples, o, n_words(w)),
        _ => Seq::empty(),
    }
}

pub proof fn lemma_series_sorted(samples: Seq<(u128, Seq<u32>)>, off: nat, n: nat)
    ensures
        strictly_sorted(series_of(samples, off, n)),
    decreases samples.len(),
{
    if samples.len() > 0 {
        lemma_series_sorted(samples.drop_last(), off, n);
    }
}

/// The position of the first variable equal to `v`.
pub fn find_variable(vars: &Vec<VariableRef>, v: &VariableRef) -> (r: Option<usize>)
    ensures
        match r {
            Some(k) => k < vars@.len() && vars@[k as int]@ == v@ && forall|j: int|
                0 <= j < k ==> vars@[j]@ != v@,
            None => forall|j: int| 0 <= j < vars@.len() ==> vars@[j]@ != v@,
        },
{
    let mut i: usize = 0;
    while i < vars.len()
        invariant
            i <= vars@.len(),
            forall|j: int| 0 <= j < i ==> vars@[j]@ != v@,
        decreases vars.len() - i,
    {
        if vars[i] == *v {
            return Some(i);
        }
        i = i + 1;
    }
    None
}

/// The width of the first item for `v`.
pub fn find_item_width(items: &Vec<(VariableRef, CxxrtlItem)>, v: &VariableRef) -> (r: Option<
    u32,
>)
    ensures
        r == item_width(items_view(items@), v@),
{
    let ghost all = items_view(items@);
    let mut i: usize = 0;
    while i < items.len()
        invariant
            i <= items@.len(),
            all == items_view(items@),
            item_width(all.take(i as int), v@) is None,
        decreases items.len() - i,
    {
        proof {
            assert(all.take(i + 1).drop_last() =~= all.take(i as int));
        }
        if items[i].0 == *v {
            proof {
                lemma_item_width_prefix(all, v@, i + 1);
            }
            return Some(items[i].1.width);
        }
        i = i + 1;
    }
    proof {
        assert(all.take(items@.len() as int) =~= all);
    }
    None
}

/// Once a prefix has a match, longer prefixes keep it.
proof fn lemma_item_width_prefix(items: Seq<(VarView, u32)>, v: VarView, i: int)
    requires
        0 < i <= items.len(),
        item_width(items.take(i), v) is Some,
    ensures
        item_width(items, v) == item_width(items.take(i), v),
    decreases items.len() - i,
{
    if i < items.len() {
        assert(items.take(i + 1).drop_last() =~= items.take(i));
        lemma_item_width_prefix(items, v, i + 1);
    } else {
        assert(items.take(i) =~= items);
    }
}

fn copy_words(w: &Vec<u32>, from: usize, to: usize) -> (r: Vec<u32>)
    requires
        from <= to <= w@.len(),
    ensures
        r@ == w@.subrange(from as int, to as int),
{
    let mut out: Vec<u32> = Vec::new();
    let mut i: usize = from;
    while i < to
        invariant
            from <= i <= to <= w@.len(),
            out@ == w@.subrange(from as int, i as int),
        decreases to - i,
    {
        out.push(w[i]);
        proof {
            assert(out@ =~= w@.subrange(from as int, i + 1));
        }
        i = i + 1;
    }
    out
}

/// The series of one variable whose value is the `n` words at `off`.
fn decode_series(samples: &Vec<Sample>, off: usize, n: usize) -> (r: Vec<TimedValue>)
    ensures
        series_view(r@) == series_of(samples_view(samples@), off as nat, n as nat),
{
    let ghost all = samples_view(samples@);
    let mut out: Vec<TimedValue> = Vec::new();
    let mut i: usize = 0;
    proof {
        assert(all.take(0) =~= Seq::<(u128, Seq<u32>)>::empty());
        assert(series_view(out@) =~= Seq::<(u128, Seq<u32>)>::empty());
    }
    while i < samples.len()
        invariant
            i <= samples@.len(),
            all == samples_view(samples@),
            series_view(out@) == series_of(all.take(i as int), off as nat, n as nat),
        decreases samples.len() - i,
    {
        proof {
            assert(all.take(i + 1).drop_last() =~= all.take(i as int));
            assert(all.take(i + 1).last() == all[i as int]);
        }
        let s = &samples[i];
        let fits = n <= s.item_values.len() && off <= s.item_values.len() - n;
        let later = out.len() == 0 || out[out.len() - 1].time < s.time.femtoseconds;
        if fits && later {
            let value = copy_words(&s.item_values, off, off + n);
            let tv = TimedValue { time: s.time.femtoseconds, value };
            proof {
                assert(series_view(out@.push(tv)) =~= series_view(out@).push((tv.time, tv.value@)));
            }
            out.push(tv);
        }
        i = i + 1;
    }
    proof {
        assert(all.take(samples@.len() as int) =~= all);
    }
    out
}

impl QueryContainer {
    /// Each referenced variable has a series, in strictly increasing time.
    pub open spec fn wf(&self) -> bool {
        &&& self.variables@.len() == self.series@.len()
        &&& forall|k: int|
            0 <= k < self.series@.len() ==> strictly_sorted(#[trigger] series_view(self.series@[k]@))
    }

    /// The value of `v` at `t`, if `v` is referenced and a sample is active at `t`.
    pub open spec fn value_at(&self, v: VarView, t: u128) -> Option<(u128, Seq<u32>)> {
        match find_first(vars_view(self.variables@), v) {
            Some(k) => latest_at(self.series_at(k), t),
            None => None,
        }
    }

    /// The series of the `k`-th referenced variable.
    pub open spec fn series_at(&self, k: int) -> Seq<(u128, Seq<u32>)> {
        series_view(self.series@[k]@)
    }

    pub fn empty() -> (r: QueryContainer)
        ensures
            r.wf(),
            r.variables@.len() == 0,
    {
        QueryContainer { variables: Vec::new(), series: Vec::new() }
    }

    /// Decodes the samples of an interval query over the variables `loaded_signals`, whose
    /// widths come from `info`. Replaces what was held before.
    pub fn populate(
        &mut self,
        loaded_signals: Vec<VariableRef>,
        info: &Vec<(VariableRef, CxxrtlItem)>,
        samples: &Vec<Sample>,
    )
        ensures
            final(self).wf(),
            final(self).variables@ == loaded_signals@,
            forall|k: int|
                0 <= k < loaded_signals@.len() ==> #[trigger] final(self).series_at(k)
                    == expected_series(
                    vars_view(loaded_signals@).map_values(
                        |v: VarView| item_width(items_view(info@), v),
                    ),
                    samples_view(samples@),
                    k,
                ),
    {
        let ghost widths = vars_view(loaded_signals@).map_values(
            |v: VarView| item_width(items_view(info@), v),
        );
        let ghost all = samples_view(samples@);
        let mut series: Vec<Vec<TimedValue>> = Vec::new();
        let mut off: Option<usize> = Some(0);
        let mut k: usize = 0;
        while k < loaded_signals.len()
            invariant
                k <= loaded_signals@.len(),
                widths.len() == loaded_signals@.len(),
                widths == vars_view(loaded_signals@).map_values(
                    |v: VarView| item_width(items_view(info@), v),
                ),
                all == samples_view(samples@),
                series@.len() == k,
                match off {
                    Some(o) => word_offset(widths, k as int) == Some(o as nat),
                    None => word_offset(widths, k as int) is None,
                },
                forall|j: int|
                    0 <= j < k ==> #[trigger] series_view(series@[j]@) == expected_series(
                        widths,
                        all,
                        j,
                    ),
            decreases loaded_signals.len() - k,
        {
            let width = find_item_width(info, &loaded_signals[k]);
            proof {
                assert(widths[k as int] == width);
            }
            let mut next: Option<usize> = None;
            let s = match (off, width) {
                (Some(o), Some(w)) => {
                    let n: usize = (w / 32 + if w % 32 == 0 { 0 } else { 1 }) as usize;
                    proof {
                        assert(n as nat == n_words(w));
                    }
                    if o <= usize::MAX - n {
                        next = Some(o + n);
                    }
                    decode_series(samples, o, n)
                },
                _ => Vec::new(),
            };
            proof {
                if width is None || off is None {
                    assert(series_view(s@) =~= Seq::<(u128, Seq<u32>)>::empty());
                }
            }
            series.push(s);
            off = next;
            proof {
                assert forall|j: int| 0 <= j < k + 1 implies #[trigger] series_view(series@[j]@)
                    == expected_series(widths, all, j) by {}
            }
            k = k + 1;
        }
        proof {
            assert forall|k: int| 0 <= k < series@.len() implies strictly_sorted(
                #[trigger] series_view(series@[k]@),
            ) by {
                match (word_offset(widths, k), widths[k]) {
                    (Some(o), Some(w)) => lemma_series_sorted(all, o, n_words(w)),
                    _ => {},
                }
            }
        }
        self.variables = loaded_signals;
        self.series = series;
    }
}


/// The position just past the last sample at or before `t`.
fn upper_bound(s: &Vec<TimedValue>, t: u128) -> (r: usize)
    requires
        strictly_sorted(series_view(s@)),
    ensures
        r <= s@.len(),
        forall|j: int| 0 <= j < r ==> s@[j].time <= t,
        forall|j: int| r <= j < s@.len() ==> t < s@[j].time,
{
    let ghost v = series_view(s@);
    let mut lo: usize = 0;
    let mut hi: usize = s.len();
    while lo < hi
        invariant
            lo <= hi <= s@.len(),
            v == series_view(s@),
            strictly_sorted(v),
            forall|j: int| 0 <= j < lo ==> s@[j].time <= t,
            forall|j: int| hi <= j < s@.len() ==> t < s@[j].time,
        decreases hi - lo,
    {
        let mid = lo + (hi - lo) / 2;
        if s[mid].time <= t {
            proof {
                assert forall|j: int| 0 <= j <= mid implies s@[j].time <= t by {
                    if j < mid {
                        assert(v[j].0 < v[mid as int].0);
                    }
                }
            }
            lo = mid + 1;
        } else {
            proof {
                assert forall|j: int| mid <= j < s@.len() implies t < s@[j].time by {
                    if j > mid {
                        assert(v[mid as int].0 < v[j].0);
                    }
                }
            }
            hi = mid;
        }
    }
    lo
}

/// The sample of `s` active at `t`: the latest one at or before `t`.
pub open spec fn latest_at(s: Seq<(u128, Seq<u32>)>, t: u128) -> Option<(u128, Seq<u32>)> {
    if exists|i: int| is_latest_at(s, i, t) {
        Some(s[choose|i: int| is_latest_at(s, i, t)])
    } else {
        None
    }
}

/// In a strictly sorted series, the sample active at `t` is the one with the largest time at
/// or before `t`, and there is none when `t` precedes the first sample.
pub proof fn lemma_latest_at(s: Seq<(u128, Seq<u32>)>, t: u128)
    requires
        strictly_sorted(s),
    ensures
        (s.len() == 0 || t < s[0].0) ==> latest_at(s, t) is None,
        forall|i: int|
            0 <= i < s.len() && s[i].0 <= t && (forall|j: int| 0 <= j < s.len() && s[j].0 <= t ==> j <= i)
                ==> latest_at(s, t) == Some(s[i]),
{
    assert forall|i: int|
        0 <= i < s.len() && s[i].0 <= t && (forall|j: int| 0 <= j < s.len() && s[j].0 <= t ==> j <= i)
            implies latest_at(s, t) == Some(s[i]) by {
        if i + 1 < s.len() {
            if s[i + 1].0 <= t {
                assert(i + 1 <= i);
            }
        }
        assert(is_latest_at(s, i, t));
        lemma_latest_unique(s, t, i);
    }
    if s.len() > 0 && t < s[0].0 {
        assert forall|i: int| !is_latest_at(s, i, t) by {
            if 0 < i < s.len() {
                assert(s[0].0 < s[i].0);
            }
        }
    }
}

proof fn lemma_latest_unique(s: Seq<(u128, Seq<u32>)>, t: u128, i: int)
    requires
        strictly_sorted(s),
        is_latest_at(s, i, t),
    ensures
        latest_at(s, t) == Some(s[i]),
{
    let c = choose|c: int| is_latest_at(s, c, t);
    assert(is_latest_at(s, c, t));
    if c < i {
        assert(s[c + 1].0 <= s[i].0);
    } else if c > i {
        assert(s[i + 1].0 <= s[c].0);
    }
}

impl QueryResult {
    /// The time and words of the sample, if any.
    pub open spec fn view(&self) -> Option<(u128, Seq<u32>)> {
        match self.current {
            Some((ts, v)) => Some((ts.femtoseconds, v@)),
            None => None,
        }
    }

    /// No sample.
    pub fn none() -> (r: QueryResult)
        ensures
            r.current is None,
    {
        QueryResult { current: None }
    }
}

impl QueryContainer {
    /// The value of `variable` at `time`: the latest sample at or before `time`. None if
    /// `time` precedes the first sample or the variable is not referenced.
    pub fn query(&self, variable: &VariableRef, time: u128) -> (r: QueryResult)
        requires
            self.wf(),
        ensures
            r.view() == self.value_at(variable@, time),
    {
        match find_variable(&self.variables, variable) {
            None => {
                proof {
                    let vs = vars_view(self.variables@);
                    assert forall|j: int| 0 <= j < vs.len() implies vs[j] != variable@ by {
                        assert(vs[j] == self.variables@[j]@);
                    }
                    lemma_find_first_none(vars_view(self.variables@), variable@);
                }
                QueryResult::none()
            },
            Some(k) => {
                proof {
                    let vs = vars_view(self.variables@);
                    assert forall|j: int| 0 <= j < k implies vs[j] != variable@ by {
                        assert(vs[j] == self.variables@[j]@);
                    }
                    lemma_find_first_some(vars_view(self.variables@), variable@, k as int);
                    assert(strictly_sorted(series_view(self.series@[k as int]@)));
                }
                let s = &self.series[k];
                let idx = upper_bound(s, time);
                if idx == 0 {
                    proof {
                        let sv = self.series_at(k as int);
                        assert forall|i: int| 0 <= i < sv.len() implies time < #[trigger] sv[i].0 by {
                            assert(sv[i].0 == s@[i].time);
                        }
                        lemma_latest_at(sv, time);
                    }
                    QueryResult::none()
                } else {
                    let tv = &s[idx - 1];
                    let value = copy_words(&tv.value, 0, tv.value.len());
                    let r = QueryResult {
                        current: Some((CxxrtlTimestamp::from_femtoseconds(tv.time), value)),
                    };
                    proof {
                        assert(tv.value@.subrange(0, tv.value@.len() as int) =~= tv.value@);
                        let sv = self.series_at(k as int);
                        if idx < sv.len() {
                            assert(sv[idx as int].0 == s@[idx as int].time);
                        }
                        lemma_latest_unique(sv, time, idx - 1);
                    }
                    r
                }
            },
        }
    }
}

/// The position of the first element equal to `v`.
pub open spec fn find_first<A>(s: Seq<A>, v: A) -> Option<int> {
    if exists|k: int| 0 <= k < s.len() && s[k] == v && forall|j: int| 0 <= j < k ==> s[j] != v {
        Some(choose|k: int| 0 <= k < s.len() && s[k] == v && forall|j: int| 0 <= j < k ==> s[j] != v)
    } else {
        None
    }
}

/// What the first position of `v` is, when there is one.
pub proof fn lemma_find_first_spec<A>(s: Seq<A>, v: A)
    ensures
        find_first(s, v) matches Some(k) ==> (0 <= k < s.len() && s[k] == v && forall|j: int|
            0 <= j < k ==> s[j] != v),
        find_first(s, v) is None ==> forall|j: int| 0 <= j < s.len() ==> s[j] != v,
{
    assert forall|j: int| 0 <= j < s.len() && s[j] == v implies find_first(s, v) is Some by {
        lemma_first_exists(s, v, j);
    }
}

proof fn lemma_first_exists<A>(s: Seq<A>, v: A, j: int)
    requires
        0 <= j < s.len(),
        s[j] == v,
    ensures
        exists|k: int| 0 <= k < s.len() && s[k] == v && forall|i: int| 0 <= i < k ==> s[i] != v,
    decreases j,
{
    if exists|i: int| 0 <= i < j && s[i] == v {
        let i = choose|i: int| 0 <= i < j && s[i] == v;
        lemma_first_exists(s, v, i);
    } else {
        assert(forall|i: int| 0 <= i < j ==> s[i] != v);
    }
}

pub proof fn lemma_find_first_none<A>(s: Seq<A>, v: A)
    requires
        forall|j: int| 0 <= j < s.len() ==> s[j] != v,
    ensures
        find_first(s, v) is None,
{
}

pub proof fn lemma_find_first_some<A>(s: Seq<A>, v: A, k: int)
    requires
        0 <= k < s.len(),
        s[k] == v,
        forall|j: int| 0 <= j < k ==> s[j] != v,
    ensures
        find_first(s, v) == Some(k),
{
    let c = choose|c: int| 0 <= c < s.len() && s[c] == v && forall|j: int| 0 <= j < c ==> s[j] != v;
    assert(0 <= c < s.len() && s[c] == v && forall|j: int| 0 <= j < c ==> s[j] != v);
    if c < k {
        assert(s[c] != v);
    } else if c > k {
        assert(s[k] != v);
    }
}

} // verus!
