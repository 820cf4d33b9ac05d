//! Per-request latency records and benchmark statistics.
use vstd::prelude::*;
use vstd::relations::{sorted_by, total_ordering};

use crate::text::{decimal, push_chars, push_decimal, push_str, strip_trailing, trim_end_char};

verus! {

broadcast use vstd::seq_lib::group_to_multiset_ensures;

/// Metadata about one completed request.
#[derive(Debug)]
pub struct RequestRecord {
    pub method: String,
    pub path: String,
    pub latency_ms: u128,
    pub timestamp: String,
}

impl Clone for RequestRecord {
    fn clone(&self) -> (r: RequestRecord)
        ensures
            r == *self,
    {
        RequestRecord {
            method: self.method.clone(),
            path: self.path.clone(),
            latency_ms: self.latency_ms,
            timestamp: self.timestamp.clone(),
        }
    }
}

/// The label of a latency: its value in milliseconds, then whether it is
/// fast (under 50 ms), ok (under 200 ms) or slow.
pub open spec fn latency_label(ms: u128) -> Seq<char> {
    decimal(ms as nat) + if ms < 50 {
        "ms ✅ fast"@
    } else if ms < 200 {
        "ms ⚡ ok"@
    } else {
        "ms ⚠️  slow"@
    }
}

/// Formats a latency with a label for its speed.
pub fn format_latency(ms: u128) -> (r: String)
    ensures
        r@ == latency_label(ms),
{
    let mut r = String::new();
    push_decimal(&mut r, ms);
    if ms < 50 {
        push_str(&mut r, "ms ✅ fast");
    } else if ms < 200 {
        push_str(&mut r, "ms ⚡ ok");
    } else {
        push_str(&mut r, "ms ⚠️  slow");
    }
    assert(r@ =~= latency_label(ms));
    r
}

impl RequestRecord {
    /// The line that logs this record.
    pub open spec fn log_text(&self) -> Seq<char> {
        "  ↳ "@ + self.method@ + " "@ + self.path@ + " — "@ + latency_label(self.latency_ms)
            + " ["@ + self.timestamp@ + "]"@
    }

    /// The line that logs this record: method, path, latency label and time.
    pub fn log_line(&self) -> (r: String)
        ensures
            r@ == self.log_text(),
    {
        let mut r = String::new();
        push_str(&mut r, "  ↳ ");
        push_str(&mut r, self.method.as_str());
        push_str(&mut r, " ");
        push_str(&mut r, self.path.as_str());
        push_str(&mut r, " — ");
        let label = format_latency(self.latency_ms);
        push_str(&mut r, label.as_str());
        push_str(&mut r, " [");
        push_str(&mut r, self.timestamp.as_str());
        push_str(&mut r, "]");
        assert(r@ =~= self.log_text());
        r
    }
}

/// Statistics collected over a benchmark run.
#[derive(Debug)]
pub struct BenchmarkStats {
    pub total_requests: usize,
    pub successful: usize,
    pub failed: usize,
    pub latencies_ms: Vec<u128>,
}

impl Default for BenchmarkStats {
    fn default() -> (r: Self)
        ensures
            r.total_requests == 0,
            r.successful == 0,
            r.failed == 0,
            r.latencies_ms@ == Seq::<u128>::empty(),
    {
        BenchmarkStats { total_requests: 0, successful: 0, failed: 0, latencies_ms: Vec::new() }
    }
}

/// The order by which latencies are sorted.
pub open spec fn at_most() -> spec_fn(u128, u128) -> bool {
    |a: u128, b: u128| a <= b
}

/// The latencies in ascending order.
pub open spec fn ascending(s: Seq<u128>) -> Seq<u128> {
    s.sort_by(at_most())
}

/// The sum of the latencies.
pub open spec fn seq_sum(s: Seq<u128>) -> nat
    decreases s.len(),
{
    if s.len() == 0 {
        0
    } else {
        seq_sum(s.drop_last()) + s.last() as nat
    }
}

/// The total of no latency is 0, and recording one more latency adds it
/// to the total, whatever came before.
pub proof fn law_seq_sum_push(s: Seq<u128>, x: u128)
    ensures
        seq_sum(Seq::<u128>::empty()) == 0,
        seq_sum(s.push(x)) == seq_sum(s) + x,
{
    assert(s.push(x).drop_last() =~= s);
}

/// The sum of a prefix is at most the sum of the whole.
pub proof fn lemma_seq_sum_prefix(s: Seq<u128>, n: int)
    requires
        0 <= n <= s.len(),
    ensures
        seq_sum(s.take(n)) <= seq_sum(s),
    decreases s.len() - n,
{
    if n < s.len() {
        lemma_seq_sum_prefix(s, n + 1);
        assert(s.take(n + 1).drop_last() =~= s.take(n));
    } else {
        assert(s.take(n) =~= s);
    }
}

/// The smallest latency, or 0 when there is none.
pub open spec fn seq_min(s: Seq<u128>) -> u128
    decreases s.len(),
{
    if s.len() == 0 {
        0
    } else if s.len() == 1 {
        s[0]
    } else if s.last() < seq_min(s.drop_last()) {
        s.last()
    } else {
        seq_min(s.drop_last())
    }
}

/// The largest latency, or 0 when there is none.
pub open spec fn seq_max(s: Seq<u128>) -> u128
    decreases s.len(),
{
    if s.len() == 0 {
        0
    } else if s.len() == 1 {
        s[0]
    } else if s.last() > seq_max(s.drop_last()) {
        s.last()
    } else {
        seq_max(s.drop_last())
    }
}

/// The position of the 95th percentile among `n` sorted values:
/// `ceil(0.95 * n) - 1`, at least 0 and at most `n - 1`.
pub open spec fn p95_index(n: nat) -> int {
    let c = (95 * n + 99) / 100;
    let i = if c > 0 {
        c - 1
    } else {
        0
    };
    if i < n - 1 {
        i
    } else {
        n - 1
    }
}

/// The 95th percentile latency, or 0 when there is none.
pub open spec fn seq_p95(s: Seq<u128>) -> u128 {
    if s.len() == 0 {
        0
    } else {
        ascending(s)[p95_index(s.len())]
    }
}

proof fn lemma_at_most_total()
    ensures
        total_ordering(at_most()),
{
}

/// The smallest latency is one of them and no other is smaller.
pub proof fn lemma_seq_min(s: Seq<u128>)
    requires
        s.len() > 0,
    ensures
        s.contains(seq_min(s)),
        forall|i: int| 0 <= i < s.len() ==> seq_min(s) <= s[i],
    decreases s.len(),
{
    if s.len() > 1 {
        lemma_seq_min(s.drop_last());
        let m = seq_min(s.drop_last());
        let j = choose|j: int| 0 <= j < s.drop_last().len() && s.drop_last()[j] == m;
        assert(s[j] == m);
        if s.last() < m {
            assert(s[s.len() - 1] == s.last());
        }
        assert forall|i: int| 0 <= i < s.len() implies seq_min(s) <= s[i] by {
            if i < s.len() - 1 {
                assert(s.drop_last()[i] == s[i]);
            }
        }
    } else {
        assert(s[0] == seq_min(s));
    }
}

/// The largest latency is one of them and no other is larger.
pub proof fn lemma_seq_max(s: Seq<u128>)
    requires
        s.len() > 0,
    ensures
        s.contains(seq_max(s)),
        forall|i: int| 0 <= i < s.len() ==> s[i] <= seq_max(s),
    decreases s.len(),
{
    if s.len() > 1 {
        lemma_seq_max(s.drop_last());
        let m = seq_max(s.drop_last());
        let j = choose|j: int| 0 <= j < s.drop_last().len() && s.drop_last()[j] == m;
        assert(s[j] == m);
        if s.last() > m {
            assert(s[s.len() - 1] == s.last());
        }
        assert forall|i: int| 0 <= i < s.len() implies s[i] <= seq_max(s) by {
            if i < s.len() - 1 {
                assert(s.drop_last()[i] == s[i]);
            }
        }
    } else {
        assert(s[0] == seq_max(s));
    }
}

/// A copy of `v` in ascending order.
fn sorted_copy(v: &Vec<u128>) -> (r: Vec<u128>)
    ensures
        r@ == ascending(v@),
        r@.len() == v@.len(),
{
    let mut r: Vec<u128> = Vec::new();
    for i in 0..v.len()
        invariant
            sorted_by(r@, at_most()),
            r@.to_multiset() == v@.take(i as int).to_multiset(),
    {
        let x = v[i];
        let mut pos: usize = 0;
        while pos < r.len() && r[pos] <= x
            invariant
                pos <= r.len(),
                forall|j: int| 0 <= j < pos ==> r@[j] <= x,
            decreases r.len() - pos,
        {
            pos += 1;
        }
        let ghost before = r@;
        r.insert(pos, x);
        proof {
            assert(pos < before.len() ==> x < before[pos as int]);
            assert forall|a: int, b: int| 0 <= a < b < r@.len() implies #[trigger] at_most()(
                r@[a],
                r@[b],
            ) by {
                assert(sorted_by(before, at_most()));
                if b < pos {
                    assert(at_most()(before[a], before[b]));
                } else if b == pos {
                } else if a < pos {
                    assert(at_most()(before[a], before[b - 1]));
                } else if a == pos {
                    assert(at_most()(before[pos as int], before[b - 1]));
                } else {
                    assert(at_most()(before[a - 1], before[b - 1]));
                }
            }
            assert(v@.take(i + 1) =~= v@.take(i as int).push(x));
        }
    }
    proof {
        assert(v@.take(v.len() as int) =~= v@);
        lemma_at_most_total();
        v@.lemma_sort_by_ensures(at_most());
        vstd::seq_lib::lemma_sorted_unique(r@, ascending(v@), at_most());
        assert(r@.to_multiset().len() == v@.to_multiset().len());
    }
    r
}

impl BenchmarkStats {
    /// The counters agree: every request succeeded or failed, and each
    /// success has its latency.
    pub open spec fn consistent(&self) -> bool {
        &&& self.total_requests == self.successful + self.failed
        &&& self.successful == self.latencies_ms@.len()
    }

    /// Counts a successful request and keeps its latency.
    pub fn record_success(&mut self, latency_ms: u128)
        requires
            old(self).total_requests < usize::MAX,
            old(self).successful < usize::MAX,
        ensures
            final(self).total_requests == old(self).total_requests + 1,
            final(self).successful == old(self).successful + 1,
            final(self).failed == old(self).failed,
            final(self).latencies_ms@ == old(self).latencies_ms@.push(latency_ms),
            old(self).consistent() ==> final(self).consistent(),
    {
        self.total_requests += 1;
        self.successful += 1;
        self.latencies_ms.push(latency_ms);
    }

    /// Counts a failed request.
    pub fn record_failure(&mut self)
        requires
            old(self).total_requests < usize::MAX,
            old(self).failed < usize::MAX,
        ensures
            final(self).total_requests == old(self).total_requests + 1,
            final(self).successful == old(self).successful,
            final(self).failed == old(self).failed + 1,
            final(self).latencies_ms@ == old(self).latencies_ms@,
            old(self).consistent() ==> final(self).consistent(),
    {
        self.total_requests += 1;
        self.failed += 1;
    }

    /// The sum of the latencies, or `None` when it does not fit in a `u128`.
    pub fn total_latency(&self) -> (r: Option<u128>)
        ensures
            match r {
                Some(t) => t == seq_sum(self.latencies_ms@),
                None => seq_sum(self.latencies_ms@) > u128::MAX,
            },
    {
        let v = &self.latencies_ms;
        let mut total: u128 = 0;
        for i in 0..v.len()
            invariant
                v@ == self.latencies_ms@,
                total == seq_sum(v@.take(i as int)),
        {
            assert(v@.take(i + 1).drop_last() =~= v@.take(i as int));
            match total.checked_add(v[i]) {
                Some(t) => total = t,
                None => {
                    proof {
                        assert(v@.take(i + 1).last() == v@[i as int]);
                        assert(seq_sum(v@.take(i + 1)) == total + v@[i as int]);
                        lemma_seq_sum_prefix(v@, i + 1);
                    }
                    return None;
                },
            }
        }
        assert(v@.take(v.len() as int) =~= v@);
        Some(total)
    }

    /// The smallest latency, or 0 when there is none.
    pub fn min_latency(&self) -> (r: u128)
        ensures
            r == seq_min(self.latencies_ms@),
    {
        let v = &self.latencies_ms;
        if v.len() == 0 {
            return 0;
        }
        let mut m = v[0];
        let mut i: usize = 1;
        assert(v@.take(1) =~= seq![v@[0]]);
        while i < v.len()
            invariant
                1 <= i <= v.len(),
                m == seq_min(v@.take(i as int)),
            decreases v.len() - i,
        {
            assert(v@.take(i + 1).drop_last() =~= v@.take(i as int));
            if v[i] < m {
                m = v[i];
            }
            i += 1;
        }
        assert(v@.take(v.len() as int) =~= v@);
        m
    }

    /// The largest latency, or 0 when there is none.
    pub fn max_latency(&self) -> (r: u128)
        ensures
            r == seq_max(self.latencies_ms@),
    {
        let v = &self.latencies_ms;
        if v.len() == 0 {
            return 0;
        }
        let mut m = v[0];
        let mut i: usize = 1;
        assert(v@.take(1) =~= seq![v@[0]]);
        while i < v.len()
            invariant
                1 <= i <= v.len(),
                m == seq_max(v@.take(i as int)),
            decreases v.len() - i,
        {
            assert(v@.take(i + 1).drop_last() =~= v@.take(i as int));
            if v[i] > m {
                m = v[i];
            }
            i += 1;
        }
        assert(v@.take(v.len() as int) =~= v@);
        m
    }

    /// The 95th percentile latency: the value at position
    /// `ceil(0.95 * n) - 1` of the `n` latencies in ascending order, or 0
    /// when there is none.
    pub fn p95_latency(&self) -> (r: u128)
        ensures
            r == seq_p95(self.latencies_ms@),
    {
        let n = self.latencies_ms.len();
        if n == 0 {
            return 0;
        }
        let sorted = sorted_copy(&self.latencies_ms);
        let c: u128 = ((n as u128) * 95 + 99) / 100;
        let i: u128 = if c > 0 {
            c - 1
        } else {
            0
        };
        let idx: usize = if i < (n - 1) as u128 {
            i as usize
        } else {
            n - 1
        };
        sorted[idx]
    }
}

/// The 95th percentile lies between the smallest and the largest latency,
/// and is one of the latencies.
pub proof fn law_p95_between_min_and_max(s: Seq<u128>)
    requires
        s.len() > 0,
    ensures
        s.contains(seq_p95(s)),
        seq_min(s) <= seq_p95(s) <= seq_max(s),
{
    lemma_at_most_total();
    s.lemma_sort_by_ensures(at_most());
    let k = p95_index(s.len());
    let sorted = ascending(s);
    assert(sorted.len() == s.len()) by {
        assert(sorted.to_multiset().len() == s.to_multiset().len());
    }
    assert(sorted.contains(sorted[k]));
    let x = seq_p95(s);
    assert(s.contains(x));
    lemma_seq_min(s);
    lemma_seq_max(s);
    let j = choose|j: int| 0 <= j < s.len() && s[j] == x;
    assert(seq_min(s) <= s[j]);
    assert(s[j] <= seq_max(s));
}

/// How many latencies are at most `v`.
pub open spec fn count_at_most(s: Seq<u128>, v: u128) -> nat
    decreases s.len(),
{
    if s.len() == 0 {
        0
    } else {
        count_at_most(s.drop_last(), v) + if s.last() <= v {
            1nat
        } else {
            0nat
        }
    }
}

proof fn lemma_count_remove(s: Seq<u128>, j: int, v: u128)
    requires
        0 <= j < s.len(),
    ensures
        count_at_most(s, v) == count_at_most(s.remove(j), v) + if s[j] <= v {
            1nat
        } else {
            0nat
        },
    decreases s.len(),
{
    if j == s.len() - 1 {
        assert(s.remove(j) =~= s.drop_last());
    } else {
        lemma_count_remove(s.drop_last(), j, v);
        assert(s.remove(j).drop_last() =~= s.drop_last().remove(j));
        assert(s.remove(j).last() == s.last());
    }
}

proof fn lemma_count_permutation(s: Seq<u128>, t: Seq<u128>, v: u128)
    requires
        s.to_multiset() == t.to_multiset(),
    ensures
        count_at_most(s, v) == count_at_most(t, v),
    decreases s.len(),
{
    assert(s.len() == t.len()) by {
        vstd::seq_lib::to_multiset_len(s);
        vstd::seq_lib::to_multiset_len(t);
    }
    if s.len() > 0 {
        let x = s.last();
        assert(s.drop_last().push(x) =~= s);
        assert(s.to_multiset().count(x) > 0);
        assert(t.contains(x));
        let j = choose|j: int| 0 <= j < t.len() && t[j] == x;
        assert(t.remove(j).to_multiset() =~= t.to_multiset().remove(x));
        assert(s.drop_last().to_multiset() =~= s.to_multiset().remove(x));
        lemma_count_permutation(s.drop_last(), t.remove(j), v);
        lemma_count_remove(t, j, v);
    }
}

proof fn lemma_count_prefix(s: Seq<u128>, m: int, v: u128)
    requires
        0 <= m <= s.len(),
        forall|i: int| 0 <= i < m ==> s[i] <= v,
    ensures
        count_at_most(s, v) >= m,
    decreases s.len(),
{
    if s.len() > 0 {
        if m == s.len() {
            lemma_count_prefix(s.drop_last(), m - 1, v);
        } else {
            lemma_count_prefix(s.drop_last(), m, v);
        }
    }
}

/// The 95th percentile depends only on which latencies there are, not on
/// the order in which they were recorded.
pub proof fn law_p95_permutation(s: Seq<u128>, t: Seq<u128>)
    requires
        s.to_multiset() == t.to_multiset(),
    ensures
        seq_p95(s) == seq_p95(t),
{
    lemma_at_most_total();
    s.lemma_sort_by_ensures(at_most());
    t.lemma_sort_by_ensures(at_most());
    vstd::seq_lib::lemma_sorted_unique(ascending(s), ascending(t), at_most());
    assert(s.len() == t.len()) by {
        vstd::seq_lib::to_multiset_len(s);
        vstd::seq_lib::to_multiset_len(t);
    }
}

/// At least 95% of the latencies are at most the 95th percentile.
pub proof fn law_p95_covers_95_percent(s: Seq<u128>)
    requires
        s.len() > 0,
    ensures
        100 * count_at_most(s, seq_p95(s)) >= 95 * s.len(),
{
    lemma_at_most_total();
    s.lemma_sort_by_ensures(at_most());
    let sorted = ascending(s);
    let n = s.len();
    assert(sorted.len() == n) by {
        assert(sorted.to_multiset().len() == s.to_multiset().len());
    }
    let c = (95 * n + 99) / 100;
    assert(100 * c >= 95 * n && c <= n && c >= 1) by (nonlinear_arith)
        requires
            c == (95 * n + 99) / 100,
            n >= 1,
    ;
    let k = p95_index(n);
    assert(k == c - 1);
    let v = sorted[k];
    assert forall|i: int| 0 <= i < k + 1 implies sorted[i] <= v by {
        if i < k {
            assert(at_most()(sorted[i], sorted[k]));
        }
    }
    lemma_count_prefix(sorted, k + 1, v);
    lemma_count_permutation(sorted, s, v);
}

/// How many latencies are below `v`.
pub open spec fn count_below(s: Seq<u128>, v: u128) -> nat
    decreases s.len(),
{
    if s.len() == 0 {
        0
    } else {
        count_below(s.drop_last(), v) + if s.last() < v {
            1nat
        } else {
            0nat
        }
    }
}

proof fn lemma_count_below_remove(s: Seq<u128>, j: int, v: u128)
    requires
        0 <= j < s.len(),
    ensures
        count_below(s, v) == count_below(s.remove(j), v) + if s[j] < v {
            1nat
        } else {
            0nat
        },
    decreases s.len(),
{
    if j == s.len() - 1 {
        assert(s.remove(j) =~= s.drop_last());
    } else {
        lemma_count_below_remove(s.drop_last(), j, v);
        assert(s.remove(j).drop_last() =~= s.drop_last().remove(j));
        assert(s.remove(j).last() == s.last());
    }
}

proof fn lemma_count_below_permutation(s: Seq<u128>, t: Seq<u128>, v: u128)
    requires
        s.to_multiset() == t.to_multiset(),
    ensures
        count_below(s, v) == count_below(t, v),
    decreases s.len(),
{
    assert(s.len() == t.len()) by {
        vstd::seq_lib::to_multiset_len(s);
        vstd::seq_lib::to_multiset_len(t);
    }
    if s.len() > 0 {
        let x = s.last();
        assert(s.drop_last().push(x) =~= s);
        assert(s.to_multiset().count(x) > 0);
        assert(t.contains(x));
        let j = choose|j: int| 0 <= j < t.len() && t[j] == x;
        assert(t.remove(j).to_multiset() =~= t.to_multiset().remove(x));
        assert(s.drop_last().to_multiset() =~= s.to_multiset().remove(x));
        lemma_count_below_permutation(s.drop_last(), t.remove(j), v);
        lemma_count_below_remove(t, j, v);
    }
}

proof fn lemma_count_below_bound(s: Seq<u128>, m: int, v: u128)
    requires
        0 <= m <= s.len(),
        forall|i: int| m <= i < s.len() ==> s[i] >= v,
    ensures
        count_below(s, v) <= m,
    decreases s.len(),
{
    if s.len() > m {
        lemma_count_below_bound(s.drop_last(), m, v);
    } else if s.len() > 0 {
        lemma_count_below_bound(s.drop_last(), m - 1, v);
    }
}

/// Fewer than 95% of the latencies are below the 95th percentile, so no
/// smaller latency covers 95% of them.
pub proof fn law_p95_is_least(s: Seq<u128>)
    requires
        s.len() > 0,
    ensures
        100 * count_below(s, seq_p95(s)) < 95 * s.len(),
{
    lemma_at_most_total();
    s.lemma_sort_by_ensures(at_most());
    let sorted = ascending(s);
    let n = s.len();
    assert(sorted.len() == n) by {
        vstd::seq_lib::to_multiset_len(s);
        vstd::seq_lib::to_multiset_len(sorted);
    }
    let c = (95 * n + 99) / 100;
    assert(100 * (c - 1) < 95 * n && c <= n && c >= 1) by (nonlinear_arith)
        requires
            c == (95 * n + 99) / 100,
            n >= 1,
    ;
    let k = p95_index(n);
    assert(k == c - 1);
    let v = sorted[k];
    assert forall|i: int| k <= i < n implies sorted[i] >= v by {
        if i > k {
            assert(at_most()(sorted[k], sorted[i]));
        }
    }
    lemma_count_below_bound(sorted, k, v);
    lemma_count_below_permutation(sorted, s, v);
}

/// The URL a benchmark request goes to: the target without trailing
/// slashes, then `/get`.
pub open spec fn benchmark_url_of(target: Seq<char>) -> Seq<char> {
    strip_trailing(target, '/') + "/get"@
}

/// The URL a benchmark request goes to.
pub fn benchmark_url(target: &str) -> (r: String)
    ensures
        r@ == benchmark_url_of(target@),
{
    let base = trim_end_char(target, '/');
    let mut r = String::new();
    push_chars(&mut r, &base);
    push_str(&mut r, "/get");
    assert(r@ =~= benchmark_url_of(target@));
    r
}

} // verus!
