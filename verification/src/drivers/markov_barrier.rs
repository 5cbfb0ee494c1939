//! Blood-brain barrier: XOR distance between 16K-bit fingerprints.

use vstd::prelude::*;

verus! {

/// The number of one bits of `x`.
pub open spec fn popcount(x: u64) -> nat
    decreases x,
{
    if x == 0 {
        0
    } else {
        (x % 2) as nat + popcount(x / 2)
    }
}

/// The number of differing bits over the first `n` words of two fingerprints.
pub open spec fn xor_distance_prefix(a: Seq<u64>, b: Seq<u64>, n: int) -> nat
    decreases n,
{
    if n <= 0 {
        0
    } else {
        xor_distance_prefix(a, b, n - 1) + popcount(a[n - 1] ^ b[n - 1])
    }
}

proof fn lemma_popcount_bound(x: u64)
    ensures
        popcount(x) <= 64,
{
    reveal_with_fuel(pow2, 65);
    assert(pow2(64) == 0x1_0000_0000_0000_0000nat);
    lemma_popcount_bits(x, 64);
}

proof fn lemma_popcount_bits(x: u64, k: nat)
    requires
        k <= 64,
        (x as nat) < pow2(k),
    ensures
        popcount(x) <= k,
    decreases k,
{
    if x != 0 {
        assert(k > 0) by {
            if k == 0 {
                assert(pow2(0) == 1);
            }
        }
        assert(((x / 2) as nat) < pow2((k - 1) as nat)) by {
            assert(pow2(k) == 2 * pow2((k - 1) as nat));
        }
        lemma_popcount_bits(x / 2, (k - 1) as nat);
    }
}

/// `2^k`.
pub open spec fn pow2(k: nat) -> nat
    decreases k,
{
    if k == 0 {
        1
    } else {
        2 * pow2((k - 1) as nat)
    }
}

/// The number of one bits of `x`.
pub fn count_ones(x: u64) -> (c: u32)
    ensures
        c == popcount(x),
        c <= 64,
{
    proof {
        lemma_popcount_bound(x);
    }
    let mut y = x;
    let mut c: u32 = 0;
    while y != 0
        invariant
            c + popcount(y) == popcount(x),
            popcount(x) <= 64,
        decreases y,
    {
        c = c + (y % 2) as u32;
        y = y / 2;
    }
    c
}

/// The bits of a word below position `p` (all of them from 64 on).
pub open spec fn low_mask(p: u64) -> u64 {
    if p >= 64 {
        0xffff_ffff_ffff_ffffu64
    } else {
        ((1u64 << p) - 1) as u64
    }
}

/// Bit `i` of `w` is set.
pub open spec fn bit_set(w: u64, i: u64) -> bool {
    (w >> i) & 1u64 == 1u64
}

/// The number of set bits of `w` below position `p`.
pub open spec fn ones_below(w: u64, p: nat) -> nat
    decreases p,
{
    if p == 0 {
        0
    } else {
        ones_below(w, (p - 1) as nat) + if bit_set(w, (p - 1) as u64) {
            1nat
        } else {
            0nat
        }
    }
}

proof fn lemma_mask_step(w: u64, i: u64)
    requires
        i < 64,
    ensures
        bit_set(w, i) ==> w & low_mask((i + 1) as u64) == (w & low_mask(i)) | (1u64 << i),
        !bit_set(w, i) ==> w & low_mask((i + 1) as u64) == w & low_mask(i),
{
    if i + 1 < 64 {
        assert((w >> i) & 1u64 == 1u64 ==> w & (((1u64 << ((i + 1) as u64)) - 1) as u64) == (w & (((1u64 << i) - 1) as u64)) | (
        1u64 << i)) by (bit_vector)
            requires
                i + 1 < 64,
        ;
        assert((w >> i) & 1u64 != 1u64 ==> w & (((1u64 << ((i + 1) as u64)) - 1) as u64) == w & (((1u64 << i) - 1) as u64))
            by (bit_vector)
            requires
                i + 1 < 64,
        ;
    } else {
        assert((w >> 63u64) & 1u64 == 1u64 ==> w & 0xffff_ffff_ffff_ffffu64 == (w & (((1u64 << 63u64) - 1) as u64)) | (1u64
            << 63u64)) by (bit_vector);
        assert((w >> 63u64) & 1u64 != 1u64 ==> w & 0xffff_ffff_ffff_ffffu64 == w & (((1u64 << 63u64) - 1) as u64)) by (bit_vector);
    }
}

proof fn lemma_masked_bit(w: u64, i: u64, j: u64)
    requires
        i <= 64,
        j < 64,
    ensures
        bit_set(w & low_mask(i), j) == (bit_set(w, j) && j < i),
{
    if i < 64 {
        assert(((w & (((1u64 << i) - 1) as u64)) >> j) & 1u64 == 1u64 <==> ((w >> j) & 1u64 == 1u64 && j < i)) by (bit_vector)
            requires
                i < 64,
                j < 64,
        ;
    } else {
        assert(((w & 0xffff_ffff_ffff_ffffu64) >> j) & 1u64 == 1u64 <==> (w >> j) & 1u64 == 1u64) by (bit_vector);
    }
}

proof fn lemma_ones_below_masked(w: u64, i: u64, p: nat)
    requires
        i <= 64,
        p <= 64,
    ensures
        ones_below(w & low_mask(i), p) == ones_below(w, if p < i { p } else { i as nat }),
    decreases p,
{
    if p > 0 {
        lemma_ones_below_masked(w, i, (p - 1) as nat);
        lemma_masked_bit(w, i, (p - 1) as u64);
    }
}

proof fn lemma_ones_below_mono(w: u64, p: nat, q: nat)
    requires
        p <= q,
    ensures
        ones_below(w, p) <= ones_below(w, q),
    decreases q,
{
    if p < q {
        lemma_ones_below_mono(w, p, (q - 1) as nat);
    }
}

proof fn lemma_ones_below_shift(w: u64, p: u64)
    requires
        p <= 63,
    ensures
        ones_below(w, p as nat) + popcount(w >> p) == popcount(w),
    decreases p,
{
    if p == 0 {
        assert(w >> 0u64 == w) by (bit_vector);
    } else {
        let q = (p - 1) as u64;
        lemma_ones_below_shift(w, q);
        let x = w >> q;
        assert(x / 2 == w >> p) by (bit_vector)
            requires
                x == w >> q,
                p == q + 1,
                q < 63,
        ;
        assert((x % 2 == 1) == bit_set(w, q)) by (bit_vector)
            requires
                x == w >> q,
        ;
        if x == 0 {
            assert(w >> p == 0) by (bit_vector)
                requires
                    x == w >> q,
                    p == q + 1,
                    q < 63,
                    x == 0,
            ;
        }
    }
}

/// Counting the set bits position by position gives `popcount`.
pub proof fn lemma_ones_below_popcount(w: u64)
    ensures
        ones_below(w, 64) == popcount(w),
{
    lemma_ones_below_shift(w, 63);
    let x = w >> 63u64;
    assert(x / 2 == 0) by (bit_vector)
        requires
            x == w >> 63u64,
    ;
    assert((x % 2 == 1) == bit_set(w, 63)) by (bit_vector)
        requires
            x == w >> 63u64,
    ;
    assert(popcount(0) == 0);
    if x != 0 {
        assert(popcount(x) == (x % 2) as nat + popcount(x / 2));
    }
    assert(ones_below(w, 64) == ones_below(w, 63) + if bit_set(w, 63) {
        1nat
    } else {
        0nat
    });
}

/// The lowest `keep` set bits of `word`: the word cut off below some
/// position, holding `keep` set bits, or all of them when it has fewer.
pub fn keep_lowest_bits(word: u64, keep: u32) -> (r: u64)
    ensures
        exists|p: u64| p <= 64 && r == word & #[trigger] low_mask(p),
        popcount(r) == if keep < popcount(word) {
            keep as nat
        } else {
            popcount(word)
        },
{
    let mut r: u64 = 0;
    let mut count: u32 = 0;
    let mut i: u64 = 0;
    assert(word & low_mask(0) == 0u64) by (bit_vector);
    while i < 64 && count < keep
        invariant
            i <= 64,
            r == word & low_mask(i),
            count == ones_below(word, i as nat),
            count <= keep,
        decreases 64 - i,
    {
        proof {
            lemma_mask_step(word, i);
        }
        if (word >> i) & 1 == 1 {
            r = r | (1u64 << i);
            count += 1;
        }
        i += 1;
    }
    proof {
        lemma_ones_below_masked(word, i, 64);
        lemma_ones_below_mono(word, i as nat, 64);
        lemma_ones_below_popcount(word);
        lemma_ones_below_popcount(r);
    }
    r
}

/// The word-by-word XOR of two fingerprints: the bits in which they differ.
pub fn xor_delta(a: &[u64; 256], b: &[u64; 256]) -> (d: [u64; 256])
    ensures
        forall|i: int| 0 <= i < 256 ==> #[trigger] d@[i] == a@[i] ^ b@[i],
{
    let mut d: [u64; 256] = [0u64; 256];
    let mut i: usize = 0;
    while i < 256
        invariant
            i <= 256,
            a@.len() == 256,
            b@.len() == 256,
            d@.len() == 256,
            forall|k: int| 0 <= k < i ==> #[trigger] d@[k] == a@[k] ^ b@[k],
        decreases 256 - i,
    {
        d.set(i, a[i] ^ b[i]);
        i += 1;
    }
    d
}

/// XOR (Hamming) distance between two 256-word fingerprints: the number of
/// bit positions at which they differ.
pub fn xor_distance(a: &[u64; 256], b: &[u64; 256]) -> (d: u32)
    ensures
        d == xor_distance_prefix(a@, b@, 256),
{
    let mut d: u32 = 0;
    let mut i: usize = 0;
    while i < 256
        invariant
            i <= 256,
            a@.len() == 256,
            b@.len() == 256,
            d == xor_distance_prefix(a@, b@, i as int),
            d <= 64 * i,
        decreases 256 - i,
    {
        let c = count_ones(a[i] ^ b[i]);
        d = d + c;
        i += 1;
    }
    d
}

/// Gate decision for a semantic transaction.
#[derive(Debug, Clone, Copy, PartialEq, Eq, Structural)]
pub enum GateDecision {
    /// Within budget: apply the delta at full strength.
    Commit,
    /// Over budget: apply the delta damped.
    Dampen,
    /// Far over budget: reject the delta.
    Reject,
    /// Not decided yet.
    Pending,
}

/// Metadata about an external API call.
#[derive(Debug, Clone)]
pub struct CallMeta {
    /// LLM provider.
    pub provider: String,
    /// Model identifier.
    pub model: String,
    /// Token count in the response.
    pub response_tokens: u32,
    /// Latency in milliseconds.
    pub latency_ms: u64,
    /// Whether the system prompt was prefix-cached.
    pub prefix_cached: bool,
}

impl Default for CallMeta {
    fn default() -> (m: Self)
        ensures
            m.provider@.len() == 0,
            m.model@.len() == 0,
            m.response_tokens == 0,
            m.latency_ms == 0,
            !m.prefix_cached,
    {
        CallMeta { provider: String::new(), model: String::new(), response_tokens: 0, latency_ms: 0, prefix_cached: false }
    }
}

/// Statistics about the barrier's gate decisions.
#[derive(Debug, Clone, Copy)]
pub struct BarrierStats {
    /// Transactions decided.
    pub total_transactions: u32,
    /// Commits among them.
    pub commits: u32,
    /// Dampens among them.
    pub dampens: u32,
    /// Rejects among them.
    pub rejects: u32,
    /// Cumulative drift.
    pub cumulative_drift: u64,
    /// Drift ceiling.
    pub drift_ceiling: u64,
}

/// The fingerprint width in bits (256 words of 64 bits).
pub const TOTAL_BITS: u64 = 16384;

/// How many decisions in `h` equal `d`.
pub open spec fn decision_count(h: Seq<(String, GateDecision, u32)>, d: GateDecision) -> nat
    decreases h.len(),
{
    if h.len() == 0 {
        0
    } else {
        decision_count(h.drop_last(), d) + if h.last().1 == d {
            1nat
        } else {
            0nat
        }
    }
}

proof fn lemma_decision_count_bound(h: Seq<(String, GateDecision, u32)>, d: GateDecision)
    ensures
        decision_count(h, d) <= h.len(),
    decreases h.len(),
{
    if h.len() > 0 {
        lemma_decision_count_bound(h.drop_last(), d);
    }
}

/// Gate decisions of a barrier, oldest first, and the drift they add up to.
pub struct GateHistory {
    /// `(transaction id, decision, XOR distance)`, oldest first.
    pub history: Vec<(String, GateDecision, u32)>,
    /// Cumulative drift from committed and damped transactions.
    pub cumulative_drift: u64,
    /// Drift at which a consolidation pass is needed.
    pub drift_ceiling: u64,
}

impl GateHistory {
    /// An empty history with the given drift ceiling.
    pub fn new(drift_ceiling: u64) -> (g: GateHistory)
        ensures
            g.history@.len() == 0,
            g.cumulative_drift == 0,
            g.drift_ceiling == drift_ceiling,
    {
        GateHistory { history: Vec::new(), cumulative_drift: 0, drift_ceiling }
    }

    /// An empty history whose ceiling is 10% of the fingerprint bits.
    pub fn default_history() -> (g: GateHistory)
        ensures
            g.history@.len() == 0,
            g.cumulative_drift == 0,
            g.drift_ceiling == TOTAL_BITS / 10,
    {
        GateHistory::new(TOTAL_BITS / 10)
    }

    /// Record a decided transaction and the drift it adds (saturating).
    pub fn record(&mut self, tx_id: String, decision: GateDecision, distance: u32, drift: u64)
        ensures
            final(self).history@ == old(self).history@.push((tx_id, decision, distance)),
            final(self).cumulative_drift == if old(self).cumulative_drift + drift > u64::MAX {
                u64::MAX as int
            } else {
                old(self).cumulative_drift + drift
            },
            final(self).drift_ceiling == old(self).drift_ceiling,
    {
        self.cumulative_drift = self.cumulative_drift.saturating_add(drift);
        self.history.push((tx_id, decision, distance));
    }

    /// Whether cumulative drift exceeds the ceiling.
    pub fn needs_consolidation(&self) -> (r: bool)
        ensures
            r == (self.cumulative_drift > self.drift_ceiling),
    {
        self.cumulative_drift > self.drift_ceiling
    }

    /// Reset the drift after a consolidation pass.
    pub fn consolidation_done(&mut self)
        ensures
            final(self).cumulative_drift == 0,
            final(self).history == old(self).history,
            final(self).drift_ceiling == old(self).drift_ceiling,
    {
        self.cumulative_drift = 0;
    }

    /// The last `n` entries of the history (all of it when shorter).
    pub fn recent_history(&self, n: usize) -> (r: &[(String, GateDecision, u32)])
        ensures
            r@ == self.history@.subrange(
                if n >= self.history@.len() {
                    0
                } else {
                    self.history@.len() - n
                },
                self.history@.len() as int,
            ),
    {
        let len = self.history.len();
        let start = if n >= len {
            0
        } else {
            len - n
        };
        vstd::slice::slice_subrange(self.history.as_slice(), start, len)
    }

    /// Counts of the decisions taken, with the drift and its ceiling.
    pub fn stats(&self) -> (s: BarrierStats)
        requires
            self.history@.len() <= u32::MAX,
        ensures
            s.total_transactions == self.history@.len(),
            s.commits == decision_count(self.history@, GateDecision::Commit),
            s.dampens == decision_count(self.history@, GateDecision::Dampen),
            s.rejects == decision_count(self.history@, GateDecision::Reject),
            s.cumulative_drift == self.cumulative_drift,
            s.drift_ceiling == self.drift_ceiling,
    {
        let mut commits: u32 = 0;
        let mut dampens: u32 = 0;
        let mut rejects: u32 = 0;
        let mut i: usize = 0;
        while i < self.history.len()
            invariant
                i <= self.history@.len(),
                self.history@.len() <= u32::MAX,
                commits == decision_count(self.history@.take(i as int), GateDecision::Commit),
                dampens == decision_count(self.history@.take(i as int), GateDecision::Dampen),
                rejects == decision_count(self.history@.take(i as int), GateDecision::Reject),
            decreases self.history@.len() - i,
        {
            assert(self.history@.take(i + 1).drop_last() =~= self.history@.take(i as int));
            proof {
                lemma_decision_count_bound(self.history@.take(i as int), GateDecision::Commit);
                lemma_decision_count_bound(self.history@.take(i as int), GateDecision::Dampen);
                lemma_decision_count_bound(self.history@.take(i as int), GateDecision::Reject);
            }
            match self.history[i].1 {
                GateDecision::Commit => commits += 1,
                GateDecision::Dampen => dampens += 1,
                GateDecision::Reject => rejects += 1,
                GateDecision::Pending => {},
            }
            i += 1;
        }
        assert(self.history@.take(i as int) =~= self.history@);
        BarrierStats {
            total_transactions: self.history.len() as u32,
            commits,
            dampens,
            rejects,
            cumulative_drift: self.cumulative_drift,
            drift_ceiling: self.drift_ceiling,
        }
    }
}

// ---------------------------------------------------------------------------
// Laws
// ---------------------------------------------------------------------------

/// A word has no one bits exactly when it is zero.
proof fn lemma_popcount_zero(x: u64)
    ensures
        (popcount(x) == 0) == (x == 0),
    decreases x,
{
    if x != 0 {
        if x % 2 == 0 {
            assert(x / 2 != 0);
            lemma_popcount_zero(x / 2);
        }
    }
}

/// The XOR distance is symmetric.
pub proof fn lemma_xor_distance_symmetric(a: Seq<u64>, b: Seq<u64>, n: int)
    ensures
        xor_distance_prefix(a, b, n) == xor_distance_prefix(b, a, n),
    decreases n,
{
    if n > 0 {
        lemma_xor_distance_symmetric(a, b, n - 1);
        let x = a[n - 1];
        let y = b[n - 1];
        assert(x ^ y == y ^ x) by (bit_vector);
    }
}

/// Over the first `n` words, the XOR distance is zero exactly when the two
/// fingerprints agree on every one of those words.
pub proof fn lemma_xor_distance_zero_iff_same(a: Seq<u64>, b: Seq<u64>, n: int)
    requires
        0 <= n <= a.len(),
        n <= b.len(),
    ensures
        (xor_distance_prefix(a, b, n) == 0) == (forall|i: int| 0 <= i < n ==> #[trigger] a[i] == b[i]),
    decreases n,
{
    if n > 0 {
        lemma_xor_distance_zero_iff_same(a, b, n - 1);
        let x = a[n - 1];
        let y = b[n - 1];
        lemma_popcount_zero(x ^ y);
        assert((x ^ y == 0) == (x == y)) by (bit_vector);
        if xor_distance_prefix(a, b, n) == 0 {
            assert forall|i: int| 0 <= i < n implies #[trigger] a[i] == b[i] by {
                if i < n - 1 {
                    assert(a[i] == b[i]);
                }
            }
        }
        if !(xor_distance_prefix(a, b, n) == 0) {
            if popcount(x ^ y) == 0 {
                let i = choose|i: int| 0 <= i < n - 1 && a[i] != b[i];
                assert(a[i] != b[i]);
            } else {
                assert(a[n - 1] != b[n - 1]);
            }
        }
    }
}

/// Two whole fingerprints are at distance zero exactly when they are equal.
pub proof fn lemma_xor_distance_zero_iff_equal(a: Seq<u64>, b: Seq<u64>)
    requires
        a.len() == 256,
        b.len() == 256,
    ensures
        (xor_distance_prefix(a, b, 256) == 0) == (a == b),
{
    lemma_xor_distance_zero_iff_same(a, b, 256);
    if forall|i: int| 0 <= i < 256 ==> #[trigger] a[i] == b[i] {
        assert(a =~= b);
    }
}

/// Every decision in a history is counted under exactly one kind.
pub proof fn lemma_decision_counts_partition(h: Seq<(String, GateDecision, u32)>)
    ensures
        decision_count(h, GateDecision::Commit) + decision_count(h, GateDecision::Dampen) + decision_count(
            h,
            GateDecision::Reject,
        ) + decision_count(h, GateDecision::Pending) == h.len(),
    decreases h.len(),
{
    if h.len() > 0 {
        lemma_decision_counts_partition(h.drop_last());
    }
}

/// Recording a decision adds one to the count of that decision and leaves
/// the counts of the others unchanged.
pub proof fn lemma_record_counts_once(
    h: Seq<(String, GateDecision, u32)>,
    e: (String, GateDecision, u32),
    d: GateDecision,
)
    ensures
        decision_count(h.push(e), d) == decision_count(h, d) + if e.1 == d {
            1nat
        } else {
            0nat
        },
{
    assert(h.push(e).drop_last() =~= h);
}

} // verus!
