use vstd::prelude::*;

verus! {

use vstd::string::StringExecFns;

/// An inclusive bit range [r, l] (with r <= l): the discriminator that
/// right-shifts a key by `r` and masks to `l - r + 1` bits.
#[derive(Copy, Clone)]
pub struct Window {
    pub l: u8,
    pub r: u8,
}

/// The bucket index that the window [r, l] extracts from `key`.
pub open spec fn win_hash(l: u8, r: u8, key: u64) -> u64 {
    (key >> (r as u64)) & (u64::MAX >> ((63 - (l - r)) as u64))
}

/// Bucket count of the window [r, l]: 2^(l - r + 1).
pub open spec fn win_size(l: u8, r: u8) -> u64 {
    1u64 << (((l - r) + 1) as u64)
}

/// Total version of `win_hash` over unconstrained integer edges, used by the
/// window-search model: out-of-range edges denote a degenerate window that
/// maps every key to bucket 0.
pub open spec fn whash_i(l: int, r: int, key: u64) -> u64 {
    if 0 <= r && r <= l && l <= 63 {
        win_hash(l as u8, r as u8, key)
    } else {
        0
    }
}

/// The bucket values that the window [r, l] extracts from `cases`, in order.
pub open spec fn win_hashes(l: int, r: int, cases: Seq<u64>) -> Seq<u64> {
    Seq::new(cases.len(), |i: int| whash_i(l, r, cases[i]))
}

/// How many distinct bucket values the window [r, l] takes on `cases`.
pub open spec fn win_card(l: int, r: int, cases: Seq<u64>) -> nat {
    win_hashes(l, r, cases).to_set().len()
}

/// A window is critical on a key set when its mapped-value cardinality
/// strictly exceeds half its bucket count, i.e. 2^(l - r).
pub open spec fn crit_i(l: int, r: int, cases: Seq<u64>) -> bool {
    win_card(l, r, cases) > (1u64 << ((l - r) as u64))
}

impl Window {
    /// A window must lie within the 64-bit word.
    pub open spec fn valid(self) -> bool {
        self.r <= self.l && self.l <= 63
    }

    /// Additionally, a window must be narrower than the full word for its
    /// bucket count to be representable.
    pub open spec fn sizable(self) -> bool {
        self.valid() && self.l - self.r <= 62
    }

    /// `(key >> r) & ((1 << (l - r + 1)) - 1)`: the bucket index of `input`.
    pub fn hash(&self, input: u64) -> (h: u64)
        requires
            self.valid(),
        ensures
            h == win_hash(self.l, self.r, input),
    {
        let d: u8 = self.l - self.r;
        let mask: u64 = u64::MAX >> ((63 - d) as u64);
        (input >> (self.r as u64)) & mask
    }

    /// Bucket count: 2^(l - r + 1).
    pub fn size(&self) -> (s: u64)
        requires
            self.sizable(),
        ensures
            s == win_size(self.l, self.r),
    {
        1u64 << (((self.l - self.r) as u64) + 1)
    }

    /// The number of distinct bucket values this window maps `cases` onto;
    /// the higher, the fewer collisions.
    pub fn mapped_cardinality(&self, cases: &Vec<u64>) -> (c: usize)
        requires
            self.valid(),
        ensures
            c == win_card(self.l as int, self.r as int, cases@),
    {
        let mut hs: Vec<u64> = Vec::new();
        let mut j: usize = 0;
        while j < cases.len()
            invariant
                j <= cases@.len(),
                hs@.len() == j,
                self.valid(),
                forall|i: int| 0 <= i < j ==> hs@[i] == win_hash(self.l, self.r, cases@[i]),
            decreases cases@.len() - j,
        {
            hs.push(self.hash(cases[j]));
            j += 1;
        }
        proof {
            assert(hs@ =~= win_hashes(self.l as int, self.r as int, cases@));
            assert(hs@.take(0).to_set() =~= Set::<u64>::empty());
            broadcast use vstd::set::axiom_set_empty_len;

        }
        let mut cnt: usize = 0;
        let mut i: usize = 0;
        while i < hs.len()
            invariant
                i <= hs@.len(),
                cnt <= i,
                cnt == hs@.take(i as int).to_set().len(),
            decreases hs@.len() - i,
        {
            let mut seen = false;
            let mut j2: usize = 0;
            while j2 < i
                invariant
                    j2 <= i < hs@.len(),
                    seen == exists|p: int| 0 <= p < j2 && hs@[p] == hs@[i as int],
                decreases i - j2,
            {
                if hs[j2] == hs[i] {
                    seen = true;
                }
                j2 += 1;
            }
            proof {
                broadcast use Seq::lemma_take_succ_push, Seq::lemma_push_to_set_commute, vstd::seq_lib::seq_to_set_is_finite, vstd::set::axiom_set_insert_len;

                let x = hs@[i as int];
                let prefix = hs@.take(i as int);
                if seen {
                    let p = choose|p: int| 0 <= p < i && hs@[p] == x;
                    assert(prefix[p] == x);
                    assert(prefix.to_set().contains(x));
                } else if prefix.to_set().contains(x) {
                    let w = choose|w: int| 0 <= w < prefix.len() && prefix[w] == x;
                    assert(hs@[w] == x);
                }
                assert(hs@.take(i as int + 1).to_set() =~= prefix.to_set().insert(x));
            }
            if !seen {
                cnt += 1;
            }
            i += 1;
        }
        proof {
            assert(hs@.take(hs@.len() as int) =~= hs@);
        }
        cnt
    }

    /// Find the longest critical window, and the most critical window of that
    /// length: scan the right edge from the most significant bit down to bit
    /// 0, recording the current window while it stays critical and otherwise
    /// narrowing it, keeping whichever window maps the keys onto more
    /// distinct buckets.
    pub fn critical_window(cases: &Vec<u64>) -> (w: Window)
        requires
            cases@.len() >= 2,
            distinct_seq(cases@),
            cases@.len() <= 0x8000_0000_0000_0000,
        ensures
            w == spec_critical_window(cases@),
            w.sizable(),
    {
        let mut l: u8 = 63;
        let mut wm = Window { l: 63, r: 63 };
        let mut b: u8 = 64;
        proof {
            assert forall|p: int, q: int|
                0 <= p < cases@.len() && 0 <= q < cases@.len() implies cases@[p] >> 64u64
                == cases@[q] >> 64u64 by {
                let x = cases@[p];
                let y = cases@[q];
                assert(x >> 64u64 == 0 && y >> 64u64 == 0) by (bit_vector);
            }
            assert(all_agree_above(cases@, 64));
        }
        while b > 0
            invariant
                cases@.len() >= 2,
                distinct_seq(cases@),
                cases@.len() <= 0x8000_0000_0000_0000,
                b <= 64,
                b as int - 1 <= l as int,
                l <= 63,
                wm.sizable(),
                cw_from(cases@, b as int - 1, l as int, wm) == spec_critical_window(cases@),
                l as int == b as int - 1 ==> all_agree_above(cases@, b as int),
            decreases b,
        {
            b -= 1;
            let w = Window { l, r: b };
            let crit = w.is_critical(cases);
            if crit {
                proof {
                    // a critical window's threshold lies below the key count,
                    // so the window stays narrower than the whole word
                    lemma_card_le_len(l as int, b as int, cases@);
                    let d: u64 = (l - b) as u64;
                    assert((d <= 63 && (1u64 << d) < 0x8000_0000_0000_0000u64) ==> d <= 62)
                        by (bit_vector);
                    assert(win_of(l as int, b as int) == w);
                }
                wm = w;
            } else {
                if l == b {
                    proof {
                        lemma_degenerate_card(l as int - 1, b as int, cases@);
                        lemma_card_pos(wm.l as int, wm.r as int, cases@);
                        // the single-bit window at b failed to be critical, so
                        // every key carries the same bit there
                        assert(win_card(l as int, b as int, cases@) <= 1) by {
                            assert(1u64 << 0u64 == 1) by (bit_vector);
                        }
                        lemma_card1_all_equal(l as int, b as int, cases@);
                        assert forall|p: int, q: int|
                            0 <= p < cases@.len() && 0 <= q < cases@.len() implies (
                        cases@[p] >> (b as u64)) == (cases@[q] >> (b as u64)) by {
                            lemma_single_bit_hash(b as int, cases@[p]);
                            lemma_single_bit_hash(b as int, cases@[q]);
                            lemma_bit_agree_step(cases@[p], cases@[q], b as u64);
                        }
                        assert(all_agree_above(cases@, b as int));
                    }
                    if b == 0 {
                        proof {
                            // unreachable: the keys would agree on every bit,
                            // yet at least two of them are distinct
                            let x = cases@[0];
                            let y = cases@[1];
                            assert(x >> 0u64 == x && y >> 0u64 == y) by (bit_vector);
                            assert(x == y);
                            assert(false);
                        }
                    } else {
                        l = b - 1;
                    }
                } else {
                    l -= 1;
                    let w2 = Window { l, r: b };
                    let c2 = w2.mapped_cardinality(cases);
                    let cm = wm.mapped_cardinality(cases);
                    if c2 > cm {
                        proof {
                            assert(win_of(l as int, b as int) == w2);
                        }
                        wm = w2;
                    }
                }
            }
        }
        wm
    }

    /// Critical: the mapped cardinality strictly exceeds 2^(l - r), half the
    /// bucket count, meaning the window is tightly packed.
    pub fn is_critical(&self, cases: &Vec<u64>) -> (c: bool)
        requires
            self.valid(),
        ensures
            c == crit_i(self.l as int, self.r as int, cases@),
    {
        let thresh: u64 = 1u64 << ((self.l - self.r) as u64);
        let cardinality = self.mapped_cardinality(cases);
        proof {
            lemma_card_le_len(self.l as int, self.r as int, cases@);
        }
        (cardinality as u64) > thresh
    }
}

/// The mapped cardinality never exceeds the number of keys.
pub proof fn lemma_card_le_len(l: int, r: int, cases: Seq<u64>)
    ensures
        win_card(l, r, cases) <= cases.len(),
{
    win_hashes(l, r, cases).lemma_cardinality_of_set();
}

/// The keys are pairwise distinct.
pub open spec fn distinct_seq(s: Seq<u64>) -> bool {
    forall|p: int, q: int| 0 <= p < q < s.len() ==> s[p] != s[q]
}

/// Every pair of keys agrees on all bits at position `b` and above.
pub open spec fn all_agree_above(cases: Seq<u64>, b: int) -> bool {
    forall|p: int, q: int|
        0 <= p < cases.len() && 0 <= q < cases.len() ==> cases[p] >> (b as u64) == cases[q] >> (
        b as u64)
}

/// The window constructed from integer edges.
pub open spec fn win_of(l: int, r: int) -> Window {
    Window { l: l as u8, r: r as u8 }
}

/// The state of the window scan from bit `b` down to bit 0: `l` is the left
/// edge carried along, `wm` the best window recorded so far.  At each bit the
/// scan either records the current window (if critical) or narrows the left
/// edge and keeps whichever of the narrowed window and the recorded best has
/// the greater mapped cardinality.
pub open spec fn cw_from(cases: Seq<u64>, b: int, l: int, wm: Window) -> Window
    decreases b + 1,
{
    if b < 0 {
        wm
    } else if crit_i(l, b, cases) {
        cw_from(cases, b - 1, l, win_of(l, b))
    } else if win_card(l - 1, b, cases) > win_card(wm.l as int, wm.r as int, cases) {
        cw_from(cases, b - 1, l - 1, win_of(l - 1, b))
    } else {
        cw_from(cases, b - 1, l - 1, wm)
    }
}

/// The window that the scan settles on, starting from the single-bit window
/// at the most significant bit.
pub open spec fn spec_critical_window(cases: Seq<u64>) -> Window {
    cw_from(cases, 63, 63, Window { l: 63, r: 63 })
}

/// If two keys agree on the bits above `s` and on bit `s`, they agree on all
/// bits at `s` and above.
proof fn lemma_bit_agree_step(x: u64, y: u64, s: u64)
    requires
        s <= 63,
        x >> (s + 1) == y >> (s + 1),
        (x >> s) & 1 == (y >> s) & 1,
    ensures
        x >> s == y >> s,
{
    assert(x >> s == y >> s) by (bit_vector)
        requires
            s <= 63,
            x >> (s + 1) == y >> (s + 1),
            (x >> s) & 1 == (y >> s) & 1,
    ;
}

/// A single-bit window extracts exactly that bit.
proof fn lemma_single_bit_hash(b: int, k: u64)
    requires
        0 <= b <= 63,
    ensures
        whash_i(b, b, k) == (k >> (b as u64)) & 1,
{
    assert(u64::MAX >> 63u64 == 1) by (bit_vector);
}

/// A window whose mapped cardinality is at most 1 maps every key to the same
/// bucket.
proof fn lemma_card1_all_equal(l: int, r: int, cases: Seq<u64>)
    requires
        cases.len() >= 1,
        win_card(l, r, cases) <= 1,
    ensures
        forall|p: int, q: int|
            0 <= p < cases.len() && 0 <= q < cases.len() ==> whash_i(l, r, #[trigger] cases[p])
                == whash_i(l, r, #[trigger] cases[q]),
{
    let m = win_hashes(l, r, cases);
    vstd::seq_lib::seq_to_set_is_finite(m);
    assert forall|p: int, q: int|
        0 <= p < cases.len() && 0 <= q < cases.len() implies whash_i(
        l,
        r,
        #[trigger] cases[p],
    ) == whash_i(l, r, #[trigger] cases[q]) by {
        assert(m.to_set().contains(m[p]));
        assert(m.to_set().contains(m[q]));
        if m[p] != m[q] {
            broadcast use vstd::set::axiom_set_remove_len;

            let s2 = m.to_set().remove(m[p]);
            assert(s2.contains(m[q]));
            if s2.len() == 0 {
                vstd::set::axiom_set_remove_finite(m.to_set(), m[p]);
                s2.lemma_len0_is_empty();
            }
        }
    }
}

/// A degenerate window (left edge below right edge) maps every key to bucket
/// 0, so its mapped cardinality on a nonempty key set is exactly 1.
proof fn lemma_degenerate_card(l: int, r: int, cases: Seq<u64>)
    requires
        l < r,
        cases.len() >= 1,
    ensures
        win_card(l, r, cases) == 1,
{
    let m = win_hashes(l, r, cases);
    assert(m.to_set().contains(m[0]));
    assert(m.to_set() =~= Set::<u64>::empty().insert(0u64)) by {
        assert forall|a: u64| #[trigger] m.to_set().contains(a) implies a == 0u64 by {
            let w = choose|w: int| 0 <= w < m.len() && m[w] == a;
            assert(m[w] == 0);
        }
        assert(m[0] == 0);
    }
    broadcast use vstd::set::axiom_set_empty_len, vstd::set::axiom_set_insert_len, vstd::set::axiom_set_empty_finite;

}

/// On a nonempty key set the mapped cardinality is at least 1.
pub proof fn lemma_card_pos(l: int, r: int, cases: Seq<u64>)
    requires
        cases.len() >= 1,
    ensures
        win_card(l, r, cases) >= 1,
{
    let m = win_hashes(l, r, cases);
    assert(m.to_set().contains(m[0]));
    if m.to_set().len() == 0 {
        vstd::seq_lib::seq_to_set_is_finite(m);
        m.to_set().lemma_len0_is_empty();
    }
}

/// The least key of a nonempty sequence (0 for an empty one).
pub open spec fn seq_min(s: Seq<u64>) -> u64
    decreases s.len(),
{
    if s.len() == 0 {
        0
    } else if s.len() == 1 {
        s[0]
    } else {
        let m = seq_min(s.drop_last());
        if s.last() < m {
            s.last()
        } else {
            m
        }
    }
}

/// The greatest key of a nonempty sequence (0 for an empty one).
pub open spec fn seq_max(s: Seq<u64>) -> u64
    decreases s.len(),
{
    if s.len() == 0 {
        0
    } else if s.len() == 1 {
        s[0]
    } else {
        let m = seq_max(s.drop_last());
        if s.last() > m {
            s.last()
        } else {
            m
        }
    }
}

/// Every element lies between the minimum and the maximum.
pub proof fn lemma_seq_min_max(s: Seq<u64>)
    requires
        s.len() >= 1,
    ensures
        forall|i: int| 0 <= i < s.len() ==> seq_min(s) <= #[trigger] s[i] && s[i] <= seq_max(s),
    decreases s.len(),
{
    if s.len() > 1 {
        lemma_seq_min_max(s.drop_last());
        assert forall|i: int| 0 <= i < s.len() implies seq_min(s) <= #[trigger] s[i] && s[i]
            <= seq_max(s) by {
            if i < s.len() - 1 {
                assert(s.drop_last()[i] == s[i]);
            }
        }
    }
}

/// A bound on every element bounds the maximum.
pub proof fn lemma_seq_max_le(s: Seq<u64>, bound: u64)
    requires
        s.len() >= 1,
        forall|i: int| 0 <= i < s.len() ==> #[trigger] s[i] <= bound,
    ensures
        seq_max(s) <= bound,
    decreases s.len(),
{
    if s.len() > 1 {
        assert forall|i: int| 0 <= i < s.drop_last().len() implies #[trigger] s.drop_last()[i]
            <= bound by {
            assert(s.drop_last()[i] == s[i]);
        }
        lemma_seq_max_le(s.drop_last(), bound);
    }
}

/// Minimum of a nonempty vector of keys.
fn vec_min(v: &Vec<u64>) -> (m: u64)
    requires
        v@.len() >= 1,
    ensures
        m == seq_min(v@),
{
    let mut m = v[0];
    let mut j: usize = 1;
    proof {
        assert(v@.take(1) =~= seq![v@[0]]);
    }
    while j < v.len()
        invariant
            1 <= j <= v@.len(),
            m == seq_min(v@.take(j as int)),
        decreases v@.len() - j,
    {
        proof {
            assert(v@.take(j as int + 1).drop_last() =~= v@.take(j as int));
            assert(v@.take(j as int + 1).last() == v@[j as int]);
        }
        if v[j] < m {
            m = v[j];
        }
        j += 1;
    }
    proof {
        assert(v@.take(v@.len() as int) =~= v@);
    }
    m
}

/// Maximum of a nonempty vector of keys.
fn vec_max(v: &Vec<u64>) -> (m: u64)
    requires
        v@.len() >= 1,
    ensures
        m == seq_max(v@),
{
    let mut m = v[0];
    let mut j: usize = 1;
    proof {
        assert(v@.take(1) =~= seq![v@[0]]);
    }
    while j < v.len()
        invariant
            1 <= j <= v@.len(),
            m == seq_max(v@.take(j as int)),
        decreases v@.len() - j,
    {
        proof {
            assert(v@.take(j as int + 1).drop_last() =~= v@.take(j as int));
            assert(v@.take(j as int + 1).last() == v@[j as int]);
        }
        if v[j] > m {
            m = v[j];
        }
        j += 1;
    }
    proof {
        assert(v@.take(v@.len() as int) =~= v@);
    }
    m
}

/// The leading-zero counts of the keys, in order.
pub open spec fn clz_seq(s: Seq<u64>) -> Seq<u64> {
    Seq::new(s.len(), |i: int| vstd::std_specs::bits::u64_leading_zeros(s[i]) as u64)
}

/// The trailing-zero counts of the keys, in order.
pub open spec fn ctz_seq(s: Seq<u64>) -> Seq<u64> {
    Seq::new(s.len(), |i: int| vstd::std_specs::bits::u64_trailing_zeros(s[i]) as u64)
}

/// A discriminator: a calibrated function from a key to a bucket index.
/// `hash` returns no bucket for a key below the calibrated bias; the dispatch
/// walk sends such keys to the default leaf.
#[derive(Copy, Clone)]
pub enum HashFn {
    /// `(key >> r) & ((1 << (l - r + 1)) - 1)`.
    Window(Window),
    /// `key - bias`.
    SubLow { bias: u64, size: u64 },
    /// `leadingZeroCount(key) - bias`.
    ClzSub { bias: u64, size: u64 },
    /// `trailingZeroCount(key)`.
    Ctz { size: u64 },
}

impl HashFn {
    /// A stored window must be narrow enough for its bucket count to fit.
    pub open spec fn wf(self) -> bool {
        match self {
            HashFn::Window(w) => w.sizable(),
            _ => true,
        }
    }

    /// The bucket count.
    pub open spec fn spec_size(self) -> u64 {
        match self {
            HashFn::Window(w) => win_size(w.l, w.r),
            HashFn::SubLow { bias, size } => size,
            HashFn::ClzSub { bias, size } => size,
            HashFn::Ctz { size } => size,
        }
    }

    /// The bucket index of `key`, or none where the computation leaves the
    /// key's domain (a key below the bias).
    pub open spec fn spec_hash(self, key: u64) -> Option<u64> {
        match self {
            HashFn::Window(w) => Some(win_hash(w.l, w.r, key)),
            HashFn::SubLow { bias, size } => if key >= bias {
                Some((key - bias) as u64)
            } else {
                None
            },
            HashFn::ClzSub { bias, size } => {
                let z = vstd::std_specs::bits::u64_leading_zeros(key) as u64;
                if z >= bias {
                    Some((z - bias) as u64)
                } else {
                    None
                }
            },
            HashFn::Ctz { size } => Some(vstd::std_specs::bits::u64_trailing_zeros(key) as u64),
        }
    }

    /// Bucket count of this discriminator.
    pub fn size(&self) -> (s: u64)
        requires
            self.wf(),
        ensures
            s == self.spec_size(),
    {
        match self {
            HashFn::Window(w) => w.size(),
            HashFn::SubLow { bias, size } => *size,
            HashFn::ClzSub { bias, size } => *size,
            HashFn::Ctz { size } => *size,
        }
    }

    /// The human-readable description of this discriminator's computation:
    /// the bit-window bounds, the bias value, or the computation kind.
    pub open spec fn spec_describe(self) -> Seq<char> {
        match self {
            HashFn::Window(w) => if w.l == w.r {
                "bit "@ + dec_str(w.l as u64)
            } else {
                "bits "@ + dec_str(w.l as u64) + " to "@ + dec_str(w.r as u64)
            },
            HashFn::SubLow { bias, size } => "x - "@ + dec_str(bias),
            HashFn::ClzSub { bias, size } => "clz(x) - "@ + dec_str(bias),
            HashFn::Ctz { size } => "ctz(x)"@,
        }
    }

    /// A human-readable description of the computation, so that a consumer
    /// can render the tree or emit code without inspecting the variants.
    pub fn describe(&self) -> (s: String)
        ensures
            s@ == self.spec_describe(),
    {
        match self {
            HashFn::Window(w) => {
                if w.l == w.r {
                    let mut s = String::new();
                    s.append("bit ");
                    let dl = u64_dec(w.l as u64);
                    s.append(dl.as_str());
                    s
                } else {
                    let mut s = String::new();
                    s.append("bits ");
                    let dl = u64_dec(w.l as u64);
                    s.append(dl.as_str());
                    s.append(" to ");
                    let dr = u64_dec(w.r as u64);
                    s.append(dr.as_str());
                    proof {
                        assert(s@ =~= "bits "@ + dec_str(w.l as u64) + " to "@ + dec_str(
                            w.r as u64,
                        ));
                    }
                    s
                }
            },
            HashFn::SubLow { bias, size } => {
                let mut s = String::new();
                s.append("x - ");
                let db = u64_dec(*bias);
                s.append(db.as_str());
                s
            },
            HashFn::ClzSub { bias, size } => {
                let mut s = String::new();
                s.append("clz(x) - ");
                let db = u64_dec(*bias);
                s.append(db.as_str());
                s
            },
            HashFn::Ctz { size } => {
                let mut s = String::new();
                s.append("ctz(x)");
                proof {
                    assert(s@ =~= "ctz(x)"@);
                }
                s
            },
        }
    }

    /// Bucket index of `key`, or none where the key falls below the bias.
    pub fn hash(&self, key: u64) -> (h: Option<u64>)
        requires
            self.wf(),
        ensures
            h == self.spec_hash(key),
    {
        match self {
            HashFn::Window(w) => Some(w.hash(key)),
            HashFn::SubLow { bias, size } => {
                if key >= *bias {
                    Some(key - *bias)
                } else {
                    None
                }
            },
            HashFn::ClzSub { bias, size } => {
                let z = key.leading_zeros() as u64;
                if z >= *bias {
                    Some(z - *bias)
                } else {
                    None
                }
            },
            HashFn::Ctz { size } => Some(key.trailing_zeros() as u64),
        }
    }
}

/// The character of one decimal digit.
pub open spec fn digit_char(d: int) -> char {
    if d == 0 {
        '0'
    } else if d == 1 {
        '1'
    } else if d == 2 {
        '2'
    } else if d == 3 {
        '3'
    } else if d == 4 {
        '4'
    } else if d == 5 {
        '5'
    } else if d == 6 {
        '6'
    } else if d == 7 {
        '7'
    } else if d == 8 {
        '8'
    } else {
        '9'
    }
}

/// The decimal digits of `v`, most significant first.
pub open spec fn dec_str(v: u64) -> Seq<char>
    decreases v,
{
    if v < 10 {
        seq![digit_char(v as int)]
    } else {
        dec_str(v / 10).push(digit_char((v % 10) as int))
    }
}

/// Render `v` in decimal.
fn u64_dec(v: u64) -> (s: String)
    ensures
        s@ == dec_str(v),
    decreases v,
{
    let d = v % 10;
    let ds: &str = if d == 0 {
        "0"
    } else if d == 1 {
        "1"
    } else if d == 2 {
        "2"
    } else if d == 3 {
        "3"
    } else if d == 4 {
        "4"
    } else if d == 5 {
        "5"
    } else if d == 6 {
        "6"
    } else if d == 7 {
        "7"
    } else if d == 8 {
        "8"
    } else {
        "9"
    };
    proof {
        reveal_strlit("0");
        reveal_strlit("1");
        reveal_strlit("2");
        reveal_strlit("3");
        reveal_strlit("4");
        reveal_strlit("5");
        reveal_strlit("6");
        reveal_strlit("7");
        reveal_strlit("8");
        reveal_strlit("9");
        assert(ds@ =~= seq![digit_char(d as int)]);
    }
    if v < 10 {
        let mut s = String::new();
        s.append(ds);
        proof {
            assert(s@ =~= dec_str(v));
        }
        s
    } else {
        let mut s = u64_dec(v / 10);
        s.append(ds);
        proof {
            assert(s@ =~= dec_str(v));
        }
        s
    }
}

/// A window's bucket index always lies below its bucket count.
pub proof fn lemma_win_hash_lt_size(w: Window, key: u64)
    requires
        w.sizable(),
    ensures
        win_hash(w.l, w.r, key) < win_size(w.l, w.r),
{
    let d: u64 = (w.l - w.r) as u64;
    let e: u64 = (63 - (w.l - w.r)) as u64;
    let r: u64 = w.r as u64;
    assert((d <= 62 && r <= 63 && d + e == 63) ==> ((key >> r) & (u64::MAX >> e)) < (1u64 << (d
        + 1))) by (bit_vector);
    assert(((w.l - w.r) + 1) as u64 == d + 1);
}

/// A bucket count is never 0.
pub proof fn lemma_win_size_pos(w: Window)
    requires
        w.sizable(),
    ensures
        win_size(w.l, w.r) >= 1,
{
    let e: u64 = ((w.l - w.r) + 1) as u64;
    assert(e <= 63 ==> (1u64 << e) >= 1) by (bit_vector);
}

/// A discriminator strategy: a factory that, given the key subset at one
/// node, manufactures a discriminator tuned to that subset.
pub trait HashMethod {
    /// The discriminator this strategy builds for the given key subset.
    spec fn spec_new(&self, cases: Seq<u64>) -> HashFn;

    /// Build a discriminator calibrated to `cases`.  Its bucket count is at
    /// least 1, every key of the subset has a bucket, and when the bucket
    /// count does not exceed the subset's size every key's bucket lies below
    /// the bucket count.
    fn new(&self, cases: &Vec<u64>) -> (f: HashFn)
        requires
            cases@.len() >= 2,
            distinct_seq(cases@),
            cases@.len() <= 0x8000_0000_0000_0000,
        ensures
            f == self.spec_new(cases@),
            f.wf(),
            f.spec_size() >= 1,
            forall|i: int| 0 <= i < cases@.len() ==> (#[trigger] f.spec_hash(cases@[i])) is Some,
            f.spec_size() <= cases@.len() ==> forall|i: int|
                0 <= i < cases@.len() ==> ((#[trigger] f.spec_hash(cases@[i])) matches Some(h)
                    && h < f.spec_size()),
    ;
}

/// The discriminator the window-search strategy settles on.
pub open spec fn spec_shift_mask_new(cases: Seq<u64>) -> HashFn {
    HashFn::Window(spec_critical_window(cases))
}

/// The discriminator of the low-bias subtraction strategy: subtract the least
/// key; one bucket per value between the least and the greatest key.
pub open spec fn spec_sub_low_new(cases: Seq<u64>) -> HashFn {
    let bias = seq_min(cases);
    let spread = seq_max(cases) - bias;
    HashFn::SubLow {
        bias,
        size: if spread == u64::MAX {
            u64::MAX
        } else {
            (spread + 1) as u64
        },
    }
}

/// The discriminator of the leading-zero bias strategy: subtract the least
/// leading-zero count over the subset from the key's leading-zero count.
pub open spec fn spec_clz_sub_new(cases: Seq<u64>) -> HashFn {
    let bias = seq_min(clz_seq(cases));
    HashFn::ClzSub { bias, size: (seq_max(clz_seq(cases)) - bias + 1) as u64 }
}

/// The discriminator of the trailing-zero strategy: the key's trailing-zero
/// count itself.
pub open spec fn spec_ctz_new(cases: Seq<u64>) -> HashFn {
    HashFn::Ctz { size: (seq_max(ctz_seq(cases)) + 1) as u64 }
}

/// Critical-window search, from "Efficient Multiway Radix Search Trees":
/// extract the longest tightly packed contiguous bit field.
pub struct ShiftMask;

/// Subtract the subset's least key; suited to densely packed ranges.
pub struct SubLow;

/// Subtract the least leading-zero count; groups keys by magnitude.
pub struct ClzSub;

/// Discriminate by trailing-zero count; suited to flag-like keys.
pub struct Ctz;

impl HashMethod for ShiftMask {
    open spec fn spec_new(&self, cases: Seq<u64>) -> HashFn {
        spec_shift_mask_new(cases)
    }

    fn new(&self, cases: &Vec<u64>) -> (f: HashFn) {
        let w = Window::critical_window(cases);
        proof {
            lemma_win_size_pos(w);
            assert forall|i: int| 0 <= i < cases@.len() implies ((#[trigger] HashFn::Window(
                w,
            ).spec_hash(cases@[i])) matches Some(h)
                && h < HashFn::Window(w).spec_size()) by {
                lemma_win_hash_lt_size(w, cases@[i]);
            }
        }
        HashFn::Window(w)
    }
}

impl HashMethod for SubLow {
    open spec fn spec_new(&self, cases: Seq<u64>) -> HashFn {
        spec_sub_low_new(cases)
    }

    fn new(&self, cases: &Vec<u64>) -> (f: HashFn) {
        let bias = vec_min(cases);
        let mx = vec_max(cases);
        proof {
            lemma_seq_min_max(cases@);
        }
        let spread = mx - bias;
        let size = if spread == u64::MAX {
            u64::MAX
        } else {
            spread + 1
        };
        HashFn::SubLow { bias, size }
    }
}

impl HashMethod for ClzSub {
    open spec fn spec_new(&self, cases: Seq<u64>) -> HashFn {
        spec_clz_sub_new(cases)
    }

    fn new(&self, cases: &Vec<u64>) -> (f: HashFn) {
        let zs = clz_vec(cases);
        proof {
            assert(zs@.len() == cases@.len());
        }
        let bias = vec_min(&zs);
        let mx = vec_max(&zs);
        proof {
            lemma_seq_min_max(zs@);
            broadcast use vstd::std_specs::bits::axiom_u64_leading_zeros;

            assert forall|i: int| 0 <= i < zs@.len() implies #[trigger] zs@[i] <= 64 by {
                assert(zs@[i] == vstd::std_specs::bits::u64_leading_zeros(cases@[i]) as u64);
            }
            lemma_seq_max_le(zs@, 64);
        }
        let size = mx - bias + 1;
        let f = HashFn::ClzSub { bias, size };
        proof {
            assert forall|i: int| 0 <= i < cases@.len() implies ((#[trigger] f.spec_hash(
                cases@[i],
            )) matches Some(h)
                && h < f.spec_size()) by {
                assert(zs@[i] == vstd::std_specs::bits::u64_leading_zeros(cases@[i]) as u64);
            }
        }
        f
    }
}

impl HashMethod for Ctz {
    open spec fn spec_new(&self, cases: Seq<u64>) -> HashFn {
        spec_ctz_new(cases)
    }

    fn new(&self, cases: &Vec<u64>) -> (f: HashFn) {
        let zs = ctz_vec(cases);
        proof {
            assert(zs@.len() == cases@.len());
        }
        let mx = vec_max(&zs);
        proof {
            lemma_seq_min_max(zs@);
            broadcast use vstd::std_specs::bits::axiom_u64_trailing_zeros;

            assert forall|i: int| 0 <= i < zs@.len() implies #[trigger] zs@[i] <= 64 by {
                assert(zs@[i] == vstd::std_specs::bits::u64_trailing_zeros(cases@[i]) as u64);
            }
            lemma_seq_max_le(zs@, 64);
        }
        let f = HashFn::Ctz { size: mx + 1 };
        proof {
            assert forall|i: int| 0 <= i < cases@.len() implies ((#[trigger] f.spec_hash(
                cases@[i],
            )) matches Some(h)
                && h < f.spec_size()) by {
                assert(zs@[i] == vstd::std_specs::bits::u64_trailing_zeros(cases@[i]) as u64);
            }
        }
        f
    }
}

/// The leading-zero counts of the keys, as a vector.
fn clz_vec(cases: &Vec<u64>) -> (zs: Vec<u64>)
    ensures
        zs@ == clz_seq(cases@),
{
    let mut zs: Vec<u64> = Vec::new();
    let mut j: usize = 0;
    while j < cases.len()
        invariant
            j <= cases@.len(),
            zs@.len() == j,
            forall|i: int|
                0 <= i < j ==> zs@[i] == vstd::std_specs::bits::u64_leading_zeros(cases@[i]) as u64,
        decreases cases@.len() - j,
    {
        zs.push(cases[j].leading_zeros() as u64);
        j += 1;
    }
    proof {
        assert(zs@ =~= clz_seq(cases@));
    }
    zs
}

/// The trailing-zero counts of the keys, as a vector.
fn ctz_vec(cases: &Vec<u64>) -> (zs: Vec<u64>)
    ensures
        zs@ == ctz_seq(cases@),
{
    let mut zs: Vec<u64> = Vec::new();
    let mut j: usize = 0;
    while j < cases.len()
        invariant
            j <= cases@.len(),
            zs@.len() == j,
            forall|i: int|
                0 <= i < j ==> zs@[i] == vstd::std_specs::bits::u64_trailing_zeros(
                    cases@[i],
                ) as u64,
        decreases cases@.len() - j,
    {
        zs.push(cases[j].trailing_zeros() as u64);
        j += 1;
    }
    proof {
        assert(zs@ =~= ctz_seq(cases@));
    }
    zs
}

/// One of the closed set of discriminator strategies, so that a tree build
/// can take an ordered mix of them.
#[derive(Copy, Clone)]
pub enum Strategy {
    ShiftMask,
    SubLow,
    ClzSub,
    Ctz,
}

impl HashMethod for Strategy {
    open spec fn spec_new(&self, cases: Seq<u64>) -> HashFn {
        match self {
            Strategy::ShiftMask => spec_shift_mask_new(cases),
            Strategy::SubLow => spec_sub_low_new(cases),
            Strategy::ClzSub => spec_clz_sub_new(cases),
            Strategy::Ctz => spec_ctz_new(cases),
        }
    }

    fn new(&self, cases: &Vec<u64>) -> (f: HashFn) {
        match self {
            Strategy::ShiftMask => HashMethod::new(&ShiftMask, cases),
            Strategy::SubLow => HashMethod::new(&SubLow, cases),
            Strategy::ClzSub => HashMethod::new(&ClzSub, cases),
            Strategy::Ctz => HashMethod::new(&Ctz, cases),
        }
    }
}

} // verus!
