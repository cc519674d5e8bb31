//! The n-gram ladder: one counter per order `1..=max_order`.

use vstd::prelude::*;

verus! {

use vstd::string::StrSliceExecFns;

use crate::counter::Counter;
use crate::counter::spec_matching;
use crate::counter::suffix_of;

/// How many times `g` occurs in `s` as a contiguous run, counting every
/// position once.  Grams of length 0 are never counted.
pub open spec fn occurrences(s: Seq<char>, g: Seq<char>) -> nat
    decreases s.len(),
{
    if g.len() == 0 || s.len() < g.len() {
        0
    } else {
        occurrences(s.drop_last(), g) + (if suffix_of(s, g.len() as int) == g {
            1nat
        } else {
            0nat
        })
    }
}

/// `s` with every space removed; the symbol stream a text is counted as.
pub open spec fn without_spaces(s: Seq<char>) -> Seq<char>
    decreases s.len(),
{
    if s.len() == 0 {
        Seq::empty()
    } else if s.last() == ' ' {
        without_spaces(s.drop_last())
    } else {
        without_spaces(s.drop_last()).push(s.last())
    }
}

/// How many grams of order `k` one pass over `n` symbols yields: one per
/// position from `k` to `n`.
pub open spec fn grams_added(n: int, k: int) -> nat {
    if 1 <= k <= n {
        (n + 1 - k) as nat
    } else {
        0
    }
}

/// Appending one symbol adds exactly one occurrence of the gram the stream
/// now ends with, at each order it is long enough for, and none of any other.
proof fn lemma_occurrences_step(s: Seq<char>, c: char, g: Seq<char>)
    requires
        g.len() >= 1,
    ensures
        occurrences(s.push(c), g) == occurrences(s, g) + (if g.len() <= s.len() + 1
            && suffix_of(s.push(c), g.len() as int) == g {
            1nat
        } else {
            0nat
        }),
{
    if g.len() <= s.len() + 1 {
        assert(s.push(c).drop_last() =~= s);
    }
}

/// A chain of n-gram counters for every order from 1 up to a fixed maximum.
pub struct Ladder {
    counters: Vec<Counter>,
}

impl Ladder {
    /// The maximum order; the ladder holds one counter per order `1..=max`.
    pub closed spec fn spec_max_order(self) -> int {
        self.counters@.len() as int
    }

    /// Well-formed: at least one counter, and the counter at position `i`
    /// counts grams of order `i + 1`.
    pub closed spec fn wf(self) -> bool {
        &&& self.counters@.len() >= 1
        &&& (forall|i: int|
            0 <= i < self.counters@.len() ==> (#[trigger] self.counters@[i]).wf()
                && self.counters@[i].spec_order() == i + 1)
    }

    /// The model: how many times gram `g` has been counted at order `k`.
    pub closed spec fn spec_count(self, k: int, g: Seq<char>) -> nat {
        self.counters@[k - 1].spec_count(g)
    }

    /// Sum of all counts at order `k`.
    pub closed spec fn spec_total(self, k: int) -> nat {
        self.counters@[k - 1].spec_total()
    }

    /// An empty ladder covering orders `1..=max_order`.  A maximum order of 0
    /// is rejected: the order-0 end of the chain is a sentinel, not a counter.
    pub fn new(max_order: usize) -> (r: Ladder)
        requires
            1 <= max_order,
        ensures
            r.wf(),
            r.spec_max_order() == max_order,
            forall|k: int, g: Seq<char>| 1 <= k <= max_order ==> r.spec_count(k, g) == 0,
            forall|k: int| 1 <= k <= max_order ==> r.spec_total(k) == 0,
    {
        let mut counters: Vec<Counter> = Vec::new();
        while counters.len() < max_order
            invariant
                counters@.len() <= max_order,
                forall|i: int|
                    0 <= i < counters@.len() ==> (#[trigger] counters@[i]).wf()
                        && counters@[i].spec_order() == i + 1 && counters@[i].spec_total() == 0,
                forall|i: int, g: Seq<char>|
                    0 <= i < counters@.len() ==> #[trigger] counters@[i].spec_count(g) == 0,
            decreases max_order - counters@.len(),
        {
            let k = counters.len() + 1;
            counters.push(Counter::new(k));
        }
        Ladder { counters }
    }

    /// The maximum order, as kept at run time.
    pub fn max_order(&self) -> (r: usize)
        ensures
            r == self.spec_max_order(),
    {
        self.counters.len()
    }

    /// Feeds a symbol sequence: one pass over `syms` adds, at every order
    /// `k <= max_order`, every overlapping gram of `k` consecutive symbols.
    /// Feeding accumulates on top of whatever the ladder already holds; it
    /// never resets.  A single sliding window of `max_order` symbols is
    /// shared by all orders, each reading its own trailing suffix.
    #[verifier::loop_isolation(false)]
    pub fn feed_from(&mut self, syms: &Vec<char>)
        requires
            old(self).wf(),
            forall|k: int|
                1 <= k <= old(self).spec_max_order() ==> #[trigger] old(self).spec_total(k)
                    + syms@.len() <= u64::MAX,
        ensures
            final(self).wf(),
            final(self).spec_max_order() == old(self).spec_max_order(),
            forall|k: int, g: Seq<char>|
                1 <= k <= old(self).spec_max_order() && g.len() == k ==> #[trigger] final(self).spec_count(k, g) == old(self).spec_count(k, g) + occurrences(syms@, g),
            forall|k: int|
                1 <= k <= old(self).spec_max_order() ==> #[trigger] final(self).spec_total(k)
                    == old(self).spec_total(k) + grams_added(syms@.len() as int, k),
    {
        let w = self.counters.len();
        let mut window: Vec<char> = Vec::new();
        while window.len() < w
            invariant
                window@.len() <= w,
            decreases w - window@.len(),
        {
            window.push(' ');
        }
        let mut count: usize = 0;
        let mut j: usize = 0;
        while j < syms.len()
            invariant
                j <= syms@.len(),
                count == (if j <= w {
                    j
                } else {
                    w
                }),
                window@.len() == w,
                forall|p: int| w - count <= p < w ==> window@[p] == syms@[j - w + p],
                self.counters@.len() == w,
                forall|t: int|
                    0 <= t < w ==> (#[trigger] self.counters@[t]).wf()
                        && self.counters@[t].spec_order() == t + 1,
                forall|t: int, g: Seq<char>|
                    0 <= t < w && g.len() == t + 1 ==> #[trigger] self.counters@[t].spec_count(g)
                        == old(self).counters@[t].spec_count(g) + occurrences(
                        syms@.subrange(0, j as int),
                        g,
                    ),
                forall|t: int|
                    0 <= t < w ==> #[trigger] self.counters@[t].spec_total() == old(self).counters@[t].spec_total() + grams_added(j as int, t + 1),
            decreases syms@.len() - j,
        {
            let c = syms[j];
            let ghost win0 = window@;
            let mut p: usize = 0;
            while p + 1 < w
                invariant
                    p < w,
                    window@.len() == w,
                    forall|q: int| 0 <= q < p ==> window@[q] == win0[q + 1],
                    forall|q: int| p <= q < w ==> window@[q] == win0[q],
                decreases w - p,
            {
                let tmp = window[p + 1];
                window[p] = tmp;
                p += 1;
            }
            window[w - 1] = c;
            if count < w {
                count += 1;
            }
            let ghost s_j = syms@.subrange(0, j as int);
            let ghost s_j1 = syms@.subrange(0, j as int + 1);
            proof {
                assert(s_j1.drop_last() =~= s_j);
                assert(s_j1.last() == syms@[j as int]);
            }
            let mut idx: usize = 0;
            while idx < w
                invariant
                    idx <= w,
                    self.counters@.len() == w,
                    forall|t: int|
                        0 <= t < w ==> (#[trigger] self.counters@[t]).wf()
                            && self.counters@[t].spec_order() == t + 1,
                    forall|t: int, g: Seq<char>|
                        0 <= t < idx && g.len() == t + 1 ==> #[trigger] self.counters@[
                            t
                        ].spec_count(g) == old(self).counters@[t].spec_count(g) + occurrences(
                            s_j1,
                            g,
                        ),
                    forall|t: int|
                        0 <= t < idx ==> #[trigger] self.counters@[t].spec_total() == old(self).counters@[t].spec_total() + grams_added(j as int + 1, t + 1),
                    forall|t: int, g: Seq<char>|
                        idx <= t < w && g.len() == t + 1 ==> #[trigger] self.counters@[
                            t
                        ].spec_count(g) == old(self).counters@[t].spec_count(g) + occurrences(
                            s_j,
                            g,
                        ),
                    forall|t: int|
                        idx <= t < w ==> #[trigger] self.counters@[t].spec_total() == old(self).counters@[t].spec_total() + grams_added(j as int, t + 1),
                decreases w - idx,
            {
                let k = idx + 1;
                if count >= k {
                    proof {
                        assert(grams_added(j as int, k as int) <= j);
                        assert(old(self).spec_total(k as int) + syms@.len() <= u64::MAX);
                        assert(self.counters@[idx as int].spec_total() < u64::MAX);
                    }
                    self.counters[idx].increment(&window);
                    proof {
                        let gram = suffix_of(window@, k as int);
                        assert(gram =~= suffix_of(s_j1, k as int));
                        assert forall|g: Seq<char>| g.len() == k implies self.counters@[
                            idx as int
                        ].spec_count(g) == old(self).counters@[idx as int].spec_count(g)
                            + occurrences(s_j1, g) by {
                            lemma_occurrences_step(s_j, syms@[j as int], g);
                            assert(s_j.push(syms@[j as int]) =~= s_j1);
                        }
                    }
                } else {
                    proof {
                        assert forall|g: Seq<char>| g.len() == k implies occurrences(s_j1, g)
                            == occurrences(s_j, g) by {
                            lemma_occurrences_step(s_j, syms@[j as int], g);
                            assert(s_j.push(syms@[j as int]) =~= s_j1);
                        }
                    }
                }
                idx += 1;
            }
            j += 1;
        }
        proof {
            assert(syms@.subrange(0, syms@.len() as int) =~= syms@);
        }
    }

    /// Feeds a text: its characters, with every space dropped, in order.
    pub fn feed(&mut self, text: &str)
        requires
            old(self).wf(),
            forall|k: int|
                1 <= k <= old(self).spec_max_order() ==> #[trigger] old(self).spec_total(k)
                    + without_spaces(text@).len() <= u64::MAX,
        ensures
            final(self).wf(),
            final(self).spec_max_order() == old(self).spec_max_order(),
            forall|k: int, g: Seq<char>|
                1 <= k <= old(self).spec_max_order() && g.len() == k ==> #[trigger] final(self).spec_count(k, g) == old(self).spec_count(k, g) + occurrences(
                    without_spaces(text@),
                    g,
                ),
            forall|k: int|
                1 <= k <= old(self).spec_max_order() ==> #[trigger] final(self).spec_total(k)
                    == old(self).spec_total(k) + grams_added(without_spaces(text@).len() as int, k),
    {
        let syms = chars_without_spaces(text);
        self.feed_from(&syms);
    }

    /// Empties every counter in the chain; the orders covered stay the same.
    pub fn clear(&mut self)
        requires
            old(self).wf(),
        ensures
            final(self).wf(),
            final(self).spec_max_order() == old(self).spec_max_order(),
            forall|k: int, g: Seq<char>|
                1 <= k <= old(self).spec_max_order() ==> final(self).spec_count(k, g) == 0,
            forall|k: int|
                1 <= k <= old(self).spec_max_order() ==> #[trigger] final(self).spec_total(k) == 0,
    {
        let w = self.counters.len();
        let mut idx: usize = 0;
        while idx < w
            invariant
                idx <= w,
                self.counters@.len() == w,
                w == old(self).counters@.len(),
                forall|t: int|
                    0 <= t < w ==> (#[trigger] self.counters@[t]).wf()
                        && self.counters@[t].spec_order() == t + 1,
                forall|t: int, g: Seq<char>|
                    0 <= t < idx ==> #[trigger] self.counters@[t].spec_count(g) == 0,
                forall|t: int| 0 <= t < idx ==> #[trigger] self.counters@[t].spec_total() == 0,
            decreases w - idx,
        {
            self.counters[idx].clear();
            idx += 1;
        }
    }

    /// The count recorded for `gram` at order `k`.
    pub fn count(&self, k: usize, gram: &Vec<char>) -> (r: u64)
        requires
            self.wf(),
            1 <= k <= self.spec_max_order(),
        ensures
            r as nat == self.spec_count(k as int, gram@),
    {
        self.counters[k - 1].get_count(gram)
    }

    /// The total number of grams counted at order `k`, with multiplicity.
    pub fn total(&self, k: usize) -> (r: u64)
        requires
            self.wf(),
            1 <= k <= self.spec_max_order(),
        ensures
            r as nat == self.spec_total(k as int),
    {
        self.counters[k - 1].total_count()
    }
}

/// A ladder built directly from a text: an empty ladder of the given maximum
/// order, fed the text's characters with every space dropped.
pub fn from_text(max_order: usize, text: &str) -> (r: Ladder)
    requires
        1 <= max_order,
    ensures
        r.wf(),
        r.spec_max_order() == max_order,
        forall|k: int, g: Seq<char>|
            1 <= k <= max_order && g.len() == k ==> #[trigger] r.spec_count(k, g) == occurrences(
                without_spaces(text@),
                g,
            ),
        forall|k: int|
            1 <= k <= max_order ==> #[trigger] r.spec_total(k) == grams_added(
                without_spaces(text@).len() as int,
                k,
            ),
{
    let mut ladder = Ladder::new(max_order);
    let syms = chars_without_spaces(text);
    ladder.feed_from(&syms);
    ladder
}

/// A text's characters with every space dropped: the symbol stream it is
/// counted as.
pub fn chars_without_spaces(text: &str) -> (r: Vec<char>)
    ensures
        r@ == without_spaces(text@),
        r@.len() <= text@.len(),
        text@.len() <= usize::MAX,
{
    let n = text.unicode_len();
    let mut v: Vec<char> = Vec::new();
    let mut i: usize = 0;
    while i < n
        invariant
            i <= n,
            n == text@.len(),
            v@ == without_spaces(text@.subrange(0, i as int)),
            v@.len() <= i,
        decreases n - i,
    {
        let ch = text.get_char(i);
        proof {
            assert(text@.subrange(0, i as int + 1).drop_last() =~= text@.subrange(0, i as int));
            assert(text@.subrange(0, i as int + 1).last() == text@[i as int]);
        }
        if ch != ' ' {
            v.push(ch);
        }
        i += 1;
    }
    proof {
        assert(text@.subrange(0, n as int) =~= text@);
    }
    v
}

/// Clipped-count overlap of the two ladders' order-`k` counters.
pub closed spec fn spec_matching_at(cand: Ladder, reff: Ladder, k: int) -> nat {
    spec_matching(cand.counters@[k - 1], reff.counters@[k - 1])
}

/// The three integer statistics an order-`k` F-beta score is made of:
/// the clipped-count overlap, the candidate's total and the reference's
/// total at that order.  Both ladders must cover the same orders.
pub fn order_stats(cand: &Ladder, reff: &Ladder, k: usize) -> (r: (u64, u64, u64))
    requires
        cand.wf(),
        reff.wf(),
        cand.spec_max_order() == reff.spec_max_order(),
        1 <= k <= cand.spec_max_order(),
    ensures
        r.0 as nat == spec_matching_at(*cand, *reff, k as int),
        r.1 as nat == cand.spec_total(k as int),
        r.2 as nat == reff.spec_total(k as int),
{
    let m = crate::counter::matching(&cand.counters[k - 1], &reff.counters[k - 1]);
    let t_cand = cand.counters[k - 1].total_count();
    let t_ref = reff.counters[k - 1].total_count();
    (m, t_cand, t_ref)
}

/// Swapping candidate and reference leaves the overlap at every order as it
/// was: only the totals it is set against trade places, so precision and
/// recall swap roles and the final score need not survive the swap.
pub proof fn lemma_matching_at_symmetric(cand: Ladder, reff: Ladder, k: int)
    requires
        cand.wf(),
        reff.wf(),
        1 <= k <= cand.spec_max_order(),
        1 <= k <= reff.spec_max_order(),
    ensures
        spec_matching_at(cand, reff, k) == spec_matching_at(reff, cand, k),
{
    crate::counter::lemma_matching_symmetric(cand.counters@[k - 1], reff.counters@[k - 1]);
}

/// When the two ladders count every order-`k` gram alike — as after feeding
/// the same text into both — the overlap at `k` equals both totals, so
/// precision and recall at that order are both exactly 1.
pub proof fn lemma_matching_at_identity(cand: Ladder, reff: Ladder, k: int)
    requires
        cand.wf(),
        reff.wf(),
        1 <= k <= cand.spec_max_order(),
        1 <= k <= reff.spec_max_order(),
        forall|g: Seq<char>| cand.spec_count(k, g) == reff.spec_count(k, g),
    ensures
        spec_matching_at(cand, reff, k) == cand.spec_total(k),
        spec_matching_at(cand, reff, k) == reff.spec_total(k),
{
    assert forall|g: Seq<char>| #[trigger]
        cand.counters@[k - 1].spec_count(g) == reff.counters@[k - 1].spec_count(g) by {
        assert(cand.spec_count(k, g) == reff.spec_count(k, g));
    }
    crate::counter::lemma_matching_identity(cand.counters@[k - 1], reff.counters@[k - 1]);
}

/// The overlap at an order never exceeds either ladder's total there: each
/// per-order precision and recall is at most 1.
pub proof fn lemma_matching_at_le_totals(cand: Ladder, reff: Ladder, k: int)
    requires
        cand.wf(),
        reff.wf(),
        1 <= k <= cand.spec_max_order(),
        1 <= k <= reff.spec_max_order(),
    ensures
        spec_matching_at(cand, reff, k) <= cand.spec_total(k),
        spec_matching_at(cand, reff, k) <= reff.spec_total(k),
{
    crate::counter::lemma_matching_le_totals(cand.counters@[k - 1], reff.counters@[k - 1]);
}

/// Feeding two pieces one after the other adds the same per-order totals as
/// feeding their concatenation, whenever no order-`k` gram can span the split:
/// at order 1 always, when either piece is empty, or when both pieces together
/// are still shorter than the order.
pub proof fn lemma_grams_added_split(m: int, n: int, k: int)
    requires
        1 <= k,
        0 <= m,
        0 <= n,
        k == 1 || m == 0 || n == 0 || m + n < k,
    ensures
        grams_added(m + n, k) == grams_added(m, k) + grams_added(n, k),
{
}

/// At order 1 no gram spans a split, so occurrence counts — not only totals —
/// add up across a concatenation.
pub proof fn lemma_occurrences_concat_unigram(a: Seq<char>, b: Seq<char>, g: Seq<char>)
    requires
        g.len() == 1,
    ensures
        occurrences(a + b, g) == occurrences(a, g) + occurrences(b, g),
    decreases b.len(),
{
    if b.len() == 0 {
        assert(a + b =~= a);
    } else {
        lemma_occurrences_concat_unigram(a, b.drop_last(), g);
        assert((a + b).drop_last() =~= a + b.drop_last());
        assert(suffix_of(a + b, 1) =~= suffix_of(b, 1));
    }
}

/// The per-order statistics for every order, walking from the top order down
/// to 1: entry `i` holds `order_stats` at order `max_order - i`.
pub fn stats(cand: &Ladder, reff: &Ladder) -> (r: Vec<(u64, u64, u64)>)
    requires
        cand.wf(),
        reff.wf(),
        cand.spec_max_order() == reff.spec_max_order(),
    ensures
        r@.len() == cand.spec_max_order(),
        forall|i: int|
            0 <= i < r@.len() ==> {
                let k = cand.spec_max_order() - i;
                &&& (#[trigger] r@[i]).0 as nat == spec_matching_at(*cand, *reff, k)
                &&& r@[i].1 as nat == cand.spec_total(k)
                &&& r@[i].2 as nat == reff.spec_total(k)
            },
{
    let w = cand.max_order();
    let mut out: Vec<(u64, u64, u64)> = Vec::new();
    let mut k: usize = w;
    while k >= 1
        invariant
            k <= w,
            cand.wf(),
            reff.wf(),
            w == cand.spec_max_order(),
            w == reff.spec_max_order(),
            out@.len() == w - k,
            forall|i: int|
                0 <= i < out@.len() ==> {
                    let o = w - i;
                    &&& (#[trigger] out@[i]).0 as nat == spec_matching_at(*cand, *reff, o)
                    &&& out@[i].1 as nat == cand.spec_total(o)
                    &&& out@[i].2 as nat == reff.spec_total(o)
                },
        decreases k,
    {
        out.push(order_stats(cand, reff, k));
        k -= 1;
    }
    out
}

} // verus!
