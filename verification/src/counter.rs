//! A counter for n-grams of one fixed order.
//!
//! `Counter` maps each gram (a sequence of exactly `order` symbols) to the
//! number of times it has been seen, and keeps the running sum of all counts.
//! Grams are stored as an association list with pairwise-distinct keys; the
//! spec-level model is the function `spec_count`, which gives every gram its
//! count (0 for grams never seen).

use vstd::prelude::*;

verus! {

/// The smaller of two naturals.
pub open spec fn min_nat(a: nat, b: nat) -> nat {
    if a <= b {
        a
    } else {
        b
    }
}

/// Count of `g` in the association list `(ks, cs)`, searching from index `i`:
/// the count stored beside the first key equal to `g`, or 0 when none is.
pub open spec fn count_from(ks: Seq<Vec<char>>, cs: Seq<u64>, g: Seq<char>, i: int) -> nat
    decreases ks.len() - i,
{
    if i < 0 || i >= ks.len() {
        0
    } else if ks[i]@ == g {
        cs[i] as nat
    } else {
        count_from(ks, cs, g, i + 1)
    }
}

/// Sum of the counts `cs[i..]`.
pub open spec fn sum_from(cs: Seq<u64>, i: int) -> nat
    decreases cs.len() - i,
{
    if i < 0 || i >= cs.len() {
        0
    } else {
        cs[i] as nat + sum_from(cs, i + 1)
    }
}

/// Clipped-count overlap, walking the reference list `(rk, rc)` from index
/// `i`: for each reference gram, the smaller of its reference count and its
/// count in the candidate list `(ck, cc)`.
pub open spec fn matching_from(
    ck: Seq<Vec<char>>,
    cc: Seq<u64>,
    rk: Seq<Vec<char>>,
    rc: Seq<u64>,
    i: int,
) -> nat
    decreases rk.len() - i,
{
    if i < 0 || i >= rk.len() {
        0
    } else {
        min_nat(rc[i] as nat, count_from(ck, cc, rk[i]@, 0)) + matching_from(ck, cc, rk, rc, i + 1)
    }
}

/// Pairwise-distinct keys: no gram is listed twice.
pub open spec fn distinct_keys(ks: Seq<Vec<char>>) -> bool {
    forall|i: int, j: int| 0 <= i < j < ks.len() ==> ks[i]@ != ks[j]@
}

/// A search that found no key equal to `g` before index `i` can restart there.
proof fn lemma_count_from_skip(ks: Seq<Vec<char>>, cs: Seq<u64>, g: Seq<char>, j: int, i: int)
    requires
        0 <= j <= i <= ks.len(),
        forall|l: int| j <= l < i ==> ks[l]@ != g,
    ensures
        count_from(ks, cs, g, j) == count_from(ks, cs, g, i),
    decreases i - j,
{
    if j < i {
        lemma_count_from_skip(ks, cs, g, j + 1, i);
    }
}

/// No key from index `i` on equals `g`: the count from there is 0.
proof fn lemma_count_from_absent(ks: Seq<Vec<char>>, cs: Seq<u64>, g: Seq<char>, i: int)
    requires
        0 <= i,
        forall|l: int| i <= l < ks.len() ==> ks[l]@ != g,
    ensures
        count_from(ks, cs, g, i) == 0,
    decreases ks.len() - i,
{
    if i < ks.len() {
        lemma_count_from_absent(ks, cs, g, i + 1);
    }
}

/// Any single count is at most the sum of all of them.
proof fn lemma_count_from_le_sum(ks: Seq<Vec<char>>, cs: Seq<u64>, g: Seq<char>, i: int)
    requires
        ks.len() == cs.len(),
    ensures
        count_from(ks, cs, g, i) <= sum_from(cs, i),
    decreases ks.len() - i,
{
    if 0 <= i < ks.len() && ks[i]@ != g {
        lemma_count_from_le_sum(ks, cs, g, i + 1);
    }
}

/// Replacing the count at index `i` moves the sum by the same difference.
proof fn lemma_sum_from_update(cs: Seq<u64>, i: int, x: u64, j: int)
    requires
        0 <= j <= i < cs.len(),
    ensures
        sum_from(cs.update(i, x), j) + cs[i] == sum_from(cs, j) + x,
    decreases i - j,
{
    if j < i {
        lemma_sum_from_update(cs, i, x, j + 1);
    } else {
        assert(sum_from(cs.update(i, x), i + 1) == sum_from(cs, i + 1)) by {
            lemma_sum_from_same(cs.update(i, x), cs, i + 1);
        }
    }
}

/// Two count lists equal from index `j` on have the same sum from `j`.
proof fn lemma_sum_from_same(cs1: Seq<u64>, cs2: Seq<u64>, j: int)
    requires
        cs1.len() == cs2.len(),
        forall|l: int| j <= l < cs1.len() ==> cs1[l] == cs2[l],
    ensures
        sum_from(cs1, j) == sum_from(cs2, j),
    decreases cs1.len() - j,
{
    if 0 <= j < cs1.len() {
        lemma_sum_from_same(cs1, cs2, j + 1);
    }
}

/// Replacing the count beside a key that is not `g` leaves `g`'s count alone.
proof fn lemma_count_from_update_other(
    ks: Seq<Vec<char>>,
    cs: Seq<u64>,
    i: int,
    x: u64,
    g: Seq<char>,
    j: int,
)
    requires
        0 <= i < ks.len(),
        ks.len() == cs.len(),
        ks[i]@ != g,
        0 <= j,
    ensures
        count_from(ks, cs.update(i, x), g, j) == count_from(ks, cs, g, j),
    decreases ks.len() - j,
{
    if j < ks.len() && ks[j]@ != g {
        lemma_count_from_update_other(ks, cs, i, x, g, j + 1);
    }
}

/// Appending one pair adds its count to the sum.
proof fn lemma_sum_from_push(cs: Seq<u64>, x: u64, j: int)
    requires
        0 <= j <= cs.len(),
    ensures
        sum_from(cs.push(x), j) == sum_from(cs, j) + x,
    decreases cs.len() - j,
{
    if j < cs.len() {
        lemma_sum_from_push(cs, x, j + 1);
    } else {
        assert(sum_from(cs.push(x), j + 1) == 0);
    }
}

/// Appending a pair whose key is not `g` leaves `g`'s count alone.
proof fn lemma_count_from_push_other(
    ks: Seq<Vec<char>>,
    cs: Seq<u64>,
    k2: Vec<char>,
    x: u64,
    g: Seq<char>,
    j: int,
)
    requires
        ks.len() == cs.len(),
        g != k2@,
        0 <= j,
    ensures
        count_from(ks.push(k2), cs.push(x), g, j) == count_from(ks, cs, g, j),
    decreases ks.len() + 1 - j,
{
    if j <= ks.len() && !(j < ks.len() && ks[j]@ == g) {
        lemma_count_from_push_other(ks, cs, k2, x, g, j + 1);
    }
}

/// Appending a pair whose key occurs nowhere from `j` on gives that key the
/// appended count.
proof fn lemma_count_from_push_new(ks: Seq<Vec<char>>, cs: Seq<u64>, k2: Vec<char>, x: u64, j: int)
    requires
        ks.len() == cs.len(),
        0 <= j <= ks.len(),
        forall|l: int| j <= l < ks.len() ==> ks[l]@ != k2@,
    ensures
        count_from(ks.push(k2), cs.push(x), k2@, j) == x,
    decreases ks.len() - j,
{
    if j < ks.len() {
        lemma_count_from_push_new(ks, cs, k2, x, j + 1);
    }
}

/// Occurrence counts for the grams of one order.
pub struct Counter {
    order: usize,
    keys: Vec<Vec<char>>,
    counts: Vec<u64>,
    total: u64,
}

impl Counter {
    /// The order: every key has exactly this many symbols.
    pub closed spec fn spec_order(self) -> int {
        self.order as int
    }

    /// The model: how many times gram `g` has been counted.
    pub closed spec fn spec_count(self, g: Seq<char>) -> nat {
        count_from(self.keys@, self.counts@, g, 0)
    }

    /// Sum of the counts of all grams.
    pub closed spec fn spec_total(self) -> nat {
        self.total as nat
    }

    /// Well-formed: order at least 1, keys of that exact length and pairwise
    /// distinct, every stored count positive, and `total` the sum of them.
    pub closed spec fn wf(self) -> bool {
        &&& self.order >= 1
        &&& self.keys@.len() == self.counts@.len()
        &&& (forall|i: int|
            0 <= i < self.keys@.len() ==> (#[trigger] self.keys@[i])@.len() == self.order)
        &&& distinct_keys(self.keys@)
        &&& (forall|i: int| 0 <= i < self.counts@.len() ==> 1 <= #[trigger] self.counts@[i])
        &&& self.total as nat == sum_from(self.counts@, 0)
    }

    /// An empty counter of the given order.  An order of 0 is rejected: the
    /// order-0 position of a ladder is a sentinel that holds no counter.
    pub fn new(order: usize) -> (r: Counter)
        requires
            1 <= order,
        ensures
            r.wf(),
            r.spec_order() == order,
            r.spec_total() == 0,
            forall|g: Seq<char>| r.spec_count(g) == 0,
    {
        Counter { order, keys: Vec::new(), counts: Vec::new(), total: 0 }
    }

    /// The stored total, without walking the list.
    pub fn total_count(&self) -> (r: u64)
        ensures
            r as nat == self.spec_total(),
    {
        self.total
    }

    /// The order, as kept at run time.
    pub fn order(&self) -> (r: usize)
        ensures
            r == self.spec_order(),
    {
        self.order
    }

    /// The index of the key equal to `gram`, if the counter holds one.
    fn find(&self, gram: &Vec<char>) -> (r: Option<usize>)
        requires
            self.wf(),
        ensures
            match r {
                Some(i) => {
                    &&& i < self.keys@.len()
                    &&& self.keys@[i as int]@ == gram@
                    &&& self.spec_count(gram@) == self.counts@[i as int] as nat
                    &&& forall|l: int| 0 <= l < i ==> self.keys@[l]@ != gram@
                },
                None => {
                    &&& self.spec_count(gram@) == 0
                    &&& forall|l: int| 0 <= l < self.keys@.len() ==> self.keys@[l]@ != gram@
                },
            },
    {
        let mut i: usize = 0;
        while i < self.keys.len()
            invariant
                self.wf(),
                i <= self.keys@.len(),
                forall|l: int| 0 <= l < i ==> self.keys@[l]@ != gram@,
            decreases self.keys@.len() - i,
        {
            if grams_equal(&self.keys[i], gram) {
                proof {
                    lemma_count_from_skip(self.keys@, self.counts@, gram@, 0, i as int);
                }
                return Some(i);
            }
            i += 1;
        }
        proof {
            lemma_count_from_absent(self.keys@, self.counts@, gram@, 0);
        }
        None
    }

    /// The count recorded for `gram`; 0 when the counter has never seen it.
    pub fn get_count(&self, gram: &Vec<char>) -> (r: u64)
        requires
            self.wf(),
        ensures
            r as nat == self.spec_count(gram@),
    {
        match self.find(gram) {
            Some(i) => self.counts[i],
            None => 0,
        }
    }

    /// Counts one more occurrence of the trailing `order` symbols of `window`.
    /// The window must be at least as long as the order.
    pub fn increment(&mut self, window: &Vec<char>)
        requires
            old(self).wf(),
            old(self).spec_order() <= window@.len(),
            old(self).spec_total() < u64::MAX,
        ensures
            final(self).wf(),
            final(self).spec_order() == old(self).spec_order(),
            final(self).spec_total() == old(self).spec_total() + 1,
            final(self).spec_count(suffix_of(window@, old(self).spec_order())) == old(self).spec_count(
                suffix_of(window@, old(self).spec_order()),
            ) + 1,
            forall|g: Seq<char>|
                g != suffix_of(window@, old(self).spec_order()) ==> final(self).spec_count(g) == old(self).spec_count(g),
    {
        let w = self.order;
        let start = window.len() - w;
        let mut gram: Vec<char> = Vec::new();
        let mut p: usize = start;
        while p < window.len()
            invariant
                w == self.order,
                start <= p <= window@.len(),
                start + w == window@.len(),
                gram@.len() == p - start,
                forall|l: int| 0 <= l < p - start ==> gram@[l] == window@[start + l],
            decreases window@.len() - p,
        {
            gram.push(window[p]);
            p += 1;
        }
        proof {
            assert(gram@ =~= suffix_of(window@, self.spec_order()));
        }
        match self.find(&gram) {
            Some(i) => {
                let c = self.counts[i];
                proof {
                    lemma_count_from_le_sum(self.keys@, self.counts@, gram@, 0);
                }
                self.counts[i] = c + 1;
                self.total = self.total + 1;
                proof {
                    lemma_sum_from_update(old(self).counts@, i as int, (c + 1) as u64, 0);
                    lemma_count_from_skip(self.keys@, self.counts@, gram@, 0, i as int);
                    assert forall|g: Seq<char>| g != gram@ implies self.spec_count(g) == old(self).spec_count(g) by {
                        lemma_count_from_update_other(
                            old(self).keys@,
                            old(self).counts@,
                            i as int,
                            (c + 1) as u64,
                            g,
                            0,
                        );
                    }
                }
            },
            None => {
                self.keys.push(gram);
                self.counts.push(1);
                self.total = self.total + 1;
                proof {
                    lemma_sum_from_push(old(self).counts@, 1, 0);
                    lemma_count_from_push_new(
                        old(self).keys@,
                        old(self).counts@,
                        self.keys@[self.keys@.len() - 1],
                        1,
                        0,
                    );
                    assert forall|g: Seq<char>|
                        g != suffix_of(window@, old(self).spec_order()) implies self.spec_count(g)
                        == old(self).spec_count(g) by {
                        lemma_count_from_push_other(
                            old(self).keys@,
                            old(self).counts@,
                            self.keys@[self.keys@.len() - 1],
                            1,
                            g,
                            0,
                        );
                    }
                }
            },
        }
    }

    /// Forgets every gram and resets the total to 0.
    pub fn clear(&mut self)
        requires
            old(self).wf(),
        ensures
            final(self).wf(),
            final(self).spec_order() == old(self).spec_order(),
            final(self).spec_total() == 0,
            forall|g: Seq<char>| final(self).spec_count(g) == 0,
    {
        self.keys.clear();
        self.counts.clear();
        self.total = 0;
    }
}

/// Dropping the last pair leaves the count of any other key alone.
proof fn lemma_count_from_drop_last_other(ks: Seq<Vec<char>>, cs: Seq<u64>, g: Seq<char>, j: int)
    requires
        ks.len() == cs.len(),
        ks.len() >= 1,
        g != ks[ks.len() - 1]@,
        0 <= j,
    ensures
        count_from(ks.drop_last(), cs.drop_last(), g, j) == count_from(ks, cs, g, j),
    decreases ks.len() - j,
{
    if j < ks.len() && !(j < ks.len() - 1 && ks[j]@ == g) {
        lemma_count_from_drop_last_other(ks, cs, g, j + 1);
    }
}

/// With distinct keys, the count of the key at `i` is the count stored there,
/// provided the search starts at or before `i`.
proof fn lemma_count_from_at(ks: Seq<Vec<char>>, cs: Seq<u64>, i: int, j: int)
    requires
        ks.len() == cs.len(),
        distinct_keys(ks),
        0 <= j <= i < ks.len(),
    ensures
        count_from(ks, cs, ks[i]@, j) == cs[i] as nat,
    decreases i - j,
{
    if j < i {
        lemma_count_from_at(ks, cs, i, j + 1);
    }
}

/// Dropping the reference's last pair removes exactly its clipped term.
proof fn lemma_matching_drop_last_ref(
    ck: Seq<Vec<char>>,
    cc: Seq<u64>,
    rk: Seq<Vec<char>>,
    rc: Seq<u64>,
    j: int,
)
    requires
        rk.len() == rc.len(),
        rk.len() >= 1,
        0 <= j <= rk.len() - 1,
    ensures
        matching_from(ck, cc, rk, rc, j) == matching_from(ck, cc, rk.drop_last(), rc.drop_last(), j)
            + min_nat(rc[rk.len() - 1] as nat, count_from(ck, cc, rk[rk.len() - 1]@, 0)),
    decreases rk.len() - j,
{
    if j < rk.len() - 1 {
        lemma_matching_drop_last_ref(ck, cc, rk, rc, j + 1);
        assert(rk.drop_last()[j] == rk[j]);
        assert(rc.drop_last()[j] == rc[j]);
    } else {
        assert(matching_from(ck, cc, rk.drop_last(), rc.drop_last(), j) == 0);
        assert(matching_from(ck, cc, rk, rc, j + 1) == 0);
    }
}

/// Dropping the candidate's last pair removes, from the whole overlap, the
/// clipped term of that pair's key — once, since keys repeat on neither side.
proof fn lemma_matching_drop_last_cand(
    ck: Seq<Vec<char>>,
    cc: Seq<u64>,
    rk: Seq<Vec<char>>,
    rc: Seq<u64>,
    j: int,
)
    requires
        ck.len() == cc.len(),
        ck.len() >= 1,
        rk.len() == rc.len(),
        distinct_keys(ck),
        distinct_keys(rk),
        0 <= j,
    ensures
        matching_from(ck, cc, rk, rc, j) == matching_from(ck.drop_last(), cc.drop_last(), rk, rc, j)
            + min_nat(count_from(rk, rc, ck[ck.len() - 1]@, j), cc[ck.len() - 1] as nat),
    decreases rk.len() - j,
{
    let last = ck.len() - 1;
    let key = ck[last]@;
    let x = cc[last] as nat;
    if j >= rk.len() {
        assert(count_from(rk, rc, key, j) == 0);
    } else {
        lemma_matching_drop_last_cand(ck, cc, rk, rc, j + 1);
        if rk[j]@ == key {
            assert(count_from(ck, cc, key, 0) == x) by {
                lemma_count_from_at(ck, cc, last, 0);
            }
            assert(count_from(ck.drop_last(), cc.drop_last(), key, 0) == 0) by {
                lemma_count_from_absent(ck.drop_last(), cc.drop_last(), key, 0);
            }
            assert(count_from(rk, rc, key, j) == rc[j] as nat);
            assert(count_from(rk, rc, key, j + 1) == 0) by {
                lemma_count_from_absent(rk, rc, key, j + 1);
            }
        } else {
            lemma_count_from_drop_last_other(ck, cc, rk[j]@, 0);
        }
    }
}

/// A candidate with no grams at all overlaps nothing.
proof fn lemma_matching_empty_cand(rk: Seq<Vec<char>>, rc: Seq<u64>, j: int)
    requires
        0 <= j,
    ensures
        matching_from(Seq::empty(), Seq::empty(), rk, rc, j) == 0,
    decreases rk.len() - j,
{
    if j < rk.len() {
        lemma_matching_empty_cand(rk, rc, j + 1);
    }
}

/// The clipped-count overlap is symmetric in its two sides.
proof fn lemma_matching_from_symmetric(
    ak: Seq<Vec<char>>,
    ac: Seq<u64>,
    bk: Seq<Vec<char>>,
    bc: Seq<u64>,
)
    requires
        ak.len() == ac.len(),
        bk.len() == bc.len(),
        distinct_keys(ak),
        distinct_keys(bk),
    ensures
        matching_from(ak, ac, bk, bc, 0) == matching_from(bk, bc, ak, ac, 0),
    decreases bk.len(),
{
    if bk.len() == 0 {
        assert(bk =~= Seq::<Vec<char>>::empty());
        assert(bc =~= Seq::<u64>::empty());
        lemma_matching_empty_cand(ak, ac, 0);
    } else {
        let last = bk.len() - 1;
        assert(distinct_keys(bk.drop_last()));
        lemma_matching_drop_last_ref(ak, ac, bk, bc, 0);
        lemma_matching_from_symmetric(ak, ac, bk.drop_last(), bc.drop_last());
        lemma_matching_drop_last_cand(bk, bc, ak, ac, 0);
    }
}

/// When the two sides count every gram alike, the overlap is the whole total.
proof fn lemma_matching_from_identity(
    ak: Seq<Vec<char>>,
    ac: Seq<u64>,
    bk: Seq<Vec<char>>,
    bc: Seq<u64>,
    j: int,
)
    requires
        ak.len() == ac.len(),
        bk.len() == bc.len(),
        distinct_keys(bk),
        forall|g: Seq<char>| count_from(ak, ac, g, 0) == count_from(bk, bc, g, 0),
        0 <= j,
    ensures
        matching_from(ak, ac, bk, bc, j) == sum_from(bc, j),
    decreases bk.len() - j,
{
    if j < bk.len() {
        lemma_matching_from_identity(ak, ac, bk, bc, j + 1);
        lemma_count_from_at(bk, bc, j, 0);
    }
}

/// The overlap of a counter with itself — or with any counter that has
/// counted every gram the same number of times — is the entire total: the
/// identity case, where precision and recall are both 1.
pub proof fn lemma_matching_identity(cand: Counter, reff: Counter)
    requires
        cand.wf(),
        reff.wf(),
        forall|g: Seq<char>| cand.spec_count(g) == reff.spec_count(g),
    ensures
        spec_matching(cand, reff) == reff.spec_total(),
        cand.spec_total() == reff.spec_total(),
{
    assert forall|g: Seq<char>|
        count_from(cand.keys@, cand.counts@, g, 0) == count_from(
            reff.keys@,
            reff.counts@,
            g,
            0,
        ) by {
        assert(cand.spec_count(g) == reff.spec_count(g));
    }
    lemma_matching_from_identity(cand.keys@, cand.counts@, reff.keys@, reff.counts@, 0);
    lemma_matching_from_identity(reff.keys@, reff.counts@, cand.keys@, cand.counts@, 0);
    lemma_matching_from_symmetric(cand.keys@, cand.counts@, reff.keys@, reff.counts@);
}

/// Swapping candidate and reference never changes the overlap itself: only
/// the totals it is divided by — precision against recall — change roles.
pub proof fn lemma_matching_symmetric(cand: Counter, reff: Counter)
    requires
        cand.wf(),
        reff.wf(),
    ensures
        spec_matching(cand, reff) == spec_matching(reff, cand),
{
    lemma_matching_from_symmetric(cand.keys@, cand.counts@, reff.keys@, reff.counts@);
}

/// The overlap never exceeds the reference's total.
pub proof fn lemma_matching_le_totals(cand: Counter, reff: Counter)
    requires
        cand.wf(),
        reff.wf(),
    ensures
        spec_matching(cand, reff) <= reff.spec_total(),
        spec_matching(cand, reff) <= cand.spec_total(),
{
    lemma_matching_le_sum(cand.keys@, cand.counts@, reff.keys@, reff.counts@, 0);
    lemma_matching_symmetric(cand, reff);
    lemma_matching_le_sum(reff.keys@, reff.counts@, cand.keys@, cand.counts@, 0);
}

/// Each clipped term is at most the reference count beside it.
proof fn lemma_matching_le_sum(
    ck: Seq<Vec<char>>,
    cc: Seq<u64>,
    rk: Seq<Vec<char>>,
    rc: Seq<u64>,
    j: int,
)
    requires
        0 <= j,
        rk.len() == rc.len(),
    ensures
        matching_from(ck, cc, rk, rc, j) <= sum_from(rc, j),
    decreases rk.len() - j,
{
    if j < rk.len() {
        lemma_matching_le_sum(ck, cc, rk, rc, j + 1);
    }
}

/// The trailing `k` symbols of `w`.
pub open spec fn suffix_of(w: Seq<char>, k: int) -> Seq<char> {
    w.subrange(w.len() - k, w.len() as int)
}

/// Clipped-count overlap of a candidate counter against a reference counter:
/// the sum, over every gram the reference has seen, of the smaller of its two
/// counts.  Grams only the candidate has seen contribute nothing.
pub closed spec fn spec_matching(cand: Counter, reff: Counter) -> nat {
    matching_from(cand.keys@, cand.counts@, reff.keys@, reff.counts@, 0)
}

/// The clipped-count overlap, computed by walking the reference's grams.
pub fn matching(cand: &Counter, reff: &Counter) -> (r: u64)
    requires
        cand.wf(),
        reff.wf(),
    ensures
        r as nat == spec_matching(*cand, *reff),
{
    let mut m: u64 = 0;
    let mut i: usize = 0;
    while i < reff.keys.len()
        invariant
            cand.wf(),
            reff.wf(),
            i <= reff.keys@.len(),
            spec_matching(*cand, *reff) == m as nat + matching_from(
                cand.keys@,
                cand.counts@,
                reff.keys@,
                reff.counts@,
                i as int,
            ),
            m as nat + sum_from(reff.counts@, i as int) <= sum_from(reff.counts@, 0),
        decreases reff.keys@.len() - i,
    {
        let rc = reff.counts[i];
        let cc = cand.get_count(&reff.keys[i]);
        let add = if rc <= cc {
            rc
        } else {
            cc
        };
        m = m + add;
        i += 1;
    }
    m
}

/// Whether two grams hold the same symbols.
fn grams_equal(a: &Vec<char>, b: &Vec<char>) -> (r: bool)
    ensures
        r == (a@ == b@),
{
    if a.len() != b.len() {
        return false;
    }
    let mut i: usize = 0;
    while i < a.len()
        invariant
            i <= a@.len(),
            a@.len() == b@.len(),
            forall|l: int| 0 <= l < i ==> a@[l] == b@[l],
        decreases a@.len() - i,
    {
        if a[i] != b[i] {
            return false;
        }
        i += 1;
    }
    proof {
        assert(a@ =~= b@);
    }
    true
}

} // verus!
