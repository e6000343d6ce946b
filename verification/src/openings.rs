use crate::error::StoreError;
use crate::hexcode::{hex_encode, hex_of};
use vstd::prelude::*;

verus! {

// The opening book aggregates per-(position, move) outcome counters. A
// batch of observations is merged as one all-or-nothing operation:
// absent keys are created with the observed counters, present keys have
// their counters incremented, and duplicate keys within one batch sum
// their contributions. Counters only ever grow.

/// One opening observation, and equally one stored opening row: a
/// position hash, a raw move byte sequence, and the three outcome
/// counters. As a batch entry the counters are the increments to apply;
/// as a row they are the running totals.
pub struct Opening {
    pub hash: u64,
    pub mov: Vec<u8>,
    pub white: u64,
    pub black: u64,
    pub draw: u64,
}

/// The aggregation key of an observation or row.
pub open spec fn okey(o: Opening) -> (u64, Seq<u8>) {
    (o.hash, o.mov@)
}

/// Unbounded outcome counters, the mathematical value of a row.
pub struct Counts {
    pub white: int,
    pub black: int,
    pub draw: int,
}

pub open spec fn zero_counts() -> Counts {
    Counts { white: 0, black: 0, draw: 0 }
}

pub open spec fn counts_of(o: Opening) -> Counts {
    Counts { white: o.white as int, black: o.black as int, draw: o.draw as int }
}

pub open spec fn add_counts(a: Counts, b: Counts) -> Counts {
    Counts { white: a.white + b.white, black: a.black + b.black, draw: a.draw + b.draw }
}

/// Componentwise order on counters.
pub open spec fn counts_le(a: Counts, b: Counts) -> bool {
    a.white <= b.white && a.black <= b.black && a.draw <= b.draw
}

/// Do all three counters fit the store's counter width?
pub open spec fn counts_fit(c: Counts) -> bool {
    c.white <= u64::MAX && c.black <= u64::MAX && c.draw <= u64::MAX
}

/// Does some entry of `batch` carry the key `k`?
pub open spec fn batch_has_key(batch: Seq<Opening>, k: (u64, Seq<u8>)) -> bool {
    exists|i: int| 0 <= i < batch.len() && okey(batch[i]) == k
}

/// The summed contribution of `batch` to the key `k`; zero when no entry
/// carries `k`. Duplicate keys within the batch sum, never overwrite.
pub open spec fn batch_total(batch: Seq<Opening>, k: (u64, Seq<u8>)) -> Counts
    decreases batch.len(),
{
    if batch.len() == 0 {
        zero_counts()
    } else {
        let rest = batch_total(batch.drop_last(), k);
        if okey(batch.last()) == k {
            add_counts(rest, counts_of(batch.last()))
        } else {
            rest
        }
    }
}

/// Keys never repeat among stored rows.
pub open spec fn keys_unique(rows: Seq<Opening>) -> bool {
    forall|i: int, j: int| 0 <= i < j < rows.len() ==> okey(rows[i]) != okey(rows[j])
}

/// The counters held for `k` in a statistics map, zero when absent.
pub open spec fn stats_of(m: Map<(u64, Seq<u8>), Counts>, k: (u64, Seq<u8>)) -> Counts {
    if m.dom().contains(k) {
        m[k]
    } else {
        zero_counts()
    }
}

/// The merge transition on the statistics map: every key observed by the
/// batch ends at its old counters (zero when the row did not exist) plus
/// the batch's summed contribution; every other key is untouched.
pub open spec fn merge_spec(
    m: Map<(u64, Seq<u8>), Counts>,
    batch: Seq<Opening>,
) -> Map<(u64, Seq<u8>), Counts> {
    Map::new(
        |k: (u64, Seq<u8>)| m.dom().contains(k) || batch_has_key(batch, k),
        |k: (u64, Seq<u8>)| add_counts(stats_of(m, k), batch_total(batch, k)),
    )
}

/// Does every key of the batch end at counters that fit the store's
/// counter width?
pub open spec fn merge_fits(m: Map<(u64, Seq<u8>), Counts>, batch: Seq<Opening>) -> bool {
    forall|k: (u64, Seq<u8>)|
        batch_has_key(batch, k) ==> counts_fit(
            add_counts(stats_of(m, k), #[trigger] batch_total(batch, k)),
        )
}

proof fn lemma_total_absent(batch: Seq<Opening>, k: (u64, Seq<u8>))
    requires
        !batch_has_key(batch, k),
    ensures
        batch_total(batch, k) == zero_counts(),
    decreases batch.len(),
{
    if batch.len() > 0 {
        assert(!batch_has_key(batch.drop_last(), k)) by {
            assert(forall|i: int|
                0 <= i < batch.len() - 1 ==> batch.drop_last()[i] == batch[i]);
        }
        lemma_total_absent(batch.drop_last(), k);
        assert(okey(batch.last()) != k) by {
            assert(batch[batch.len() - 1] == batch.last());
        }
    }
}

proof fn lemma_total_nonneg(batch: Seq<Opening>, k: (u64, Seq<u8>))
    ensures
        counts_le(zero_counts(), batch_total(batch, k)),
    decreases batch.len(),
{
    if batch.len() > 0 {
        lemma_total_nonneg(batch.drop_last(), k);
    }
}

proof fn lemma_total_single(rows: Seq<Opening>, j: int, k: (u64, Seq<u8>))
    requires
        keys_unique(rows),
        0 <= j < rows.len(),
        okey(rows[j]) == k,
    ensures
        batch_total(rows, k) == counts_of(rows[j]),
    decreases rows.len(),
{
    if j == rows.len() - 1 {
        assert(!batch_has_key(rows.drop_last(), k)) by {
            assert(forall|i: int| 0 <= i < rows.len() - 1 ==> rows.drop_last()[i] == rows[i]);
        }
        lemma_total_absent(rows.drop_last(), k);
    } else {
        assert(okey(rows.last()) != k) by {
            assert(rows[rows.len() - 1] == rows.last());
        }
        assert(keys_unique(rows.drop_last())) by {
            assert(forall|i: int| 0 <= i < rows.len() - 1 ==> rows.drop_last()[i] == rows[i]);
        }
        assert(rows.drop_last()[j] == rows[j]);
        lemma_total_single(rows.drop_last(), j, k);
    }
}

proof fn lemma_total_update_other(rows: Seq<Opening>, j: int, r2: Opening, k: (u64, Seq<u8>))
    requires
        0 <= j < rows.len(),
        okey(r2) == okey(rows[j]),
        k != okey(rows[j]),
    ensures
        batch_total(rows.update(j, r2), k) == batch_total(rows, k),
    decreases rows.len(),
{
    let u = rows.update(j, r2);
    if j == rows.len() - 1 {
        assert(u.drop_last() =~= rows.drop_last());
        assert(u.last() == r2);
        assert(rows.last() == rows[j]);
    } else {
        assert(u.drop_last() =~= rows.drop_last().update(j, r2));
        assert(u.last() == rows.last());
        assert(rows.drop_last()[j] == rows[j]);
        lemma_total_update_other(rows.drop_last(), j, r2, k);
    }
}

/// Batch contributions are summed over concatenation, key by key.
pub proof fn lemma_total_concat(a: Seq<Opening>, b: Seq<Opening>, k: (u64, Seq<u8>))
    ensures
        batch_total(a + b, k) == add_counts(batch_total(a, k), batch_total(b, k)),
    decreases b.len(),
{
    if b.len() == 0 {
        assert(a + b =~= a);
    } else {
        assert((a + b).drop_last() =~= a + b.drop_last());
        assert((a + b).last() == b.last()) by {
            assert((a + b)[a.len() + b.len() - 1] == b[b.len() - 1]);
        }
        lemma_total_concat(a, b.drop_last(), k);
    }
}

proof fn lemma_has_key_concat(a: Seq<Opening>, b: Seq<Opening>, k: (u64, Seq<u8>))
    ensures
        batch_has_key(a + b, k) <==> (batch_has_key(a, k) || batch_has_key(b, k)),
{
    if batch_has_key(a + b, k) {
        let i = choose|i: int| 0 <= i < (a + b).len() && okey((a + b)[i]) == k;
        if i < a.len() {
            assert(a[i] == (a + b)[i]);
            assert(batch_has_key(a, k));
        } else {
            assert(b[i - a.len()] == (a + b)[i]);
            assert(batch_has_key(b, k));
        }
    }
    if batch_has_key(a, k) {
        let i = choose|i: int| 0 <= i < a.len() && okey(a[i]) == k;
        assert((a + b)[i] == a[i]);
        assert(batch_has_key(a + b, k));
    }
    if batch_has_key(b, k) {
        let i = choose|i: int| 0 <= i < b.len() && okey(b[i]) == k;
        assert((a + b)[a.len() + i] == b[i]);
        assert(batch_has_key(a + b, k));
    }
}

/// Merging two batches one after the other is one merge of the
/// concatenated batch.
pub proof fn lemma_merge_sequential(
    m: Map<(u64, Seq<u8>), Counts>,
    a: Seq<Opening>,
    b: Seq<Opening>,
)
    ensures
        merge_spec(merge_spec(m, a), b) == merge_spec(m, a + b),
{
    let m1 = merge_spec(m, a);
    let l = merge_spec(m1, b);
    let r = merge_spec(m, a + b);
    assert forall|k: (u64, Seq<u8>)| l.dom().contains(k) <==> r.dom().contains(k) by {
        lemma_has_key_concat(a, b, k);
    }
    assert forall|k: (u64, Seq<u8>)| #[trigger] l.dom().contains(k) implies l[k] == r[k] by {
        lemma_has_key_concat(a, b, k);
        lemma_total_concat(a, b, k);
        if m1.dom().contains(k) {
            assert(m1[k] == add_counts(stats_of(m, k), batch_total(a, k)));
        } else {
            assert(!batch_has_key(a, k));
            lemma_total_absent(a, k);
        }
    }
    assert(l =~= r);
}

/// Counters are monotonically non-decreasing: a merge only ever adds
/// observations. Every key in the book stays in it, with counters at
/// least as large as before.
pub proof fn lemma_merge_monotonic(m: Map<(u64, Seq<u8>), Counts>, batch: Seq<Opening>)
    ensures
        forall|k: (u64, Seq<u8>)| #![auto]
            m.dom().contains(k) ==> merge_spec(m, batch).dom().contains(k) && counts_le(
                m[k],
                merge_spec(m, batch)[k],
            ),
{
    assert forall|k: (u64, Seq<u8>)| #![auto] m.dom().contains(k) implies merge_spec(
        m,
        batch,
    ).dom().contains(k) && counts_le(m[k], merge_spec(m, batch)[k]) by {
        lemma_total_nonneg(batch, k);
    }
}

/// Two batches merged in either order land at the same statistics:
/// counter merging is commutative, whatever keys the batches share.
pub proof fn lemma_merge_commutes(
    m: Map<(u64, Seq<u8>), Counts>,
    a: Seq<Opening>,
    b: Seq<Opening>,
)
    ensures
        merge_spec(merge_spec(m, a), b) == merge_spec(merge_spec(m, b), a),
{
    lemma_merge_sequential(m, a, b);
    lemma_merge_sequential(m, b, a);
    let ab = merge_spec(m, a + b);
    let ba = merge_spec(m, b + a);
    assert forall|k: (u64, Seq<u8>)| ab.dom().contains(k) <==> ba.dom().contains(k) by {
        lemma_has_key_concat(a, b, k);
        lemma_has_key_concat(b, a, k);
    }
    assert forall|k: (u64, Seq<u8>)| #[trigger] ab.dom().contains(k) implies ab[k] == ba[k] by {
        lemma_total_concat(a, b, k);
        lemma_total_concat(b, a, k);
    }
    assert(ab =~= ba);
}

proof fn lemma_has_key_take_step(b: Seq<Opening>, idx: int, k: (u64, Seq<u8>))
    requires
        0 <= idx < b.len(),
    ensures
        batch_has_key(b.take(idx + 1), k) <==> (batch_has_key(b.take(idx), k) || okey(b[idx])
            == k),
{
    if batch_has_key(b.take(idx + 1), k) {
        let i = choose|i: int| 0 <= i < idx + 1 && okey(#[trigger] b.take(idx + 1)[i]) == k;
        if i < idx {
            assert(b.take(idx)[i] == b.take(idx + 1)[i]);
        } else {
            assert(b.take(idx + 1)[idx] == b[idx]);
        }
    }
    if batch_has_key(b.take(idx), k) {
        let i = choose|i: int| 0 <= i < idx && okey(#[trigger] b.take(idx)[i]) == k;
        assert(b.take(idx + 1)[i] == b.take(idx)[i]);
    }
    if okey(b[idx]) == k {
        assert(b.take(idx + 1)[idx] == b[idx]);
    }
}

proof fn lemma_total_take_step(b: Seq<Opening>, idx: int, k: (u64, Seq<u8>))
    requires
        0 <= idx < b.len(),
    ensures
        batch_total(b.take(idx + 1), k) == if okey(b[idx]) == k {
            add_counts(batch_total(b.take(idx), k), counts_of(b[idx]))
        } else {
            batch_total(b.take(idx), k)
        },
{
    assert(b.take(idx + 1).drop_last() =~= b.take(idx));
    assert(b.take(idx + 1).last() == b[idx]);
}

proof fn lemma_prefix_step_le(b: Seq<Opening>, idx: int, k: (u64, Seq<u8>))
    requires
        0 <= idx < b.len(),
        okey(b[idx]) == k,
    ensures
        counts_le(
            add_counts(batch_total(b.take(idx), k), counts_of(b[idx])),
            batch_total(b, k),
        ),
{
    lemma_total_take_step(b, idx, k);
    assert(b =~= b.take(idx + 1) + b.skip(idx + 1));
    lemma_total_concat(b.take(idx + 1), b.skip(idx + 1), k);
    lemma_total_nonneg(b.skip(idx + 1), k);
}

proof fn lemma_stats_total(t: OpeningTable, k: (u64, Seq<u8>))
    ensures
        stats_of(t.stats(), k) == batch_total(t.rows@, k),
{
    if !batch_has_key(t.rows@, k) {
        lemma_total_absent(t.rows@, k);
    }
}

/// Two entries for one key within a single batch sum their contributions;
/// neither overwrites the other.
pub proof fn lemma_duplicate_entries_sum(o1: Opening, o2: Opening)
    requires
        okey(o1) == okey(o2),
    ensures
        batch_total(seq![o1, o2], okey(o1)) == add_counts(counts_of(o1), counts_of(o2)),
{
    let s = seq![o1, o2];
    let k = okey(o1);
    assert(s.drop_last() =~= seq![o1]);
    assert(seq![o1].drop_last() =~= Seq::<Opening>::empty());
    assert(s.last() == o2);
    assert(seq![o1].last() == o1);
    assert(batch_total(Seq::<Opening>::empty(), k) == zero_counts());
    assert(batch_total(seq![o1], k) == add_counts(zero_counts(), counts_of(o1)));
    assert(batch_total(s, k) == add_counts(batch_total(seq![o1], k), counts_of(o2)));
}

fn clone_bytes(v: &Vec<u8>) -> (r: Vec<u8>)
    ensures
        r@ == v@,
{
    let mut r: Vec<u8> = Vec::new();
    let mut i: usize = 0;
    while i < v.len()
        invariant
            i <= v@.len(),
            r@ == v@.take(i as int),
        decreases v@.len() - i,
    {
        r.push(v[i]);
        proof {
            assert(v@.take(i + 1) =~= v@.take(i as int).push(v@[i as int]));
        }
        i += 1;
    }
    proof {
        assert(v@.take(v@.len() as int) =~= v@);
    }
    r
}

fn bytes_eq(a: &Vec<u8>, b: &Vec<u8>) -> (r: bool)
    ensures
        r == (a@ == b@),
{
    if a.len() != b.len() {
        return false;
    }
    let mut i: usize = 0;
    while i < a.len()
        invariant
            a@.len() == b@.len(),
            i <= a@.len(),
            forall|m: int| 0 <= m < i ==> a@[m] == b@[m],
        decreases a@.len() - i,
    {
        if a[i] != b[i] {
            return false;
        }
        i += 1;
    }
    proof {
        assert(a@ =~= b@);
    }
    true
}

fn find_opening(rows: &Vec<Opening>, hash: u64, mov: &Vec<u8>) -> (r: Option<usize>)
    ensures
        match r {
            Some(j) => j < rows@.len() && okey(rows@[j as int]) == (hash, mov@),
            None => !batch_has_key(rows@, (hash, mov@)),
        },
{
    let mut j: usize = 0;
    while j < rows.len()
        invariant
            j <= rows@.len(),
            forall|m: int| 0 <= m < j ==> okey(rows@[m]) != (hash, mov@),
        decreases rows@.len() - j,
    {
        if rows[j].hash == hash && bytes_eq(&rows[j].mov, mov) {
            return Some(j);
        }
        j += 1;
    }
    None
}

fn add_counters(w1: u64, b1: u64, d1: u64, w2: u64, b2: u64, d2: u64) -> (r: Option<
    (u64, u64, u64),
>)
    ensures
        match r {
            Some(c) => c.0 == w1 + w2 && c.1 == b1 + b2 && c.2 == d1 + d2,
            None => w1 + w2 > u64::MAX || b1 + b2 > u64::MAX || d1 + d2 > u64::MAX,
        },
{
    match (w1.checked_add(w2), b1.checked_add(b2), d1.checked_add(d2)) {
        (Some(w), Some(b), Some(d)) => Some((w, b, d)),
        _ => None,
    }
}

/// A batch entry with its move rendered for the store's textual statement
/// form: the raw move bytes become a lowercase hexadecimal blob literal,
/// which carries any byte content — embedded zero bytes and quote
/// characters included — without ambiguity.
pub struct EncodedOpening {
    pub hash: u64,
    pub mov_hex: String,
    pub white: u64,
    pub black: u64,
    pub draw: u64,
}

/// Renders every observation of a batch for the store's textual statement
/// form, entry for entry and in order.
pub fn encode_batch(batch: &Vec<Opening>) -> (r: Vec<EncodedOpening>)
    ensures
        r@.len() == batch@.len(),
        forall|i: int|
            0 <= i < batch@.len() ==> {
                let e = #[trigger] r@[i];
                &&& e.hash == batch@[i].hash
                &&& e.mov_hex@ == hex_of(batch@[i].mov@)
                &&& e.white == batch@[i].white
                &&& e.black == batch@[i].black
                &&& e.draw == batch@[i].draw
            },
{
    let mut r: Vec<EncodedOpening> = Vec::new();
    let mut i: usize = 0;
    while i < batch.len()
        invariant
            i <= batch@.len(),
            r@.len() == i,
            forall|m: int|
                0 <= m < i ==> {
                    let e = #[trigger] r@[m];
                    &&& e.hash == batch@[m].hash
                    &&& e.mov_hex@ == hex_of(batch@[m].mov@)
                    &&& e.white == batch@[m].white
                    &&& e.black == batch@[m].black
                    &&& e.draw == batch@[m].draw
                },
        decreases batch@.len() - i,
    {
        let mov_hex = hex_encode(&batch[i].mov);
        r.push(
            EncodedOpening {
                hash: batch[i].hash,
                mov_hex,
                white: batch[i].white,
                black: batch[i].black,
                draw: batch[i].draw,
            },
        );
        i += 1;
    }
    r
}

/// The opening book: one row per (position hash, move) key, holding the
/// running outcome counters. Mutated only through `add_opening`, whose
/// merges never shrink a counter.
pub struct OpeningTable {
    pub rows: Vec<Opening>,
}

impl OpeningTable {
    /// Table invariant: at most one row per key.
    pub open spec fn wf(self) -> bool {
        keys_unique(self.rows@)
    }

    /// The statistics map the table holds: each stored key with its
    /// counters.
    pub open spec fn stats(self) -> Map<(u64, Seq<u8>), Counts> {
        Map::new(
            |k: (u64, Seq<u8>)| batch_has_key(self.rows@, k),
            |k: (u64, Seq<u8>)| batch_total(self.rows@, k),
        )
    }

    pub fn new() -> (t: OpeningTable)
        ensures
            t.wf(),
            t.stats() == Map::<(u64, Seq<u8>), Counts>::empty(),
    {
        let t = OpeningTable { rows: Vec::new() };
        proof {
            assert(t.stats() =~= Map::<(u64, Seq<u8>), Counts>::empty());
        }
        t
    }

    /// The counters stored for a key, `None` while no observation has
    /// created its row.
    pub fn opening_counts(&self, hash: u64, mov: &Vec<u8>) -> (r: Option<(u64, u64, u64)>)
        requires
            self.wf(),
        ensures
            match r {
                Some(c) => self.stats().dom().contains((hash, mov@)) && self.stats()[
                    (hash, mov@)
                ] == (Counts { white: c.0 as int, black: c.1 as int, draw: c.2 as int }),
                None => !self.stats().dom().contains((hash, mov@)),
            },
    {
        match find_opening(&self.rows, hash, mov) {
            Some(j) => {
                proof {
                    lemma_total_single(self.rows@, j as int, (hash, mov@));
                }
                Some((self.rows[j].white, self.rows[j].black, self.rows[j].draw))
            },
            None => None,
        }
    }

    /// Merges a batch of observations as one all-or-nothing operation:
    /// every key the batch observes ends at its previous counters (zero
    /// when the row did not exist) plus the batch's summed contribution —
    /// duplicate keys within the batch sum — and no other key is touched.
    /// When any counter would outgrow its width the store fails and not
    /// one row changes; the failure happens exactly in that case, so a
    /// merge succeeds if and only if every merged counter fits.
    #[verifier::loop_isolation(false)]
    pub fn add_opening(&mut self, openings: Vec<Opening>) -> (r: Result<(), StoreError>)
        requires
            old(self).wf(),
            openings@.len() > 0,
        ensures
            final(self).wf(),
            match r {
                Ok(()) => {
                    &&& final(self).stats() == merge_spec(old(self).stats(), openings@)
                    &&& merge_fits(old(self).stats(), openings@)
                },
                Err(e) => {
                    &&& *final(self) == *old(self)
                    &&& e == StoreError::StoreFailure
                    &&& !merge_fits(old(self).stats(), openings@)
                },
            },
    {
        let ghost b = openings@;
        let ghost m0 = old(self).stats();
        let ghost old_rows = old(self).rows@;

        // Fold the batch key by key, summing duplicate keys.
        let mut agg: Vec<Opening> = Vec::new();
        let mut idx: usize = 0;
        proof {
            assert(b.take(0) =~= Seq::<Opening>::empty());
        }
        while idx < openings.len()
            invariant
                idx <= b.len(),
                keys_unique(agg@),
                forall|k: (u64, Seq<u8>)| #![auto]
                    batch_has_key(agg@, k) <==> batch_has_key(b.take(idx as int), k),
                forall|k: (u64, Seq<u8>)| #![auto]
                    batch_total(agg@, k) == batch_total(b.take(idx as int), k),
            decreases b.len() - idx,
        {
            let ghost k = okey(b[idx as int]);
            let ghost agg0 = agg@;
            proof {
                lemma_has_key_take_step(b, idx as int, k);
                lemma_total_take_step(b, idx as int, k);
            }
            match find_opening(&agg, openings[idx].hash, &openings[idx].mov) {
                Some(j) => {
                    proof {
                        lemma_total_single(agg0, j as int, k);
                    }
                    let sums = match add_counters(
                        agg[j].white,
                        agg[j].black,
                        agg[j].draw,
                        openings[idx].white,
                        openings[idx].black,
                        openings[idx].draw,
                    ) {
                        Some(c) => c,
                        None => {
                            proof {
                                lemma_prefix_step_le(b, idx as int, k);
                                lemma_stats_total(*old(self), k);
                                lemma_total_nonneg(old_rows, k);
                                assert(batch_has_key(b, k));
                                assert(!counts_fit(
                                    add_counts(stats_of(m0, k), batch_total(b, k)),
                                ));
                            }
                            return Err(StoreError::StoreFailure);
                        },
                    };
                    let mv = clone_bytes(&agg[j].mov);
                    let hash = agg[j].hash;
                    agg[j] =
                    Opening { hash, mov: mv, white: sums.0, black: sums.1, draw: sums.2 };
                    proof {
                        let agg1 = agg@;
                        assert(okey(agg1[j as int]) == k);
                        assert(forall|t: int|
                            0 <= t < agg1.len() ==> okey(#[trigger] agg1[t]) == okey(agg0[t]));
                        assert(keys_unique(agg1));
                        lemma_total_single(agg1, j as int, k);
                        assert forall|k2: (u64, Seq<u8>)| k2 != k implies batch_total(agg1, k2)
                            == batch_total(agg0, k2) by {
                            lemma_total_update_other(agg0, j as int, agg1[j as int], k2);
                        }
                        assert forall|k2: (u64, Seq<u8>)| #![auto]
                            batch_has_key(agg1, k2) <==> batch_has_key(agg0, k2) by {
                            if batch_has_key(agg1, k2) {
                                let t = choose|t: int|
                                    0 <= t < agg1.len() && okey(agg1[t]) == k2;
                                assert(okey(agg0[t]) == k2);
                            }
                            if batch_has_key(agg0, k2) {
                                let t = choose|t: int|
                                    0 <= t < agg0.len() && okey(agg0[t]) == k2;
                                assert(okey(agg1[t]) == k2);
                            }
                        }
                        assert(batch_has_key(agg1, k));
                        assert(batch_total(agg1, k) == add_counts(
                            batch_total(agg0, k),
                            counts_of(b[idx as int]),
                        ));
                    }
                },
                None => {
                    let mv = clone_bytes(&openings[idx].mov);
                    let hash = openings[idx].hash;
                    let w = openings[idx].white;
                    let bl = openings[idx].black;
                    let d = openings[idx].draw;
                    agg.push(Opening { hash, mov: mv, white: w, black: bl, draw: d });
                    proof {
                        let agg1 = agg@;
                        assert(agg1.drop_last() =~= agg0);
                        assert(agg1.last() == agg1[agg0.len() as int]);
                        assert(okey(agg1.last()) == k);
                        assert(counts_of(agg1.last()) == counts_of(b[idx as int]));
                        assert(keys_unique(agg1)) by {
                            assert(forall|t: int|
                                0 <= t < agg0.len() ==> agg1[t] == agg0[t]);
                        }
                        lemma_total_absent(agg0, k);
                        assert forall|k2: (u64, Seq<u8>)| #![auto]
                            batch_has_key(agg1, k2) <==> (batch_has_key(agg0, k2) || k2
                                == k) by {
                            if batch_has_key(agg1, k2) {
                                let t = choose|t: int|
                                    0 <= t < agg1.len() && okey(agg1[t]) == k2;
                                if t < agg0.len() {
                                    assert(okey(agg0[t]) == k2);
                                }
                            }
                            if batch_has_key(agg0, k2) {
                                let t = choose|t: int|
                                    0 <= t < agg0.len() && okey(agg0[t]) == k2;
                                assert(okey(agg1[t]) == k2);
                            }
                        }
                        assert(batch_has_key(agg1, k));
                        assert(batch_total(agg1, k) == add_counts(
                            batch_total(agg0, k),
                            counts_of(b[idx as int]),
                        ));
                        assert forall|k2: (u64, Seq<u8>)| k2 != k implies batch_total(
                            agg1,
                            k2,
                        ) == batch_total(agg0, k2) by {
                            assert(agg1.drop_last() == agg0);
                        }
                    }
                },
            }
            proof {
                assert forall|k2: (u64, Seq<u8>)| #![auto]
                    batch_has_key(b.take(idx as int + 1), k2) <==> (batch_has_key(
                    b.take(idx as int),
                    k2,
                ) || okey(b[idx as int]) == k2) by {
                    lemma_has_key_take_step(b, idx as int, k2);
                }
                assert forall|k2: (u64, Seq<u8>)| #![auto]
                    batch_total(b.take(idx as int + 1), k2) == (if okey(b[idx as int]) == k2 {
                        add_counts(
                            batch_total(b.take(idx as int), k2),
                            counts_of(b[idx as int]),
                        )
                    } else {
                        batch_total(b.take(idx as int), k2)
                    }) by {
                    lemma_total_take_step(b, idx as int, k2);
                }
                assert forall|k2: (u64, Seq<u8>)| #![auto]
                    batch_total(agg@, k2) == batch_total(b.take(idx as int + 1), k2) by {
                    assert(batch_total(agg0, k2) == batch_total(b.take(idx as int), k2));
                    lemma_total_take_step(b, idx as int, k2);
                    if k2 == k {
                        assert(batch_total(agg@, k2) == add_counts(
                            batch_total(agg0, k2),
                            counts_of(b[idx as int]),
                        ));
                    } else {
                        assert(batch_total(agg@, k2) == batch_total(agg0, k2));
                    }
                }
                assert forall|k2: (u64, Seq<u8>)| #![auto]
                    batch_has_key(agg@, k2) <==> batch_has_key(b.take(idx as int + 1), k2) by {
                    assert(batch_has_key(agg0, k2) <==> batch_has_key(b.take(idx as int), k2));
                    lemma_has_key_take_step(b, idx as int, k2);
                }
            }
            idx += 1;
        }
        proof {
            assert(b.take(b.len() as int) =~= b);
        }

        // Check that every merged counter fits before touching any row.
        let mut i: usize = 0;
        while i < agg.len()
            invariant
                i <= agg@.len(),
                forall|m: int|
                    0 <= m < i ==> counts_fit(
                        add_counts(
                            stats_of(m0, okey(#[trigger] agg@[m])),
                            counts_of(agg@[m]),
                        ),
                    ),
            decreases agg@.len() - i,
        {
            let ghost k = okey(agg@[i as int]);
            proof {
                lemma_total_single(agg@, i as int, k);
                lemma_stats_total(*old(self), k);
                assert(batch_has_key(agg@, k));
                assert(batch_has_key(b, k));
            }
            match find_opening(&self.rows, agg[i].hash, &agg[i].mov) {
                Some(j) => {
                    proof {
                        lemma_total_single(old_rows, j as int, k);
                    }
                    match add_counters(
                        self.rows[j].white,
                        self.rows[j].black,
                        self.rows[j].draw,
                        agg[i].white,
                        agg[i].black,
                        agg[i].draw,
                    ) {
                        Some(_) => {},
                        None => {
                            proof {
                                assert(!counts_fit(
                                    add_counts(stats_of(m0, k), batch_total(b, k)),
                                ));
                            }
                            return Err(StoreError::StoreFailure);
                        },
                    }
                },
                None => {
                    proof {
                        lemma_total_absent(old_rows, k);
                    }
                },
            }
            i += 1;
        }
        proof {
            assert forall|k: (u64, Seq<u8>)| batch_has_key(b, k) implies counts_fit(
                add_counts(stats_of(m0, k), #[trigger] batch_total(b, k)),
            ) by {
                assert(batch_has_key(agg@, k));
                let m = choose|m: int| 0 <= m < agg@.len() && okey(agg@[m]) == k;
                lemma_total_single(agg@, m, k);
            }
            assert(merge_fits(m0, b));
            assert(agg@.take(0) =~= Seq::<Opening>::empty());
        }

        // Apply the merge row by row; every sum was just shown to fit.
        let mut i: usize = 0;
        while i < agg.len()
            invariant
                i <= agg@.len(),
                keys_unique(self.rows@),
                forall|k: (u64, Seq<u8>)| #![auto]
                    batch_has_key(agg@.take(i as int), k) ==> batch_has_key(self.rows@, k)
                        && batch_total(self.rows@, k) == add_counts(
                        batch_total(old_rows, k),
                        batch_total(agg@, k),
                    ),
                forall|k: (u64, Seq<u8>)| #![auto]
                    !batch_has_key(agg@.take(i as int), k) ==> ((batch_has_key(
                        self.rows@,
                        k,
                    ) <==> batch_has_key(old_rows, k)) && batch_total(self.rows@, k)
                        == batch_total(old_rows, k)),
            decreases agg@.len() - i,
        {
            let ghost k = okey(agg@[i as int]);
            let ghost rows0 = self.rows@;
            proof {
                assert(!batch_has_key(agg@.take(i as int), k)) by {
                    if batch_has_key(agg@.take(i as int), k) {
                        let m = choose|m: int|
                            0 <= m < i && okey(#[trigger] agg@.take(i as int)[m]) == k;
                        assert(okey(agg@[m]) == okey(agg@[i as int]));
                    }
                }
                assert(batch_has_key(agg@, k));
                assert(batch_has_key(b, k));
                lemma_total_single(agg@, i as int, k);
                lemma_stats_total(*old(self), k);
                assert(counts_fit(add_counts(stats_of(m0, k), batch_total(b, k))));
                lemma_has_key_take_step(agg@, i as int, k);
            }
            match find_opening(&self.rows, agg[i].hash, &agg[i].mov) {
                Some(j) => {
                    proof {
                        lemma_total_single(rows0, j as int, k);
                        assert(counts_of(rows0[j as int]) == batch_total(old_rows, k));
                        assert(self.rows@[j as int].white + agg@[i as int].white
                            <= u64::MAX);
                        assert(self.rows@[j as int].black + agg@[i as int].black
                            <= u64::MAX);
                        assert(self.rows@[j as int].draw + agg@[i as int].draw <= u64::MAX);
                    }
                    let w = self.rows[j].white + agg[i].white;
                    let bl = self.rows[j].black + agg[i].black;
                    let d = self.rows[j].draw + agg[i].draw;
                    let mv = clone_bytes(&self.rows[j].mov);
                    let hash = self.rows[j].hash;
                    self.rows[j] = Opening { hash, mov: mv, white: w, black: bl, draw: d };
                    proof {
                        let rows1 = self.rows@;
                        assert(okey(rows1[j as int]) == k);
                        assert(forall|t: int|
                            0 <= t < rows1.len() ==> okey(#[trigger] rows1[t]) == okey(
                                rows0[t],
                            ));
                        assert(keys_unique(rows1));
                        lemma_total_single(rows1, j as int, k);
                        assert(batch_total(rows1, k) == add_counts(
                            batch_total(old_rows, k),
                            batch_total(agg@, k),
                        ));
                        assert forall|k2: (u64, Seq<u8>)| k2 != k implies batch_total(
                            rows1,
                            k2,
                        ) == batch_total(rows0, k2) by {
                            lemma_total_update_other(rows0, j as int, rows1[j as int], k2);
                        }
                        assert forall|k2: (u64, Seq<u8>)| #![auto]
                            batch_has_key(rows1, k2) <==> batch_has_key(rows0, k2) by {
                            if batch_has_key(rows1, k2) {
                                let t = choose|t: int|
                                    0 <= t < rows1.len() && okey(rows1[t]) == k2;
                                assert(okey(rows0[t]) == k2);
                            }
                            if batch_has_key(rows0, k2) {
                                let t = choose|t: int|
                                    0 <= t < rows0.len() && okey(rows0[t]) == k2;
                                assert(okey(rows1[t]) == k2);
                            }
                        }
                    }
                },
                None => {
                    proof {
                        lemma_total_absent(rows0, k);
                        lemma_total_absent(old_rows, k);
                    }
                    let mv = clone_bytes(&agg[i].mov);
                    let hash = agg[i].hash;
                    let w = agg[i].white;
                    let bl = agg[i].black;
                    let d = agg[i].draw;
                    self.rows.push(Opening { hash, mov: mv, white: w, black: bl, draw: d });
                    proof {
                        let rows1 = self.rows@;
                        assert(rows1.drop_last() =~= rows0);
                        assert(rows1.last() == rows1[rows0.len() as int]);
                        assert(okey(rows1.last()) == k);
                        assert(counts_of(rows1.last()) == counts_of(agg@[i as int]));
                        assert(keys_unique(rows1)) by {
                            assert(forall|t: int|
                                0 <= t < rows0.len() ==> rows1[t] == rows0[t]);
                        }
                        assert(batch_total(rows1, k) == add_counts(
                            batch_total(old_rows, k),
                            batch_total(agg@, k),
                        ));
                        assert forall|k2: (u64, Seq<u8>)| #![auto]
                            k2 != k implies (batch_has_key(rows1, k2) <==> batch_has_key(
                            rows0,
                            k2,
                        )) && batch_total(rows1, k2) == batch_total(rows0, k2) by {
                            if batch_has_key(rows1, k2) {
                                let t = choose|t: int|
                                    0 <= t < rows1.len() && okey(rows1[t]) == k2;
                                assert(t < rows0.len());
                                assert(okey(rows0[t]) == k2);
                            }
                            if batch_has_key(rows0, k2) {
                                let t = choose|t: int|
                                    0 <= t < rows0.len() && okey(rows0[t]) == k2;
                                assert(okey(rows1[t]) == k2);
                            }
                        }
                    }
                },
            }
            proof {
                assert forall|k2: (u64, Seq<u8>)| #![auto]
                    batch_has_key(agg@.take(i as int + 1), k2) <==> (batch_has_key(
                    agg@.take(i as int),
                    k2,
                ) || okey(agg@[i as int]) == k2) by {
                    lemma_has_key_take_step(agg@, i as int, k2);
                }
            }
            i += 1;
        }
        proof {
            assert(agg@.take(agg@.len() as int) =~= agg@);
            let mfin = self.stats();
            let mgoal = merge_spec(m0, b);
            assert forall|k: (u64, Seq<u8>)|
                mfin.dom().contains(k) <==> mgoal.dom().contains(k) by {
                if !batch_has_key(agg@, k) {
                }
            }
            assert forall|k: (u64, Seq<u8>)| #[trigger] mfin.dom().contains(k) implies mfin[k]
                == mgoal[k] by {
                lemma_stats_total(*old(self), k);
                if !batch_has_key(agg@, k) {
                    lemma_total_absent(b, k);
                }
            }
            assert(mfin =~= mgoal);
        }
        Ok(())
    }
}

} // verus!
