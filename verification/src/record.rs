//! A parsed FASTQ record and the quality-aware cleaning operations on it.

use vstd::prelude::*;

use crate::bytes::copy_range;
use crate::bytes::trim_space_ends;
use crate::bytes::trim_spaces;

verus! {

/// One FASTQ record: the identifier line (with its leading sentinel and
/// line terminator, as read), the nucleotide sequence and the
/// quality-score string, both with all whitespace removed by the parser.
#[derive(Debug, Clone, PartialEq, Eq)]
pub struct Record {
    pub id: Vec<u8>,
    pub sequence: Vec<u8>,
    pub quality: Vec<u8>,
}

/// Cleaning configuration, read-only for the cleaner: minimum mean
/// quality score, minimum sequence length, and the score below which a
/// base counts as low-quality for masking and trimming.  Every
/// recognized threshold is a field, so a missing threshold cannot arise
/// after construction.
#[derive(Debug, Clone, PartialEq, Eq)]
pub struct Thresholds {
    pub min_avg_qual: u32,
    pub min_length: usize,
    pub min_trim_qual: u32,
}

impl Default for Thresholds {
    /// The stock configuration: mean quality at least 20, length at
    /// least 100, and bases under score 20 trimmed or masked.
    fn default() -> (t: Self)
        ensures
            t.min_avg_qual == 20,
            t.min_length == 100,
            t.min_trim_qual == 20,
    {
        Thresholds { min_avg_qual: 20, min_length: 100, min_trim_qual: 20 }
    }
}

/// A quality byte whose Phred score (character code minus 33) is below
/// `min`.
pub open spec fn low_qual(q: u8, min: u32) -> bool {
    (q as int) - 33 < min as int
}

/// A position the masking pass rewrites: an ambiguity code (`N`/`n`) or
/// a quality score below `min`.
pub open spec fn low_at(sq: Seq<u8>, ql: Seq<u8>, min: u32, i: int) -> bool {
    sq[i] == 78 || sq[i] == 110 || low_qual(ql[i], min)
}

/// The sequence after masking: `N` at every rewritten position.
pub open spec fn masked_sequence(sq: Seq<u8>, ql: Seq<u8>, min: u32) -> Seq<u8> {
    Seq::new(
        sq.len(),
        |i: int|
            if low_at(sq, ql, min, i) {
                78u8
            } else {
                sq[i]
            },
    )
}

/// The quality after masking: the zero-score character at every
/// rewritten position.
pub open spec fn masked_quality(sq: Seq<u8>, ql: Seq<u8>, min: u32) -> Seq<u8> {
    Seq::new(
        ql.len(),
        |i: int|
            if low_at(sq, ql, min, i) {
                33u8
            } else {
                ql[i]
            },
    )
}

/// The number of leading low-quality positions of a quality string.
pub open spec fn head_low(ql: Seq<u8>, min: u32) -> int
    decreases ql.len(),
{
    if ql.len() > 0 && low_qual(ql[0], min) {
        1 + head_low(ql.drop_first(), min)
    } else {
        0
    }
}

/// The number of trailing low-quality positions of a quality string.
pub open spec fn tail_low(ql: Seq<u8>, min: u32) -> int
    decreases ql.len(),
{
    if ql.len() > 0 && low_qual(ql.last(), min) {
        1 + tail_low(ql.drop_last(), min)
    } else {
        0
    }
}

/// A parallel string after end-trimming: both offsets are computed
/// against the one untrimmed quality, then the single slice between them
/// is applied.  When the two runs meet or cross, the result is empty.
pub open spec fn end_trimmed(s: Seq<u8>, ql: Seq<u8>, min: u32) -> Seq<u8> {
    if head_low(ql, min) < ql.len() - tail_low(ql, min) {
        s.subrange(head_low(ql, min), ql.len() - tail_low(ql, min))
    } else {
        Seq::empty()
    }
}

/// Where the leading low-quality run ends: everything before is low,
/// and the first kept position, if any, is not.
pub proof fn lemma_head_low(ql: Seq<u8>, min: u32)
    ensures
        0 <= head_low(ql, min) <= ql.len(),
        forall|j: int| 0 <= j < head_low(ql, min) ==> low_qual(#[trigger] ql[j], min),
        head_low(ql, min) < ql.len() ==> !low_qual(ql[head_low(ql, min)], min),
    decreases ql.len(),
{
    if ql.len() > 0 && low_qual(ql[0], min) {
        lemma_head_low(ql.drop_first(), min);
        assert forall|j: int| 0 <= j < head_low(ql, min) implies low_qual(ql[j], min) by {
            if j > 0 {
                assert(ql[j] == ql.drop_first()[j - 1]);
            }
        }
        if head_low(ql, min) < ql.len() {
            assert(ql[head_low(ql, min)] == ql.drop_first()[head_low(ql.drop_first(), min)]);
        }
    }
}

/// Where the trailing low-quality run begins: everything from there on
/// is low, and the last kept position, if any, is not.
pub proof fn lemma_tail_low(ql: Seq<u8>, min: u32)
    ensures
        0 <= tail_low(ql, min) <= ql.len(),
        forall|j: int| ql.len() - tail_low(ql, min) <= j < ql.len() ==> low_qual(
            #[trigger] ql[j],
            min,
        ),
        tail_low(ql, min) < ql.len() ==> !low_qual(ql[ql.len() - tail_low(ql, min) - 1], min),
    decreases ql.len(),
{
    if ql.len() > 0 && low_qual(ql.last(), min) {
        lemma_tail_low(ql.drop_last(), min);
        assert forall|j: int| ql.len() - tail_low(ql, min) <= j < ql.len() implies low_qual(
            ql[j],
            min,
        ) by {
            if j < ql.len() - 1 {
                assert(ql[j] == ql.drop_last()[j]);
            }
        }
    }
}

/// The sum of the Phred scores (character code minus 33) of a quality
/// string.
pub open spec fn score_total(ql: Seq<u8>) -> int
    decreases ql.len(),
{
    if ql.len() == 0 {
        0
    } else {
        score_total(ql.drop_last()) + ql.last() - 33
    }
}

/// The quality rule: at least `min_length` long, and mean score at
/// least `min_avg_qual`.  An empty record fails the length check, so the
/// mean is never formed over zero positions.
pub open spec fn spec_high_quality(sq: Seq<u8>, ql: Seq<u8>, t: Thresholds) -> bool {
    sq.len() >= t.min_length && sq.len() > 0 && score_total(ql) >= t.min_avg_qual * ql.len()
}

/// The canonical four-line form: `@id`, sequence, a bare `+`, quality —
/// with the sentinel re-added when the identifier lacks it, and each
/// field stripped of surrounding (not internal) whitespace.
pub open spec fn spec_serialize(id: Seq<u8>, sq: Seq<u8>, ql: Seq<u8>) -> Seq<u8> {
    let sentinel: Seq<u8> = if id.len() > 0 && id[0] == 64 {
        Seq::empty()
    } else {
        seq![64u8]
    };
    sentinel + trim_spaces(id) + seq![10u8] + trim_spaces(sq) + seq![10u8, 43u8, 10u8]
        + trim_spaces(ql)
}

/// An identifier with a single leading `@` sentinel removed, if present.
pub open spec fn spec_sanitize_id(s: Seq<u8>) -> Seq<u8> {
    if s.len() > 0 && s[0] == 64 {
        s.drop_first()
    } else {
        s
    }
}

impl Record {
    /// Both parallel strings have the same length, so that a position in
    /// one indexes the other.
    pub open spec fn paired(self) -> bool {
        self.sequence@.len() == self.quality@.len()
    }

    /// Build a record from its three fields, sanitizing the identifier.
    pub fn new(id: &Vec<u8>, sequence: &Vec<u8>, quality: &Vec<u8>) -> (r: Record)
        ensures
            r.id@ == spec_sanitize_id(id@),
            r.sequence@ == sequence@,
            r.quality@ == quality@,
    {
        Record {
            id: Record::sanitize_id(id),
            sequence: copy_all(sequence),
            quality: copy_all(quality),
        }
    }

    /// Remove a single leading `@` sentinel if present; otherwise return
    /// the identifier unchanged.
    pub fn sanitize_id(id: &Vec<u8>) -> (r: Vec<u8>)
        ensures
            r@ == spec_sanitize_id(id@),
    {
        if id.len() > 0 && id[0] == 64 {
            let r = copy_range(id, 1, id.len());
            proof {
                assert(id@.subrange(1, id@.len() as int) =~= id@.drop_first());
            }
            r
        } else {
            copy_all(id)
        }
    }

    /// Mask ambiguity: at every position whose base is an ambiguity code
    /// (`N`/`n`) or whose quality score is below `min_trim_qual`, set the
    /// base to `N` and the quality to the zero-score character.  The
    /// positions are found in a first pass over the untouched strings
    /// and rewritten in a second, so no decision ever reads an
    /// already-rewritten position.
    ///
    /// The cleaning pipeline order is `lower_ambiguity_q`, then `trim`,
    /// then `is_high_quality`: masking can create new low-quality runs
    /// at the ends, which trimming then removes, and the verdict judges the
    /// final form.
    pub fn lower_ambiguity_q(&mut self, thresholds: &Thresholds)
        requires
            old(self).paired(),
        ensures
            final(self).id@ == old(self).id@,
            final(self).sequence@ == masked_sequence(
                old(self).sequence@,
                old(self).quality@,
                thresholds.min_trim_qual,
            ),
            final(self).quality@ == masked_quality(
                old(self).sequence@,
                old(self).quality@,
                thresholds.min_trim_qual,
            ),
            final(self).paired(),
    {
        let min = thresholds.min_trim_qual;
        let n = self.sequence.len();
        let mut mask: Vec<bool> = Vec::new();
        let mut i: usize = 0;
        while i < n
            invariant
                i <= n,
                n == self.sequence@.len(),
                self.sequence@ == old(self).sequence@,
                self.quality@ == old(self).quality@,
                self.id@ == old(self).id@,
                old(self).paired(),
                mask@.len() == i as int,
                forall|j: int|
                    0 <= j < i ==> mask@[j] == low_at(self.sequence@, self.quality@, min, j),
            decreases n - i,
        {
            let b = self.sequence[i];
            let low = b == 78 || b == 110 || (self.quality[i] as u64) < 33 + (min as u64);
            mask.push(low);
            i = i + 1;
        }
        let ghost msq = masked_sequence(self.sequence@, self.quality@, min);
        let ghost mql = masked_quality(self.sequence@, self.quality@, min);
        let mut new_sq: Vec<u8> = Vec::new();
        let mut new_ql: Vec<u8> = Vec::new();
        let mut i: usize = 0;
        while i < n
            invariant
                i <= n,
                n == self.sequence@.len(),
                self.sequence@ == old(self).sequence@,
                self.quality@ == old(self).quality@,
                self.id@ == old(self).id@,
                old(self).paired(),
                mask@.len() == n as int,
                forall|j: int|
                    0 <= j < n ==> mask@[j] == low_at(self.sequence@, self.quality@, min, j),
                msq == masked_sequence(self.sequence@, self.quality@, min),
                mql == masked_quality(self.sequence@, self.quality@, min),
                new_sq@.len() == i as int,
                new_ql@.len() == i as int,
                forall|j: int| 0 <= j < i ==> new_sq@[j] == msq[j],
                forall|j: int| 0 <= j < i ==> new_ql@[j] == mql[j],
            decreases n - i,
        {
            if mask[i] {
                new_sq.push(78);
                new_ql.push(33);
            } else {
                new_sq.push(self.sequence[i]);
                new_ql.push(self.quality[i]);
            }
            i = i + 1;
        }
        proof {
            assert(new_sq@ =~= msq);
            assert(new_ql@ =~= mql);
        }
        self.sequence = new_sq;
        self.quality = new_ql;
    }

    /// Trim contiguous low-quality runs from both ends.  Both offsets
    /// are computed against the original untrimmed quality — the second
    /// scan is not re-based on the first — and one slice is then applied
    /// to sequence and quality alike, keeping them parallel.  When the
    /// runs meet or cross, the result is empty: a valid outcome, not an
    /// error.
    pub fn trim(&mut self, thresholds: &Thresholds)
        requires
            old(self).paired(),
        ensures
            final(self).id@ == old(self).id@,
            final(self).sequence@ == end_trimmed(
                old(self).sequence@,
                old(self).quality@,
                thresholds.min_trim_qual,
            ),
            final(self).quality@ == end_trimmed(
                old(self).quality@,
                old(self).quality@,
                thresholds.min_trim_qual,
            ),
            final(self).paired(),
    {
        let min = thresholds.min_trim_qual;
        let n = self.quality.len();
        let ghost ql = self.quality@;
        proof {
            lemma_head_low(ql, min);
            lemma_tail_low(ql, min);
        }
        let mut lo: usize = 0;
        while lo < n && (self.quality[lo] as u64) < 33 + (min as u64)
            invariant
                0 <= lo <= n,
                n == ql.len(),
                ql == self.quality@,
                forall|j: int| 0 <= j < lo ==> low_qual(#[trigger] ql[j], min),
            decreases n - lo,
        {
            lo = lo + 1;
        }
        proof {
            let c = head_low(ql, min);
            if (lo as int) < c {
                assert(low_qual(ql[lo as int], min));
                assert(false);
            }
            if c < lo as int {
                assert(low_qual(ql[c], min));
                assert(false);
            }
        }
        let mut hi: usize = n;
        while hi > 0 && (self.quality[hi - 1] as u64) < 33 + (min as u64)
            invariant
                0 <= hi <= n,
                n == ql.len(),
                ql == self.quality@,
                forall|j: int| hi <= j < n ==> low_qual(#[trigger] ql[j], min),
            decreases hi,
        {
            hi = hi - 1;
        }
        proof {
            let t = ql.len() - tail_low(ql, min);
            if (hi as int) < t {
                assert(low_qual(ql[t - 1], min));
                assert(false);
            }
            if t < hi as int {
                assert(low_qual(ql[hi - 1], min));
                assert(false);
            }
        }
        if lo < hi {
            let ns = copy_range(&self.sequence, lo, hi);
            let nq = copy_range(&self.quality, lo, hi);
            self.sequence = ns;
            self.quality = nq;
        } else {
            self.sequence = Vec::new();
            self.quality = Vec::new();
        }
    }

    /// The pass/fail quality rule: fail when the sequence is shorter
    /// than `min_length` (an empty record always fails here, so no mean
    /// is ever formed over zero positions), otherwise fail when the mean
    /// score over the current — possibly masked and trimmed — quality is
    /// below `min_avg_qual`; otherwise pass.
    pub fn is_high_quality(&self, thresholds: &Thresholds) -> (r: bool)
        requires
            self.paired(),
        ensures
            r == spec_high_quality(self.sequence@, self.quality@, *thresholds),
    {
        let n = self.sequence.len();
        if n < thresholds.min_length || n == 0 {
            return false;
        }
        let mut total: u128 = 0;
        let mut i: usize = 0;
        while i < n
            invariant
                i <= n,
                n == self.quality@.len(),
                total == score_total(self.quality@.take(i as int)) + 33 * (i as int),
                total <= 255 * (i as int),
            decreases n - i,
        {
            total = total + (self.quality[i] as u128);
            i = i + 1;
            proof {
                assert(self.quality@.take(i as int).drop_last() =~= self.quality@.take(i - 1));
                assert(self.quality@.take(i as int).last() == self.quality@[i - 1]);
            }
        }
        proof {
            assert(self.quality@.take(n as int) =~= self.quality@);
        }
        let m = thresholds.min_avg_qual;
        proof {
            assert((m as int + 33) * (n as int) <= 0x2_0000_0000 * 0x1_0000_0000_0000_0000
                && (m as int + 33) * (n as int) == m as int * (n as int) + 33 * (n as int))
                by (nonlinear_arith)
                requires
                    0 <= m as int + 33 <= 0x2_0000_0000,
                    0 <= n as int <= 0x1_0000_0000_0000_0000,
            ;
        }
        let need = (m as u128 + 33) * (n as u128);
        total >= need
    }

    /// The canonical four-line serialization: `@id`, sequence, a bare
    /// `+`, quality — the sentinel re-added when the identifier lacks
    /// it, each field stripped of surrounding whitespace, no trailing
    /// line terminator.
    pub fn serialize(&self) -> (r: Vec<u8>)
        ensures
            r@ == spec_serialize(self.id@, self.sequence@, self.quality@),
    {
        let mut out: Vec<u8> = Vec::new();
        if !(self.id.len() > 0 && self.id[0] == 64) {
            out.push(64);
        }
        let mut part = trim_space_ends(&self.id);
        out.append(&mut part);
        out.push(10);
        let mut part2 = trim_space_ends(&self.sequence);
        out.append(&mut part2);
        out.push(10);
        out.push(43);
        out.push(10);
        let mut part3 = trim_space_ends(&self.quality);
        out.append(&mut part3);
        proof {
            assert(out@ =~= spec_serialize(self.id@, self.sequence@, self.quality@));
        }
        out
    }
}

/// End-trimming is idempotent: the positions a first pass keeps already
/// meet the threshold at both ends, so a second pass removes nothing.
pub proof fn lemma_trim_idempotent(sq: Seq<u8>, ql: Seq<u8>, min: u32)
    requires
        sq.len() == ql.len(),
    ensures
        end_trimmed(end_trimmed(sq, ql, min), end_trimmed(ql, ql, min), min) == end_trimmed(
            sq,
            ql,
            min,
        ),
        end_trimmed(end_trimmed(ql, ql, min), end_trimmed(ql, ql, min), min) == end_trimmed(
            ql,
            ql,
            min,
        ),
{
    lemma_head_low(ql, min);
    lemma_tail_low(ql, min);
    let lo = head_low(ql, min);
    let hi = ql.len() - tail_low(ql, min);
    if lo < hi {
        let q2 = ql.subrange(lo, hi);
        let s2 = sq.subrange(lo, hi);
        assert(!low_qual(q2[0], min));
        assert(!low_qual(q2[q2.len() - 1], min));
        assert(head_low(q2, min) == 0);
        assert(tail_low(q2, min) == 0);
        assert(end_trimmed(s2, q2, min) =~= s2);
        assert(end_trimmed(q2, q2, min) =~= q2);
    } else {
        assert(head_low(Seq::<u8>::empty(), min) == 0);
        assert(tail_low(Seq::<u8>::empty(), min) == 0);
    }
}

/// Copy a whole byte vector.
fn copy_all(v: &Vec<u8>) -> (r: Vec<u8>)
    ensures
        r@ == v@,
{
    let r = copy_range(v, 0, v.len());
    proof {
        assert(v@.subrange(0, v@.len() as int) =~= v@);
    }
    r
}

/// Sanitizing is idempotent as long as the identifier does not begin
/// with a doubled sentinel: once the single leading `@` is gone, nothing
/// further is removed.
pub proof fn lemma_sanitize_id_idempotent(id: Seq<u8>)
    requires
        !(id.len() >= 2 && id[0] == 64 && id[1] == 64),
    ensures
        spec_sanitize_id(spec_sanitize_id(id)) == spec_sanitize_id(id),
{
}

} // verus!
