//! The FASTQ record parser: framing of records out of an in-memory byte
//! stream, with multi-line wrapping, whitespace normalization and
//! detection of end-of-stream and truncated input.

use vstd::prelude::*;

use crate::bytes::copy_range;
use crate::bytes::is_space;
use crate::bytes::lemma_strip_no_space;
use crate::bytes::strip;
use crate::bytes::strip_whitespace;
use crate::record::Record;

verus! {

/// A record could not be framed: the stream ended mid-record, after the
/// named identifier line had been consumed.
#[derive(Debug, Clone, PartialEq, Eq)]
pub enum ParseError {
    TruncatedRecord { id: Vec<u8> },
}

/// A FASTQ reader over an in-memory byte stream.  The caller hands the
/// whole stream in at construction; the reader yields one record per
/// call, advancing a cursor.
pub struct Reader {
    input: Vec<u8>,
    pos: usize,
}

/// The index just past the line that starts at `pos`: one past the first
/// line feed at or after `pos`, or the end of the stream if none is left.
pub open spec fn line_end(s: Seq<u8>, pos: int) -> int
    decreases s.len() - pos when 0 <= pos <= s.len()
{
    if pos >= s.len() {
        pos
    } else if s[pos] == 10 {
        pos + 1
    } else {
        line_end(s, pos + 1)
    }
}

/// A line always makes progress and never runs past the stream.
pub proof fn lemma_line_end_bounds(s: Seq<u8>, pos: int)
    requires
        0 <= pos <= s.len(),
    ensures
        pos <= line_end(s, pos) <= s.len(),
        pos < s.len() ==> pos < line_end(s, pos),
    decreases s.len() - pos,
{
    if pos < s.len() && s[pos] != 10 {
        lemma_line_end_bounds(s, pos + 1);
    }
}

/// Raw sequence lines accumulated from `pos` until a line whose first
/// byte is `+` (the separator): the concatenated raw bytes and the
/// position just past the separator line, or nothing if the stream ends
/// before a separator is found.
pub open spec fn body_lines(s: Seq<u8>, pos: int) -> Option<(Seq<u8>, int)>
    decreases s.len() - pos,
    when 0 <= pos <= s.len()
    via body_lines_decreases
{
    if pos >= s.len() {
        None
    } else {
        let e = line_end(s, pos);
        if s[pos] == 43 {
            Some((Seq::empty(), e))
        } else {
            match body_lines(s, e) {
                None => None,
                Some((rest, p)) => Some((s.subrange(pos, e) + rest, p)),
            }
        }
    }
}

#[via_fn]
proof fn body_lines_decreases(s: Seq<u8>, pos: int) {
    if 0 <= pos < s.len() {
        lemma_line_end_bounds(s, pos);
    }
}

/// Whitespace-stripped quality lines accumulated from `pos` until their
/// cumulative length reaches `need`; at least one line is always read.
/// Yields the stripped bytes (possibly more than `need` of them) and the
/// position just past the last line read, or nothing if the stream ends
/// first.
pub open spec fn qual_lines(s: Seq<u8>, pos: int, need: int) -> Option<(Seq<u8>, int)>
    decreases s.len() - pos,
    when 0 <= pos <= s.len()
    via qual_lines_decreases
{
    if pos >= s.len() {
        None
    } else {
        let e = line_end(s, pos);
        let piece = strip(s.subrange(pos, e));
        if piece.len() >= need {
            Some((piece, e))
        } else {
            match qual_lines(s, e, need - piece.len()) {
                None => None,
                Some((rest, p)) => Some((piece + rest, p)),
            }
        }
    }
}

#[via_fn]
proof fn qual_lines_decreases(s: Seq<u8>, pos: int, need: int) {
    if 0 <= pos < s.len() {
        lemma_line_end_bounds(s, pos);
    }
}

/// What one careful parse step yields: clean end-of-stream, a truncated
/// record naming its identifier line, or a framed record together with
/// the cursor position just past it.
pub enum Parsed {
    End,
    Truncated { id: Seq<u8> },
    Rec { id: Seq<u8>, sequence: Seq<u8>, quality: Seq<u8>, end: int },
}

/// The careful parse of one record starting at `pos`: the identifier
/// line as read, the wrapped sequence lines concatenated and stripped of
/// all whitespace, and exactly as many stripped quality bytes as the
/// sequence has.
pub open spec fn next_parsed(s: Seq<u8>, pos: int) -> Parsed {
    if pos >= s.len() {
        Parsed::End
    } else {
        let ie = line_end(s, pos);
        let id = s.subrange(pos, ie);
        match body_lines(s, ie) {
            None => Parsed::Truncated { id },
            Some((raw, p)) => {
                let sequence = strip(raw);
                match qual_lines(s, p, sequence.len() as int) {
                    None => Parsed::Truncated { id },
                    Some((q, e)) => Parsed::Rec {
                        id,
                        sequence,
                        quality: q.take(sequence.len() as int),
                        end: e,
                    },
                }
            },
        }
    }
}

/// A framed body never stands still and never runs past the stream.
pub proof fn lemma_body_lines_bounds(s: Seq<u8>, pos: int)
    requires
        0 <= pos <= s.len(),
    ensures
        body_lines(s, pos) matches Some((raw, p)) ==> pos < p <= s.len(),
    decreases s.len() - pos,
{
    if pos < s.len() {
        lemma_line_end_bounds(s, pos);
        if s[pos] != 43 {
            lemma_body_lines_bounds(s, line_end(s, pos));
        }
    }
}

/// Accumulated quality always covers what was asked for, advances the
/// cursor, and never runs past the stream.
pub proof fn lemma_qual_lines_bounds(s: Seq<u8>, pos: int, need: int)
    requires
        0 <= pos <= s.len(),
    ensures
        qual_lines(s, pos, need) matches Some((q, p)) ==> pos < p <= s.len() && q.len() >= need,
    decreases s.len() - pos,
{
    if pos < s.len() {
        lemma_line_end_bounds(s, pos);
        let e = line_end(s, pos);
        let piece = strip(s.subrange(pos, e));
        if piece.len() < need {
            lemma_qual_lines_bounds(s, e, need - piece.len());
        }
    }
}

/// Accumulated quality bytes hold no whitespace: each line is stripped
/// as it is appended.
pub proof fn lemma_qual_lines_clean(s: Seq<u8>, pos: int, need: int)
    requires
        0 <= pos <= s.len(),
    ensures
        qual_lines(s, pos, need) matches Some((q, p)) ==> forall|i: int|
            0 <= i < q.len() ==> !is_space(#[trigger] q[i]),
    decreases s.len() - pos,
{
    if pos < s.len() {
        lemma_line_end_bounds(s, pos);
        let e = line_end(s, pos);
        let piece = strip(s.subrange(pos, e));
        lemma_strip_no_space(s.subrange(pos, e));
        if piece.len() < need {
            lemma_qual_lines_clean(s, e, need - piece.len());
        }
    }
}

/// The mathematical content of one record.
pub struct RecordModel {
    pub id: Seq<u8>,
    pub sequence: Seq<u8>,
    pub quality: Seq<u8>,
}

/// All records of the stream from `pos` on, in order, or nothing if the
/// stream ends mid-record.
pub open spec fn records_from(s: Seq<u8>, pos: int) -> Option<Seq<RecordModel>>
    decreases s.len() - pos,
    when 0 <= pos <= s.len()
    via records_from_decreases
{
    match next_parsed(s, pos) {
        Parsed::End => Some(Seq::empty()),
        Parsed::Truncated { .. } => None,
        Parsed::Rec { id, sequence, quality, end } => match records_from(s, end) {
            None => None,
            Some(rest) => Some(seq![RecordModel { id, sequence, quality }] + rest),
        },
    }
}

#[via_fn]
proof fn records_from_decreases(s: Seq<u8>, pos: int) {
    if 0 <= pos <= s.len() {
        lemma_next_parsed_advances(s, pos);
    }
}

/// The mathematical content of a vector of records.
pub open spec fn models_of(rs: Seq<Record>) -> Seq<RecordModel> {
    rs.map_values(
        |r: Record| RecordModel { id: r.id@, sequence: r.sequence@, quality: r.quality@ },
    )
}

/// Any record the careful parse yields has its quality exactly as long
/// as its sequence.
pub proof fn lemma_parsed_lengths_match(s: Seq<u8>, pos: int)
    requires
        0 <= pos <= s.len(),
    ensures
        next_parsed(s, pos) matches Parsed::Rec { sequence, quality, .. } ==> quality.len()
            == sequence.len(),
{
    if pos < s.len() {
        lemma_line_end_bounds(s, pos);
        let ie = line_end(s, pos);
        lemma_body_lines_bounds(s, ie);
        if let Some((raw, p)) = body_lines(s, ie) {
            lemma_qual_lines_bounds(s, p, strip(raw).len() as int);
        }
    }
}

/// Whitespace embedded anywhere in wrapped sequence or quality lines
/// never appears in the parsed fields.
pub proof fn lemma_parsed_has_no_whitespace(s: Seq<u8>, pos: int)
    requires
        0 <= pos <= s.len(),
    ensures
        next_parsed(s, pos) matches Parsed::Rec { sequence, quality, .. } ==> (forall|i: int|
            0 <= i < sequence.len() ==> !is_space(#[trigger] sequence[i])) && (forall|i: int|
            0 <= i < quality.len() ==> !is_space(#[trigger] quality[i])),
{
    if pos < s.len() {
        lemma_line_end_bounds(s, pos);
        let ie = line_end(s, pos);
        lemma_body_lines_bounds(s, ie);
        if let Some((raw, p)) = body_lines(s, ie) {
            lemma_strip_no_space(raw);
            lemma_qual_lines_clean(s, p, strip(raw).len() as int);
            lemma_qual_lines_bounds(s, p, strip(raw).len() as int);
        }
    }
}

/// A framed record leaves the cursor strictly further on, within the
/// stream.
pub proof fn lemma_next_parsed_advances(s: Seq<u8>, pos: int)
    requires
        0 <= pos <= s.len(),
    ensures
        next_parsed(s, pos) matches Parsed::Rec { end, .. } ==> pos < end <= s.len(),
{
    if pos < s.len() {
        lemma_line_end_bounds(s, pos);
        let ie = line_end(s, pos);
        lemma_body_lines_bounds(s, ie);
        if let Some((raw, p)) = body_lines(s, ie) {
            lemma_qual_lines_bounds(s, p, strip(raw).len() as int);
        }
    }
}

impl Reader {
    /// The whole byte stream the reader was built over.
    pub closed spec fn stream(self) -> Seq<u8> {
        self.input@
    }

    /// How far into the stream the reader has consumed.
    pub closed spec fn cursor(self) -> int {
        self.pos as int
    }

    /// The cursor never runs past the stream.
    pub open spec fn wf(self) -> bool {
        0 <= self.cursor() <= self.stream().len()
    }

    /// Build a reader over a byte stream held in memory.
    pub fn new(input: Vec<u8>) -> (r: Reader)
        ensures
            r.wf(),
            r.stream() == input@,
            r.cursor() == 0,
    {
        Reader { input, pos: 0 }
    }

    /// Read one line, terminator included; the empty line means the
    /// stream is exhausted.
    fn read_line(&mut self) -> (line: Vec<u8>)
        requires
            old(self).wf(),
        ensures
            final(self).wf(),
            final(self).stream() == old(self).stream(),
            final(self).cursor() == line_end(old(self).stream(), old(self).cursor()),
            line@ == old(self).stream().subrange(old(self).cursor(), final(self).cursor()),
            line@.len() == 0 <==> old(self).cursor() == old(self).stream().len(),
    {
        proof {
            lemma_line_end_bounds(self.input@, self.pos as int);
        }
        let ghost s = self.input@;
        let mut j: usize = self.pos;
        while j < self.input.len() && self.input[j] != 10
            invariant
                self.pos <= j <= self.input.len(),
                s == self.input@,
                line_end(s, self.pos as int) == line_end(s, j as int),
            decreases self.input.len() - j,
        {
            j = j + 1;
        }
        let end: usize = if j < self.input.len() {
            j + 1
        } else {
            j
        };
        proof {
            assert(line_end(s, j as int) == end);
        }
        let line = copy_range(&self.input, self.pos, end);
        self.pos = end;
        line
    }

    /// Read the next record in the most careful way: the identifier
    /// line, then sequence lines up to the separator, then quality lines
    /// until the stripped quality is as long as the stripped sequence.
    /// `Ok(None)` is clean end-of-stream; a stream that ends mid-record
    /// is a `TruncatedRecord` naming the identifier.
    pub fn read_carefully(&mut self) -> (r: Result<Option<Record>, ParseError>)
        requires
            old(self).wf(),
        ensures
            final(self).wf(),
            final(self).stream() == old(self).stream(),
            match next_parsed(old(self).stream(), old(self).cursor()) {
                Parsed::End => r matches Ok(None) && final(self).cursor() == old(self).cursor(),
                Parsed::Truncated { id: tid } => r matches Err(ParseError::TruncatedRecord {
                    id: rid,
                }) && rid@ == tid,
                Parsed::Rec { id: mid, sequence, quality, end } => r matches Ok(Some(rec))
                    && rec.id@ == mid && rec.sequence@ == sequence && rec.quality@ == quality
                    && rec.paired() && final(self).cursor() == end,
            },
    {
        let ghost s = self.input@;
        let ghost p0 = self.pos as int;
        let id = self.read_line();
        if id.len() == 0 {
            return Ok(None);
        }
        let ghost p1 = self.pos as int;
        proof {
            lemma_line_end_bounds(s, p0);
        }
        let mut raw: Vec<u8> = Vec::new();
        loop
            invariant_except_break
                self.wf(),
                self.input@ == s,
                s == old(self).stream(),
                p0 == old(self).cursor(),
                0 <= p0 < s.len(),
                p1 == line_end(s, p0),
                id@ == s.subrange(p0, p1),
                p1 <= self.pos as int,
                body_lines(s, p1) == (match body_lines(s, self.pos as int) {
                    None => None::<(Seq<u8>, int)>,
                    Some((rest, p)) => Some((raw@ + rest, p)),
                }),
            ensures
                self.wf(),
                self.input@ == s,
                body_lines(s, p1) == Some((raw@, self.pos as int)),
            decreases s.len() - self.pos,
        {
            let ghost cur = self.pos as int;
            proof {
                lemma_line_end_bounds(s, cur);
            }
            let mut line = self.read_line();
            if line.len() == 0 {
                proof {
                    assert(body_lines(s, cur) is None);
                }
                return Err(ParseError::TruncatedRecord { id });
            }
            let ghost cur2 = self.pos as int;
            proof {
                assert(line@[0] == s[cur]);
            }
            if line[0] == 43 {
                proof {
                    assert(body_lines(s, cur) == Some((Seq::<u8>::empty(), cur2)));
                    assert(raw@ + Seq::<u8>::empty() =~= raw@);
                }
                break;
            }
            proof {
                assert(body_lines(s, cur) == (match body_lines(s, cur2) {
                    None => None::<(Seq<u8>, int)>,
                    Some((rest, p)) => Some((line@ + rest, p)),
                }));
                if let Some((rest, p)) = body_lines(s, cur2) {
                    assert(raw@ + (line@ + rest) =~= (raw@ + line@) + rest);
                }
            }
            raw.append(&mut line);
        }
        let ghost rawg = raw@;
        let cleaned = strip_whitespace(&raw);
        let target = cleaned.len();
        let ghost p2 = self.pos as int;
        let mut qv: Vec<u8> = Vec::new();
        loop
            invariant_except_break
                self.wf(),
                self.input@ == s,
                s == old(self).stream(),
                p0 == old(self).cursor(),
                0 <= p0 < s.len(),
                p1 == line_end(s, p0),
                id@ == s.subrange(p0, p1),
                body_lines(s, p1) == Some((rawg, p2)),
                cleaned@ == strip(rawg),
                target == cleaned@.len(),
                0 <= p2 <= self.pos as int,
                qual_lines(s, p2, target as int) == (match qual_lines(
                    s,
                    self.pos as int,
                    target - qv@.len(),
                ) {
                    None => None::<(Seq<u8>, int)>,
                    Some((rest, p)) => Some((qv@ + rest, p)),
                }),
            ensures
                self.wf(),
                self.input@ == s,
                qual_lines(s, p2, target as int) == Some((qv@, self.pos as int)),
                qv@.len() >= target,
            decreases s.len() - self.pos,
        {
            let ghost cur = self.pos as int;
            let ghost have = qv@.len() as int;
            proof {
                lemma_line_end_bounds(s, cur);
            }
            let line = self.read_line();
            if line.len() == 0 {
                proof {
                    assert(qual_lines(s, cur, target - have) is None);
                }
                return Err(ParseError::TruncatedRecord { id });
            }
            let ghost cur2 = self.pos as int;
            let ghost qg = qv@;
            let mut piece = strip_whitespace(&line);
            qv.append(&mut piece);
            proof {
                let pc = strip(s.subrange(cur, cur2));
                if pc.len() >= target - have {
                    assert(qual_lines(s, cur, target - have) == Some((pc, cur2)));
                } else {
                    assert(qual_lines(s, cur, target - have) == (match qual_lines(
                        s,
                        cur2,
                        (target - have) - pc.len(),
                    ) {
                        None => None::<(Seq<u8>, int)>,
                        Some((rest, p)) => Some((pc + rest, p)),
                    }));
                    if let Some((rest, p)) = qual_lines(s, cur2, (target - have) - pc.len()) {
                        assert(qg + (pc + rest) =~= (qg + pc) + rest);
                    }
                }
            }
            if qv.len() >= target {
                break;
            }
        }
        qv.truncate(target);
        let rec = Record { id, sequence: cleaned, quality: qv };
        proof {
            let sequence = strip(rawg);
            if let Some((q, e)) = qual_lines(s, p2, sequence.len() as int) {
                assert(rec.quality@ =~= q.take(sequence.len() as int));
            }
        }
        Ok(Some(rec))
    }

    /// Read the next record; the careful mode is the default and is
    /// never silently traded for the fixed four-line mode.
    pub fn read(&mut self) -> (r: Result<Option<Record>, ParseError>)
        requires
            old(self).wf(),
        ensures
            final(self).wf(),
            final(self).stream() == old(self).stream(),
            match next_parsed(old(self).stream(), old(self).cursor()) {
                Parsed::End => r matches Ok(None) && final(self).cursor() == old(self).cursor(),
                Parsed::Truncated { id: tid } => r matches Err(ParseError::TruncatedRecord {
                    id: rid,
                }) && rid@ == tid,
                Parsed::Rec { id: mid, sequence, quality, end } => r matches Ok(Some(rec))
                    && rec.id@ == mid && rec.sequence@ == sequence && rec.quality@ == quality
                    && rec.paired() && final(self).cursor() == end,
            },
    {
        self.read_carefully()
    }

    /// Read one record assuming exactly four physical lines (identifier,
    /// sequence, separator, quality) with no wrapping: an explicit,
    /// unchecked fast mode that skips whitespace normalization and
    /// length reconciliation, and keeps the line terminators in the
    /// fields.  `None` is end-of-stream where a record would begin.
    pub fn read_quickly(&mut self) -> (r: Option<Record>)
        requires
            old(self).wf(),
        ensures
            final(self).wf(),
            final(self).stream() == old(self).stream(),
            ({
                let s = old(self).stream();
                let p = old(self).cursor();
                let e1 = line_end(s, p);
                let e2 = line_end(s, e1);
                let e3 = line_end(s, e2);
                let e4 = line_end(s, e3);
                match r {
                    None => p == s.len() && final(self).cursor() == p,
                    Some(rec) => p < s.len() && rec.id@ == s.subrange(p, e1) && rec.sequence@
                        == s.subrange(e1, e2) && rec.quality@ == s.subrange(e3, e4)
                        && final(self).cursor() == e4,
                }
            }),
    {
        let id = self.read_line();
        if id.len() == 0 {
            return None;
        }
        let sequence = self.read_line();
        let _plus = self.read_line();
        let quality = self.read_line();
        Some(Record { id, sequence, quality })
    }

    /// Read records until clean end-of-stream or a truncated record.  On
    /// a well-formed stream this yields every record it holds, in order,
    /// never more, never fewer, and consumes the stream to its end; a
    /// stream that ends mid-record is an error instead.
    pub fn read_all(&mut self) -> (r: Result<Vec<Record>, ParseError>)
        requires
            old(self).wf(),
        ensures
            final(self).wf(),
            final(self).stream() == old(self).stream(),
            match r {
                Ok(recs) => records_from(old(self).stream(), old(self).cursor()) == Some(
                    models_of(recs@),
                ) && final(self).cursor() == old(self).stream().len(),
                Err(e) => records_from(old(self).stream(), old(self).cursor()) is None && e
                    matches ParseError::TruncatedRecord { .. },
            },
    {
        let ghost s = self.input@;
        let ghost p0 = self.pos as int;
        let mut out: Vec<Record> = Vec::new();
        loop
            invariant_except_break
                self.wf(),
                self.input@ == s,
                s == old(self).stream(),
                p0 == old(self).cursor(),
                0 <= p0 <= s.len(),
                records_from(s, p0) == (match records_from(s, self.pos as int) {
                    None => None::<Seq<RecordModel>>,
                    Some(rest) => Some(models_of(out@) + rest),
                }),
            ensures
                self.wf(),
                self.input@ == s,
                records_from(s, p0) == Some(models_of(out@)),
                self.pos as int == s.len(),
            decreases s.len() - self.pos,
        {
            let ghost cur = self.pos as int;
            match self.read_carefully() {
                Ok(None) => {
                    proof {
                        assert(records_from(s, cur) == Some(Seq::<RecordModel>::empty()));
                        assert(models_of(out@) + Seq::<RecordModel>::empty() =~= models_of(out@));
                    }
                    break;
                },
                Ok(Some(rec)) => {
                    proof {
                        lemma_next_parsed_advances(s, cur);
                        let m = RecordModel {
                            id: rec.id@,
                            sequence: rec.sequence@,
                            quality: rec.quality@,
                        };
                        if let Parsed::Rec { id, sequence, quality, end } = next_parsed(s, cur) {
                            if let Some(rest) = records_from(s, end) {
                                assert(models_of(out@) + (seq![m] + rest) =~= (models_of(out@)
                                    + seq![m]) + rest);
                            }
                        }
                        assert(models_of(out@.push(rec)) =~= models_of(out@) + seq![m]);
                    }
                    out.push(rec);
                },
                Err(e) => {
                    return Err(e);
                },
            }
        }
        Ok(out)
    }
}

} // verus!
