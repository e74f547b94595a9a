//! The SEGB container of macOS Biome streams: a header, then records, each
//! preceded by the 4-byte delimiter `0a 00 00 00`. The header ends at the
//! first delimiter followed by a `00` or `ff` byte (or by nothing).
use vstd::prelude::*;

verus! {

/// The record delimiter.
pub open spec fn delimiter() -> Seq<u8> {
    seq![0x0au8, 0x00u8, 0x00u8, 0x00u8]
}

/// `p` occurs in `s` at position 0.
pub open spec fn starts_with_bytes(s: Seq<u8>, p: Seq<u8>) -> bool {
    p.len() <= s.len() && s.subrange(0, p.len() as int) == p
}

/// The position of the first occurrence of `p` in `s`.
pub open spec fn find_bytes(s: Seq<u8>, p: Seq<u8>) -> Option<int>
    decreases s.len(),
{
    if starts_with_bytes(s, p) {
        Some(0)
    } else if s.len() == 0 {
        None
    } else {
        match find_bytes(s.drop_first(), p) {
            Some(i) => Some(i + 1),
            None => None,
        }
    }
}

pub proof fn lemma_find_bytes(s: Seq<u8>, p: Seq<u8>)
    ensures
        find_bytes(s, p) matches Some(i) ==> 0 <= i && i + p.len() <= s.len() && s.subrange(
            i,
            i + p.len(),
        ) == p,
    decreases s.len(),
{
    if !starts_with_bytes(s, p) && s.len() > 0 {
        lemma_find_bytes(s.drop_first(), p);
        if let Some(i) = find_bytes(s.drop_first(), p) {
            assert(s.drop_first().subrange(i, i + p.len()) =~= s.subrange(i + 1, i + 1 + p.len()));
        }
    }
}

/// The first occurrence of `needle` in `haystack[from..]`, relative to
/// `from`.
///
/// Calls `memchr::memmem::find`, which returns the position of the first
/// occurrence of the needle in the haystack (0 for an empty needle), or
/// `None`.
#[verifier::external_body]
pub(crate) fn memmem_find(haystack: &[u8], from: usize, needle: &[u8]) -> (r: Option<usize>)
    requires
        from <= haystack@.len(),
    ensures
        match find_bytes(haystack@.subrange(from as int, haystack@.len() as int), needle@) {
            Some(i) => r == Some(i as usize),
            None => r is None,
        },
{
    memchr::memmem::find(&haystack[from..], needle)
}

/// The payload ranges found scanning `data` from `start`, in header mode
/// (looking for the end of the header) or record mode.
pub open spec fn ranges_from(data: Seq<u8>, start: int, in_records: bool) -> Seq<(int, int)>
    decreases data.len() - start,
{
    if start < 0 || start > data.len() {
        Seq::empty()
    } else {
        match find_bytes(data.subrange(start, data.len() as int), delimiter()) {
            None => Seq::empty(),
            Some(rel) => {
                proof {
                    lemma_find_bytes(data.subrange(start, data.len() as int), delimiter());
                }
                let payload_start = start + rel + 4;
                if !in_records {
                    if payload_start >= data.len() || data[payload_start] == 0x00 || data[payload_start]
                        == 0xff {
                        ranges_from(data, payload_start, true)
                    } else {
                        ranges_from(data, payload_start, false)
                    }
                } else {
                    let payload_end = match find_bytes(
                        data.subrange(payload_start, data.len() as int),
                        delimiter(),
                    ) {
                        Some(r) => payload_start + r,
                        None => data.len() as int,
                    };
                    proof {
                        lemma_find_bytes(data.subrange(payload_start, data.len() as int), delimiter());
                    }
                    let rest = if payload_end >= data.len() {
                        Seq::empty()
                    } else {
                        ranges_from(data, payload_end, true)
                    };
                    if payload_start < payload_end {
                        seq![(payload_start, payload_end)] + rest
                    } else {
                        rest
                    }
                }
            },
        }
    }
}

/// The `(start, end)` byte ranges of the record payloads of a SEGB buffer.
pub open spec fn record_ranges(data: Seq<u8>) -> Seq<(int, int)> {
    ranges_from(data, 0, false)
}

pub open spec fn ranges_as_int(r: Seq<(usize, usize)>) -> Seq<(int, int)> {
    r.map_values(|p: (usize, usize)| (p.0 as int, p.1 as int))
}

const DELIMITER: [u8; 4] = [0x0a, 0x00, 0x00, 0x00];

/// Scans the byte slice and returns `(start, end)` ranges for each record
/// payload.
pub fn collect_record_ranges(data: &[u8]) -> (r: Vec<(usize, usize)>)
    ensures
        ranges_as_int(r@) == record_ranges(data@),
        forall|k: int| 0 <= k < r@.len() ==> #[trigger] r@[k].0 < r@[k].1 <= data@.len(),
{
    let delim: &[u8] = &DELIMITER;
    proof {
        assert(delim@ =~= delimiter());
    }
    let mut ranges: Vec<(usize, usize)> = Vec::new();
    let mut in_records = false;
    let mut search_start: usize = 0;
    let ghost total = record_ranges(data@);
    proof {
        assert(ranges_as_int(ranges@) =~= Seq::<(int, int)>::empty());
    }
    loop
        invariant
            search_start <= data@.len(),
            delim@ == delimiter(),
            total == record_ranges(data@),
            total =~= ranges_as_int(ranges@) + ranges_from(data@, search_start as int, in_records),
            forall|k: int| 0 <= k < ranges@.len() ==> #[trigger] ranges@[k].0 < ranges@[k].1 <= data@.len(),
        ensures
            total =~= ranges_as_int(ranges@),
            forall|k: int| 0 <= k < ranges@.len() ==> #[trigger] ranges@[k].0 < ranges@[k].1 <= data@.len(),
        decreases data@.len() - search_start,
    {
        let ghost tail = data@.subrange(search_start as int, data@.len() as int);
        let rel = match memmem_find(data, search_start, delim) {
            Some(rel) => rel,
            None => {
                proof {
                    assert(ranges_from(data@, search_start as int, in_records) =~= Seq::<(int, int)>::empty());
                }
                break;
            },
        };
        proof {
            lemma_find_bytes(tail, delimiter());
            assert(delimiter().len() == 4);
            assert(rel + 4 <= tail.len());
            assert(data@.len() == data.len());
        }
        let payload_start: usize = search_start + rel + 4;
        if !in_records {
            if payload_start >= data.len() || data[payload_start] == 0x00 || data[payload_start] == 0xff {
                in_records = true;
            }
            search_start = payload_start;
            continue;
        }
        proof {
            lemma_find_bytes(data@.subrange(payload_start as int, data@.len() as int), delimiter());
        }
        let payload_end: usize = match memmem_find(data, payload_start, delim) {
            Some(r) => payload_start + r,
            None => data.len(),
        };
        if payload_start < payload_end {
            let ghost before = ranges@;
            ranges.push((payload_start, payload_end));
            proof {
                assert(ranges_as_int(ranges@) =~= ranges_as_int(before).push(
                    (payload_start as int, payload_end as int),
                ));
                assert forall|k: int| 0 <= k < ranges@.len() implies #[trigger] ranges@[k].0
                    < ranges@[k].1 <= data@.len() by {
                    if k < before.len() {
                        assert(ranges@[k] == before[k]);
                    }
                }
            }
        }
        search_start = payload_end;
        if search_start >= data.len() {
            break;
        }
    }
    ranges
}

/// The payloads of a SEGB buffer, one at a time.
pub struct RecordIter {
    data: Vec<u8>,
    ranges: Vec<(usize, usize)>,
    index: usize,
}

impl RecordIter {
    /// The payloads not yet handed out.
    pub closed spec fn remaining(&self) -> Seq<Seq<u8>> {
        ranges_as_int(self.ranges@).subrange(self.index as int, self.ranges@.len() as int).map_values(
            |p: (int, int)| self.data@.subrange(p.0, p.1),
        )
    }

    pub closed spec fn wf(&self) -> bool {
        &&& self.index <= self.ranges@.len()
        &&& ranges_as_int(self.ranges@) == record_ranges(self.data@)
        &&& forall|k: int|
            0 <= k < self.ranges@.len() ==> #[trigger] self.ranges@[k].0 < self.ranges@[k].1
                <= self.data@.len()
    }

    /// Reads the record payloads of a whole SEGB buffer.
    pub fn new(data: Vec<u8>) -> (r: RecordIter)
        ensures
            r.wf(),
            r.remaining() == record_ranges(data@).map_values(
                |p: (int, int)| data@.subrange(p.0, p.1),
            ),
    {
        let ranges = collect_record_ranges(data.as_slice());
        let r = RecordIter { data, ranges, index: 0 };
        proof {
            assert(ranges_as_int(r.ranges@).subrange(0, r.ranges@.len() as int) =~= ranges_as_int(
                r.ranges@,
            ));
        }
        r
    }

    /// The next payload, if any.
    pub fn next_record(&mut self) -> (r: Option<Vec<u8>>)
        requires
            old(self).wf(),
        ensures
            final(self).wf(),
            old(self).remaining().len() == 0 ==> r is None && final(self).remaining().len() == 0,
            old(self).remaining().len() > 0 ==> (r matches Some(v) && v@ == old(self).remaining()[0]
                && final(self).remaining() == old(self).remaining().drop_first()),
    {
        if self.index >= self.ranges.len() {
            return None;
        }
        let (start, end) = self.ranges[self.index];
        let mut out: Vec<u8> = Vec::new();
        let mut k: usize = start;
        while k < end
            invariant
                start <= k <= end <= self.data@.len(),
                out@ == self.data@.subrange(start as int, k as int),
            decreases end - k,
        {
            out.push(self.data[k]);
            proof {
                assert(self.data@.subrange(start as int, k + 1) =~= self.data@.subrange(
                    start as int,
                    k as int,
                ).push(self.data@[k as int]));
            }
            k = k + 1;
        }
        let ghost before = self.remaining();
        self.index = self.index + 1;
        proof {
            assert(self.remaining() =~= before.drop_first());
        }
        Some(out)
    }
}

/// Errors of the SEGB reader.
#[derive(Debug, Clone)]
pub enum SegbError {
    /// The file could not be read; the message of the I/O error.
    Io(String),
}

impl SegbError {
    /// The message shown to the user.
    pub fn message(&self) -> (r: String)
        ensures
            r@ == match *self {
                SegbError::Io(m) => "I/O error: "@ + m@,
            },
    {
        match self {
            SegbError::Io(m) => {
                let mut out = crate::text::to_owned_string("I/O error: ");
                crate::render::append(&mut out, m.as_str());
                out
            },
        }
    }
}


// ---------------------------------------------------------------------------
// Buffers built from payloads
// ---------------------------------------------------------------------------

/// The records of `payloads`: each payload preceded by the delimiter.
pub open spec fn segb_records(payloads: Seq<Seq<u8>>) -> Seq<u8>
    decreases payloads.len(),
{
    if payloads.len() == 0 {
        Seq::empty()
    } else {
        delimiter() + payloads[0] + segb_records(payloads.drop_first())
    }
}

/// A SEGB buffer holding `payloads`: a header of the delimiter and four zero
/// bytes, then the records.
pub open spec fn segb_buffer(payloads: Seq<Seq<u8>>) -> Seq<u8> {
    delimiter() + seq![0u8, 0u8, 0u8, 0u8] + segb_records(payloads)
}

/// Payloads a buffer can hold: each is non-empty and holds no delimiter.
pub open spec fn payloads_ok(payloads: Seq<Seq<u8>>) -> bool {
    forall|k: int|
        0 <= k < payloads.len() ==> #[trigger] payloads[k].len() > 0 && find_bytes(
            payloads[k],
            delimiter(),
        ) is None
}

/// With no delimiter in `a`, the first delimiter of `a + b`, where `b` starts
/// with the delimiter's first byte, is the first one of `b`.
proof fn lemma_find_after(a: Seq<u8>, b: Seq<u8>)
    requires
        find_bytes(a, delimiter()) is None,
        b.len() > 0,
        b[0] == 0x0au8,
    ensures
        find_bytes(a + b, delimiter()) == (match find_bytes(b, delimiter()) {
            Some(i) => Some(i + a.len()),
            None => None::<int>,
        }),
    decreases a.len(),
{
    if a.len() == 0 {
        assert(a + b =~= b);
    } else {
        assert(!starts_with_bytes(a, delimiter()));
        if starts_with_bytes(a + b, delimiter()) {
            if a.len() >= 4 {
                assert((a + b).subrange(0, 4) =~= a.subrange(0, 4));
            } else {
                assert((a + b).subrange(0, 4)[a.len() as int] == b[0]);
            }
        }
        assert((a + b).drop_first() =~= a.drop_first() + b);
        lemma_find_after(a.drop_first(), b);
    }
}

proof fn lemma_records_start(payloads: Seq<Seq<u8>>)
    requires
        payloads.len() > 0,
    ensures
        segb_records(payloads).len() > 0,
        segb_records(payloads)[0] == 0x0au8,
        find_bytes(segb_records(payloads), delimiter()) == Some(0int),
{
    let r = segb_records(payloads);
    assert(r.subrange(0, 4) =~= delimiter());
}

/// The payload ranges of record mode from `start`, where `data` holds the
/// records of `payloads` from `start` to its end: each payload's range,
/// giving back the payload.
proof fn lemma_record_mode_ranges(data: Seq<u8>, start: int, payloads: Seq<Seq<u8>>)
    requires
        0 <= start <= data.len(),
        data.subrange(start, data.len() as int) == segb_records(payloads),
        payloads_ok(payloads),
    ensures
        ranges_from(data, start, true).len() == payloads.len(),
        forall|k: int|
            0 <= k < payloads.len() ==> data.subrange(
                #[trigger] ranges_from(data, start, true)[k].0,
                ranges_from(data, start, true)[k].1,
            ) == payloads[k],
    decreases payloads.len(),
{
    let tail = data.subrange(start, data.len() as int);
    if payloads.len() == 0 {
        assert(tail =~= Seq::<u8>::empty());
        assert(find_bytes(tail, delimiter()) is None);
    } else {
        let p0 = payloads[0];
        let rest = payloads.drop_first();
        assert(payloads_ok(rest)) by {
            assert forall|k: int| 0 <= k < rest.len() implies #[trigger] rest[k].len() > 0
                && find_bytes(rest[k], delimiter()) is None by {
                assert(rest[k] == payloads[k + 1]);
            }
        }
        assert(p0.len() > 0 && find_bytes(p0, delimiter()) is None) by {
            assert(payloads[0] == p0);
        }
        lemma_records_start(payloads);
        let ps = start + 4;
        let pe = ps + p0.len();
        let after = data.subrange(ps, data.len() as int);
        let whole = delimiter() + p0 + segb_records(rest);
        assert(tail =~= whole);
        assert(after =~= p0 + segb_records(rest)) by {
            assert(after.len() == whole.len() - 4);
            assert forall|j: int| 0 <= j < after.len() implies after[j] == (p0 + segb_records(
                rest,
            ))[j] by {
                assert(after[j] == data[ps + j]);
                assert(tail[4 + j] == data[start + 4 + j]);
                assert(whole[4 + j] == (p0 + segb_records(rest))[j]);
            }
        }
        assert(data.subrange(ps, pe) =~= p0) by {
            assert forall|j: int| 0 <= j < p0.len() implies data.subrange(ps, pe)[j] == p0[j] by {
                assert(data[ps + j] == tail[4 + j]);
            }
        }
        if rest.len() == 0 {
            assert(after =~= p0 + Seq::<u8>::empty());
            assert(after =~= p0);
            assert(pe == data.len());
            assert(ranges_from(data, start, true) =~= seq![(ps, pe)]);
        } else {
            lemma_records_start(rest);
            lemma_find_after(p0, segb_records(rest));
            assert(pe < data.len());
            assert(data.subrange(pe, data.len() as int) =~= segb_records(rest)) by {
                assert forall|j: int| 0 <= j < data.len() - pe implies data.subrange(
                    pe,
                    data.len() as int,
                )[j] == segb_records(rest)[j] by {
                    assert(data[pe + j] == after[p0.len() + j]);
                }
            }
            lemma_record_mode_ranges(data, pe, rest);
            let tail_ranges = ranges_from(data, pe, true);
            assert(ranges_from(data, start, true) =~= seq![(ps, pe)] + tail_ranges);
            assert forall|k: int| 0 <= k < payloads.len() implies data.subrange(
                #[trigger] ranges_from(data, start, true)[k].0,
                ranges_from(data, start, true)[k].1,
            ) == payloads[k] by {
                if k > 0 {
                    assert(ranges_from(data, start, true)[k] == tail_ranges[k - 1]);
                    assert(payloads[k] == rest[k - 1]);
                }
            }
        }
    }
}

/// A buffer built from payloads gives them back: its record ranges are one
/// per payload, in order, and the bytes of each range are that payload, for
/// non-empty payloads that hold no delimiter.
pub proof fn law_records_read_back(payloads: Seq<Seq<u8>>)
    requires
        payloads_ok(payloads),
    ensures
        record_ranges(segb_buffer(payloads)).len() == payloads.len(),
        forall|k: int|
            0 <= k < payloads.len() ==> segb_buffer(payloads).subrange(
                #[trigger] record_ranges(segb_buffer(payloads))[k].0,
                record_ranges(segb_buffer(payloads))[k].1,
            ) == payloads[k],
{
    let buf = segb_buffer(payloads);
    let zeros = seq![0u8, 0u8, 0u8, 0u8];
    assert(buf.subrange(0, 4) =~= delimiter());
    assert(find_bytes(buf, delimiter()) == Some(0int));
    assert(buf.subrange(0, buf.len() as int) =~= buf);
    assert(buf[4] == 0u8);
    assert(buf.subrange(8, buf.len() as int) =~= segb_records(payloads));
    lemma_record_mode_ranges(buf, 8, payloads);
    let from4 = buf.subrange(4, buf.len() as int);
    assert(find_bytes(zeros, delimiter()) is None) by {
        reveal_with_fuel(find_bytes, 6);
        assert(!starts_with_bytes(zeros, delimiter())) by {
            assert(zeros.subrange(0, 4)[0] != delimiter()[0]);
        }
    }
    if payloads.len() == 0 {
        assert(from4 =~= zeros);
        assert(ranges_from(buf, 4, true) =~= Seq::<(int, int)>::empty());
    } else {
        lemma_records_start(payloads);
        assert(from4 =~= zeros + segb_records(payloads));
        lemma_find_after(zeros, segb_records(payloads));
        assert(find_bytes(buf.subrange(8, buf.len() as int), delimiter()) == Some(0int));
        assert(ranges_from(buf, 4, true) == ranges_from(buf, 8, true));
    }
    assert(record_ranges(buf) == ranges_from(buf, 8, true));
}

} // verus!
