//! Annex-B NAL unit demultiplexing: scans a compressed video buffer for
//! start-code-delimited units and yields views with exact byte offsets.

use vstd::prelude::*;
use vstd::slice::slice_subrange;
use vstd::slice::slice_to_vec;

verus! {

/// The two start-code framings of an Annex-B elementary stream.
#[derive(Debug, Clone, Copy, PartialEq, Eq, Structural)]
pub enum AnnexBStartCode {
    B3,
    B4,
}

impl AnnexBStartCode {
    /// The byte pattern of this start code.
    pub open spec fn spec_code(self) -> Seq<u8> {
        match self {
            AnnexBStartCode::B3 => seq![0u8, 0u8, 1u8],
            AnnexBStartCode::B4 => seq![0u8, 0u8, 0u8, 1u8],
        }
    }

    pub fn code(&self) -> (r: &'static [u8])
        ensures
            r@ == self.spec_code(),
    {
        match self {
            AnnexBStartCode::B3 => &[0, 0, 1],
            AnnexBStartCode::B4 => &[0, 0, 0, 1],
        }
    }

    pub fn len(&self) -> (r: usize)
        ensures
            r == self.spec_code().len(),
    {
        match self {
            AnnexBStartCode::B3 => self.code().len(),
            AnnexBStartCode::B4 => self.code().len(),
        }
    }
}

/// A three-byte start-code pattern `00 00 01` begins at position `p` of `s`.
pub open spec fn sc3_at(s: Seq<u8>, p: int) -> bool {
    &&& 0 <= p
    &&& p + 3 <= s.len()
    &&& s[p] == 0
    &&& s[p + 1] == 0
    &&& s[p + 2] == 1
}

/// Some three-byte start-code pattern begins at or after position `from`.
pub open spec fn has_sc3_from(s: Seq<u8>, from: int) -> bool {
    exists|q: int| from <= q && sc3_at(s, q)
}

/// The first position at or after `from` where a three-byte pattern begins
/// (meaningful only when `has_sc3_from(s, from)` holds).
#[verifier::opaque]
pub open spec fn first_sc3_from(s: Seq<u8>, from: int) -> int {
    choose|q: int|
        from <= q && sc3_at(s, q) && (forall|r: int| from <= r < q ==> !sc3_at(s, r))
}

proof fn lemma_first_sc3_from(s: Seq<u8>, from: int, q: int)
    requires
        from <= q,
        sc3_at(s, q),
    ensures
        has_sc3_from(s, from),
        ({
            let p = first_sc3_from(s, from);
            &&& from <= p <= q
            &&& sc3_at(s, p)
            &&& forall|r: int| from <= r < p ==> !sc3_at(s, r)
        }),
    decreases q - from,
{
    reveal(first_sc3_from);
    assert(has_sc3_from(s, from));
    if forall|r: int| from <= r < q ==> !sc3_at(s, r) {
        assert(from <= q && sc3_at(s, q) && (forall|r: int| from <= r < q ==> !sc3_at(s, r)));
        let p = first_sc3_from(s, from);
        assert(from <= p && sc3_at(s, p) && (forall|r: int| from <= r < p ==> !sc3_at(s, r)));
        if p > q {
            assert(!sc3_at(s, q));
        }
    } else {
        let r = choose|r: int| from <= r < q && sc3_at(s, r);
        lemma_first_sc3_from(s, from, r);
    }
}

/// The scan settles on position `p`: `p` carries the first pattern and the
/// earlier positions carry none.
proof fn lemma_first_sc3_is(s: Seq<u8>, from: int, p: int)
    requires
        from <= p,
        sc3_at(s, p),
        forall|r: int| from <= r < p ==> !sc3_at(s, r),
    ensures
        has_sc3_from(s, from),
        first_sc3_from(s, from) == p,
{
    lemma_first_sc3_from(s, from, p);
    let q = first_sc3_from(s, from);
    if q < p {
        assert(!sc3_at(s, q));
    }
}

proof fn lemma_first_props(s: Seq<u8>, from: int)
    requires
        has_sc3_from(s, from),
    ensures
        ({
            let p = first_sc3_from(s, from);
            &&& from <= p
            &&& sc3_at(s, p)
            &&& forall|r: int| from <= r < p ==> !sc3_at(s, r)
        }),
{
    let q = choose|q: int| from <= q && sc3_at(s, q);
    lemma_first_sc3_from(s, from, q);
}

/// Where a forward scan from `from` places the next unit: the start offset of
/// its start code and that code's length. A three-byte pattern found strictly
/// after `from` is reclassified as a four-byte code when the byte just before
/// it is also zero.
pub open spec fn scan_result(s: Seq<u8>, from: int) -> Option<(int, int)> {
    if has_sc3_from(s, from) {
        let p = first_sc3_from(s, from);
        if p > from && s[p - 1] == 0 {
            Some((p - 1, 4))
        } else {
            Some((p, 3))
        }
    } else {
        None
    }
}

proof fn lemma_scan_result_props(s: Seq<u8>, from: int)
    ensures
        match scan_result(s, from) {
            Some(hit) => {
                &&& from <= hit.0
                &&& hit.1 == 3 || hit.1 == 4
                &&& hit.0 + hit.1 <= s.len()
                &&& sc3_at(s, hit.0 + hit.1 - 3)
                &&& hit.1 == 4 ==> s[hit.0] == 0
            },
            None => !has_sc3_from(s, from),
        },
{
    if has_sc3_from(s, from) {
        lemma_first_props(s, from);
    }
}

/// Scans `data` for the first start code of either length. On a hit, returns
/// the offset where the code begins, its kind and its byte length.
#[verifier::rlimit(50)]
pub fn find_start_code(data: &[u8]) -> (r: Option<(usize, AnnexBStartCode, usize)>)
    ensures
        match r {
            Some(hit) => {
                &&& scan_result(data@, 0) == Some((hit.0 as int, hit.2 as int))
                &&& (hit.2 == 3 || hit.2 == 4)
                &&& (hit.1 == AnnexBStartCode::B3 <==> hit.2 == 3)
            },
            None => !has_sc3_from(data@, 0),
        },
{
    let mut i: usize = 0;
    while data.len() - i >= 3
        invariant
            i <= data.len(),
            forall|r: int| 0 <= r < i ==> !sc3_at(data@, r),
        decreases data.len() - i,
    {
        if data[i] == 0 && data[i + 1] == 0 {
            if data[i + 2] == 1 {
                // Found 00 00 01; a zero just before it extends the match
                // backward into a four-byte code.
                if i > 0 && data[i - 1] == 0 {
                    proof {
                        lemma_first_sc3_is(data@, 0, i as int);
                    }
                    return Some((i - 1, AnnexBStartCode::B4, 4));
                } else {
                    proof {
                        lemma_first_sc3_is(data@, 0, i as int);
                    }
                    return Some((i, AnnexBStartCode::B3, 3));
                }
            } else if data[i + 2] == 0 {
                // 00 00 00 may open a four-byte code.
                if i + 3 < data.len() && data[i + 3] == 1 {
                    proof {
                        assert(!sc3_at(data@, i as int));
                        assert(forall|r: int| 0 <= r < i as int + 1 ==> !sc3_at(data@, r));
                        lemma_first_sc3_is(data@, 0, i as int + 1);
                    }
                    return Some((i, AnnexBStartCode::B4, 4));
                }
                proof {
                    assert(!sc3_at(data@, i as int));
                }
                i = i + 1;
                continue;
            }
        }
        proof {
            assert(!sc3_at(data@, i as int));
        }
        i = i + 1;
    }
    proof {
        assert forall|q: int| !(0 <= q && sc3_at(data@, q)) by {
            if 0 <= q && q + 3 <= data@.len() {
                assert(q < i);
            }
        }
    }
    None
}

proof fn lemma_sc3_shift_one(s: Seq<u8>, off: int, q: int)
    requires
        0 <= off <= s.len(),
        0 <= q,
    ensures
        sc3_at(s.subrange(off, s.len() as int), q) <==> sc3_at(s, off + q),
{
    let sub = s.subrange(off, s.len() as int);
    if q + 3 <= sub.len() {
        assert(sub[q] == s[off + q]);
        assert(sub[q + 1] == s[off + q + 1]);
        assert(sub[q + 2] == s[off + q + 2]);
    }
}

proof fn lemma_first_shift(s: Seq<u8>, off: int)
    requires
        0 <= off <= s.len(),
    ensures
        has_sc3_from(s.subrange(off, s.len() as int), 0) <==> has_sc3_from(s, off),
        has_sc3_from(s, off) ==> first_sc3_from(s, off) == off + first_sc3_from(
            s.subrange(off, s.len() as int),
            0,
        ),
{
    let sub = s.subrange(off, s.len() as int);
    if has_sc3_from(sub, 0) {
        lemma_first_props(sub, 0);
        let p = first_sc3_from(sub, 0);
        lemma_sc3_shift_one(s, off, p);
        assert(sc3_at(s, off + p));
        assert forall|r: int| off <= r < off + p implies !sc3_at(s, r) by {
            lemma_sc3_shift_one(s, off, r - off);
            assert(!sc3_at(sub, r - off));
        }
        lemma_first_sc3_is(s, off, off + p);
    } else {
        if has_sc3_from(s, off) {
            let q = choose|q: int| off <= q && sc3_at(s, q);
            lemma_sc3_shift_one(s, off, q - off);
            assert(sc3_at(sub, q - off));
            assert(has_sc3_from(sub, 0));
        }
    }
}

/// A scan of the tail `s[off..]` and a scan of `s` from `off` settle on the
/// same place, up to the shift by `off`.
#[verifier::rlimit(50)]
proof fn lemma_scan_shift(s: Seq<u8>, off: int)
    requires
        0 <= off <= s.len(),
    ensures
        ({
            let sub = s.subrange(off, s.len() as int);
            match scan_result(sub, 0) {
                Some(hit) => scan_result(s, off) == Some((off + hit.0, hit.1)),
                None => scan_result(s, off) is None,
            }
        }),
{
    let sub = s.subrange(off, s.len() as int);
    lemma_first_shift(s, off);
    if has_sc3_from(sub, 0) {
        lemma_first_props(sub, 0);
        let p = first_sc3_from(sub, 0);
        assert(first_sc3_from(s, off) == off + p);
        if p > 0 {
            assert(sub[p - 1] == s[off + p - 1]);
            assert(off + p > off);
        } else {
            assert(!(off + p > off));
        }
    }
}

/// The unit a single scan step yields: absolute offsets into the buffer of
/// the start code's first byte, the code's length, and the payload's end.
pub struct SpecNal {
    pub start: int,
    pub sc_len: int,
    pub end: int,
}

/// One step of the splitter at cursor `off`: the next unit if a start code
/// can still be found, bounded by the following start code or the buffer end.
pub open spec fn spec_next_unit(s: Seq<u8>, off: int) -> Option<SpecNal> {
    if off >= s.len() {
        None
    } else {
        match scan_result(s, off) {
            None => None,
            Some(hit) => {
                let pstart = hit.0 + hit.1;
                let end = match scan_result(s, pstart) {
                    Some(nhit) => nhit.0,
                    None => s.len() as int,
                };
                Some(SpecNal { start: hit.0, sc_len: hit.1, end: end })
            },
        }
    }
}

/// Where the cursor stands after one step: the yielded unit's end, or the
/// buffer's end when nothing was found.
pub open spec fn spec_next_offset(s: Seq<u8>, off: int) -> int {
    match spec_next_unit(s, off) {
        None => s.len() as int,
        Some(n) => n.end,
    }
}

/// One NAL unit, viewed through a copy of its bytes: the start code spans
/// `start_code_range` of `full`, the payload the rest.
pub struct AnnexBData {
    pub payload_range: core::ops::Range<usize>,
    pub start_code: AnnexBStartCode,
    pub start_code_range: core::ops::Range<usize>,
    pub full: Vec<u8>,
}

/// A cursor over one buffer, advanced by [`AnnexBSplitter::next`] and reset
/// by an explicit buffer replacement.
pub struct AnnexBSplitter {
    data: Vec<u8>,
    offset: usize,
}

impl AnnexBSplitter {
    /// The bytes the cursor walks over.
    pub closed spec fn buf(self) -> Seq<u8> {
        self.data@
    }

    /// The cursor's byte offset into the buffer.
    pub closed spec fn cursor(self) -> int {
        self.offset as int
    }

    pub open spec fn wf(self) -> bool {
        self.cursor() <= self.buf().len()
    }

    pub fn new(data: Vec<u8>) -> (r: Self)
        ensures
            r.wf(),
            r.buf() == data@,
            r.cursor() == 0,
    {
        Self { data, offset: 0 }
    }

    /// Replaces the buffer and resets the offset to zero.
    pub fn reset(&mut self, data: Vec<u8>)
        ensures
            final(self).wf(),
            final(self).buf() == data@,
            final(self).cursor() == 0,
    {
        self.data = data;
        self.offset = 0;
    }

    /// Yields the next start-code-delimited unit, or nothing once no start
    /// code can be found in the remainder; then the cursor rests at the end.
    #[verifier::rlimit(80)]
    pub fn next(&mut self) -> (r: Option<AnnexBData>)
        requires
            old(self).wf(),
        ensures
            final(self).wf(),
            final(self).buf() == old(self).buf(),
            final(self).cursor() == spec_next_offset(old(self).buf(), old(self).cursor()),
            old(self).cursor() <= final(self).cursor(),
            match r {
                None => spec_next_unit(old(self).buf(), old(self).cursor()) is None,
                Some(nal) => match spec_next_unit(old(self).buf(), old(self).cursor()) {
                    Some(n) => {
                        &&& nal.full@ == old(self).buf().subrange(n.start, n.end)
                        &&& nal.full@.subrange(0, n.sc_len) == nal.start_code.spec_code()
                        &&& nal.start_code.spec_code().len() == n.sc_len
                        &&& nal.start_code_range.start == 0
                        &&& nal.start_code_range.end == n.sc_len
                        &&& nal.payload_range.start == n.sc_len
                        &&& nal.payload_range.end == n.end - n.start
                    },
                    None => false,
                },
            },
    {
        let ghost s = self.data@;
        let ghost off0 = self.offset as int;
        let n = self.data.len();
        if self.offset >= n {
            return None;
        }
        let start: usize;
        let sc_len: usize;
        let sc: AnnexBStartCode;
        let have4 = n - self.offset >= 4 && self.data[self.offset] == 0 && self.data[self.offset
            + 1] == 0 && self.data[self.offset + 2] == 0 && self.data[self.offset + 3] == 1;
        let have3 = !have4 && n - self.offset >= 3 && self.data[self.offset] == 0 && self.data[
            self.offset + 1] == 0 && self.data[self.offset + 2] == 1;
        if have4 {
            start = self.offset;
            sc_len = 4;
            sc = AnnexBStartCode::B4;
            proof {
                assert(sc3_at(s, off0 + 1));
                assert(!sc3_at(s, off0));
                lemma_first_sc3_is(s, off0, off0 + 1);
                assert(scan_result(s, off0) == Some((off0, 4int)));
            }
        } else if have3 {
            start = self.offset;
            sc_len = 3;
            sc = AnnexBStartCode::B3;
            proof {
                assert(sc3_at(s, off0));
                lemma_first_sc3_is(s, off0, off0);
                assert(scan_result(s, off0) == Some((off0, 3int)));
            }
        } else {
            // Not at a start code: scan forward for the first one; the bytes
            // before it are unframed garbage and are dropped.
            let tail = slice_subrange(self.data.as_slice(), self.offset, n);
            match find_start_code(tail) {
                Some((found, fsc, flen)) => {
                    proof {
                        lemma_scan_shift(s, off0);
                        lemma_scan_result_props(tail@, 0);
                    }
                    start = self.offset + found;
                    sc_len = flen;
                    sc = fsc;
                    proof {
                        assert(scan_result(s, off0) == Some((start as int, sc_len as int)));
                    }
                },
                None => {
                    proof {
                        lemma_scan_shift(s, off0);
                    }
                    self.offset = n;
                    return None;
                },
            }
        }
        proof {
            lemma_scan_result_props(s, off0);
        }
        let payload_start = start + sc_len;
        let payload_end: usize;
        if payload_start < n {
            let tail2 = slice_subrange(self.data.as_slice(), payload_start, n);
            match find_start_code(tail2) {
                Some((found2, _, _)) => {
                    proof {
                        lemma_scan_shift(s, payload_start as int);
                        lemma_scan_result_props(tail2@, 0);
                    }
                    payload_end = payload_start + found2;
                },
                None => {
                    proof {
                        lemma_scan_shift(s, payload_start as int);
                    }
                    payload_end = n;
                },
            }
        } else {
            proof {
                lemma_scan_result_props(s, payload_start as int);
            }
            payload_end = n;
        }
        let full = slice_to_vec(slice_subrange(self.data.as_slice(), start, payload_end));
        let nal_len = payload_end - start;
        proof {
            let c = full@.subrange(0, sc_len as int);
            if sc_len == 3 {
                assert(c =~= seq![0u8, 0u8, 1u8]) by {
                    assert(sc3_at(s, start as int));
                    assert(c[0] == s[start as int]);
                    assert(c[1] == s[start as int + 1]);
                    assert(c[2] == s[start as int + 2]);
                }
            } else {
                assert(c =~= seq![0u8, 0u8, 0u8, 1u8]) by {
                    assert(sc3_at(s, start as int + 1));
                    assert(c[0] == s[start as int]);
                    assert(c[1] == s[start as int + 1]);
                    assert(c[2] == s[start as int + 2]);
                    assert(c[3] == s[start as int + 3]);
                }
            }
        }
        self.offset = payload_end;
        Some(
            AnnexBData {
                payload_range: sc_len..nal_len,
                start_code: sc,
                start_code_range: 0..sc_len,
                full,
            },
        )
    }
}

proof fn lemma_spec_next_unit_props(s: Seq<u8>, off: int)
    requires
        0 <= off,
    ensures
        match spec_next_unit(s, off) {
            Some(n) => {
                &&& off <= n.start
                &&& n.sc_len == 3 || n.sc_len == 4
                &&& n.start + n.sc_len <= n.end <= s.len()
                &&& off < n.end
            },
            None => true,
        },
{
    lemma_scan_result_props(s, off);
    if off < s.len() && scan_result(s, off) is Some {
        let hit = scan_result(s, off)->Some_0;
        lemma_scan_result_props(s, hit.0 + hit.1);
    }
}

/// The whole sequence of units the splitter yields from cursor `off` until
/// the buffer is exhausted.
pub open spec fn spec_units_from(s: Seq<u8>, off: int) -> Seq<SpecNal>
    decreases s.len() - off,
    when 0 <= off
    via spec_units_from_decreases
{
    match spec_next_unit(s, off) {
        None => Seq::empty(),
        Some(n) => seq![n] + spec_units_from(s, n.end),
    }
}

#[via_fn]
proof fn spec_units_from_decreases(s: Seq<u8>, off: int) {
    lemma_spec_next_unit_props(s, off);
}

/// Once the cursor has reached the buffer's end, every further step yields
/// nothing and leaves the cursor where it is, until a reset.
pub proof fn lemma_exhausted_idempotent(s: Seq<u8>, off: int)
    requires
        off == s.len(),
    ensures
        spec_next_unit(s, off) is None,
        spec_next_offset(s, off) == off,
        spec_units_from(s, off) == Seq::<SpecNal>::empty(),
{
}

pub open spec fn sc_kind_len(k: AnnexBStartCode) -> int {
    k.spec_code().len() as int
}

/// The buffer a list of units describes: each unit's start code followed by
/// its payload, unit `i` onward.
pub open spec fn units_bytes(kinds: Seq<AnnexBStartCode>, payloads: Seq<Seq<u8>>, i: int) -> Seq<
    u8,
>
    decreases kinds.len() - i,
{
    if i < 0 || i >= kinds.len() {
        Seq::empty()
    } else {
        kinds[i].spec_code() + payloads[i] + units_bytes(kinds, payloads, i + 1)
    }
}

/// The byte offset at which unit `i` begins in the described buffer.
pub open spec fn units_offset(kinds: Seq<AnnexBStartCode>, payloads: Seq<Seq<u8>>, i: int) -> int
    decreases i,
{
    if i <= 0 {
        0
    } else {
        units_offset(kinds, payloads, i - 1) + sc_kind_len(kinds[i - 1]) + payloads[i - 1].len()
    }
}

/// No three-byte start-code pattern occurs anywhere in `p`.
pub open spec fn no_sc3_in(p: Seq<u8>) -> bool {
    forall|q: int| !sc3_at(p, q)
}

/// A well-formed unit list: payloads carry no start-code pattern, and a
/// payload before a three-byte code does not end in a zero byte (which would
/// extend that code backward into a four-byte one).
pub open spec fn wf_units(kinds: Seq<AnnexBStartCode>, payloads: Seq<Seq<u8>>) -> bool {
    &&& kinds.len() == payloads.len()
    &&& forall|i: int| 0 <= i < kinds.len() ==> no_sc3_in(#[trigger] payloads[i])
    &&& forall|i: int|
        0 <= i < kinds.len() - 1 && kinds[i + 1] == AnnexBStartCode::B3 ==> ((
        #[trigger] payloads[i]).len() == 0 || payloads[i][payloads[i].len() - 1] != 0)
}

proof fn lemma_abs(kinds: Seq<AnnexBStartCode>, payloads: Seq<Seq<u8>>, i: int)
    requires
        kinds.len() == payloads.len(),
        0 <= i <= kinds.len(),
    ensures
        0 <= units_offset(kinds, payloads, i),
        units_offset(kinds, payloads, i) + units_bytes(kinds, payloads, i).len() == units_bytes(
            kinds,
            payloads,
            0,
        ).len(),
        forall|d: int|
            0 <= d < units_bytes(kinds, payloads, i).len() ==> units_bytes(kinds, payloads, 0)[
                units_offset(kinds, payloads, i) + d] == #[trigger] units_bytes(
                kinds,
                payloads,
                i,
            )[d],
    decreases i,
{
    if i > 0 {
        lemma_abs(kinds, payloads, i - 1);
        let head = kinds[i - 1].spec_code() + payloads[i - 1];
        assert(units_bytes(kinds, payloads, i - 1) == head + units_bytes(kinds, payloads, i));
        assert forall|d: int| 0 <= d < units_bytes(kinds, payloads, i).len() implies units_bytes(
            kinds,
            payloads,
            0,
        )[units_offset(kinds, payloads, i) + d] == #[trigger] units_bytes(kinds, payloads, i)[d] by {
            let dd = head.len() + d;
            assert(units_bytes(kinds, payloads, i - 1)[dd] == units_bytes(kinds, payloads, i)[d]);
            assert(units_bytes(kinds, payloads, 0)[units_offset(kinds, payloads, i - 1) + dd]
                == units_bytes(kinds, payloads, i - 1)[dd]);
        }
    }
}

proof fn lemma_unit_bytes(kinds: Seq<AnnexBStartCode>, payloads: Seq<Seq<u8>>, i: int)
    requires
        kinds.len() == payloads.len(),
        0 <= i < kinds.len(),
    ensures
        0 <= units_offset(kinds, payloads, i),
        units_offset(kinds, payloads, i + 1) == units_offset(kinds, payloads, i) + sc_kind_len(
            kinds[i],
        ) + payloads[i].len(),
        units_offset(kinds, payloads, i + 1) <= units_bytes(kinds, payloads, 0).len(),
        forall|d: int|
            0 <= d < sc_kind_len(kinds[i]) + payloads[i].len() ==> units_bytes(kinds, payloads, 0)[
                units_offset(kinds, payloads, i) + d] == #[trigger] (kinds[i].spec_code()
                + payloads[i])[d],
{
    lemma_abs(kinds, payloads, i);
    let head = kinds[i].spec_code() + payloads[i];
    assert(units_bytes(kinds, payloads, i) == head + units_bytes(kinds, payloads, i + 1));
    assert forall|d: int| 0 <= d < sc_kind_len(kinds[i]) + payloads[i].len() implies units_bytes(
        kinds,
        payloads,
        0,
    )[units_offset(kinds, payloads, i) + d] == #[trigger] head[d] by {
        assert(units_bytes(kinds, payloads, i)[d] == head[d]);
        assert(units_bytes(kinds, payloads, 0)[units_offset(kinds, payloads, i) + d]
            == units_bytes(kinds, payloads, i)[d]);
    }
}

/// At the start of unit `i`, one splitter step yields exactly that unit.
#[verifier::rlimit(100)]
proof fn lemma_step(kinds: Seq<AnnexBStartCode>, payloads: Seq<Seq<u8>>, i: int)
    requires
        wf_units(kinds, payloads),
        0 <= i < kinds.len(),
    ensures
        spec_next_unit(units_bytes(kinds, payloads, 0), units_offset(kinds, payloads, i)) == Some(
            SpecNal {
                start: units_offset(kinds, payloads, i),
                sc_len: sc_kind_len(kinds[i]),
                end: units_offset(kinds, payloads, i + 1),
            },
        ),
{
    let s = units_bytes(kinds, payloads, 0);
    let off = units_offset(kinds, payloads, i);
    let kl = sc_kind_len(kinds[i]);
    let pl = payloads[i].len() as int;
    let e = off + kl + pl;
    lemma_unit_bytes(kinds, payloads, i);
    let head = kinds[i].spec_code() + payloads[i];
    let t = if kinds[i] == AnnexBStartCode::B4 {
        off + 1
    } else {
        off
    };
    assert(sc3_at(s, t)) by {
        assert(s[t] == head[t - off]);
        assert(s[t + 1] == head[t - off + 1]);
        assert(s[t + 2] == head[t - off + 2]);
    }
    if kinds[i] == AnnexBStartCode::B4 {
        assert(!sc3_at(s, off)) by {
            assert(s[off + 2] == head[2]);
        }
    }
    lemma_first_sc3_is(s, off, t);
    assert(scan_result(s, off) == Some((off, kl))) by {
        if kinds[i] == AnnexBStartCode::B4 {
            assert(s[t - 1] == head[0]);
        }
    }
    let pstart = off + kl;
    // No pattern begins inside the payload or spans into the next code's
    // leading zeros.
    assert forall|q: int| pstart <= q < e implies !sc3_at(s, q) by {
        if sc3_at(s, q) {
            if q + 3 <= e {
                assert(s[q] == head[q - off]);
                assert(s[q + 1] == head[q - off + 1]);
                assert(s[q + 2] == head[q - off + 2]);
                assert(head[q - off] == payloads[i][q - pstart]);
                assert(head[q - off + 1] == payloads[i][q - pstart + 1]);
                assert(head[q - off + 2] == payloads[i][q - pstart + 2]);
                assert(sc3_at(payloads[i], q - pstart));
                assert(no_sc3_in(payloads[i]));
            } else if i + 1 < kinds.len() {
                lemma_unit_bytes(kinds, payloads, i + 1);
                // the window's last byte falls on one of the next unit's two
                // leading zeros, so it cannot be the 1 a pattern needs
                assert(s[q + 2] == (kinds[i + 1].spec_code() + payloads[i + 1])[q + 2 - e]);
                assert((kinds[i + 1].spec_code() + payloads[i + 1])[q + 2 - e] == 0);
            } else {
                assert(units_offset(kinds, payloads, i + 1) + units_bytes(
                    kinds,
                    payloads,
                    i + 1,
                ).len() == s.len()) by {
                    lemma_abs(kinds, payloads, i + 1);
                }
                assert(s.len() == e);
            }
        }
    }
    if i + 1 < kinds.len() {
        lemma_unit_bytes(kinds, payloads, i + 1);
        let t2 = if kinds[i + 1] == AnnexBStartCode::B4 {
            e + 1
        } else {
            e
        };
        assert(sc3_at(s, t2)) by {
            assert((kinds[i + 1].spec_code() + payloads[i + 1])[t2 - e] == 0);
            assert((kinds[i + 1].spec_code() + payloads[i + 1])[t2 - e + 1] == 0);
            assert((kinds[i + 1].spec_code() + payloads[i + 1])[t2 - e + 2] == 1);
        }
        if kinds[i + 1] == AnnexBStartCode::B4 {
            assert(!sc3_at(s, e)) by {
                assert(s[e + 2] == (kinds[i + 1].spec_code() + payloads[i + 1])[2]);
            }
        }
        assert forall|r: int| pstart <= r < t2 implies !sc3_at(s, r) by {
            if r < e {
                assert(!sc3_at(s, r));
            }
        }
        lemma_first_sc3_is(s, pstart, t2);
        assert(scan_result(s, pstart) == Some((e, sc_kind_len(kinds[i + 1])))) by {
            if kinds[i + 1] == AnnexBStartCode::B4 {
                assert(s[t2 - 1] == (kinds[i + 1].spec_code() + payloads[i + 1])[0]);
            } else {
                if t2 > pstart {
                    assert(s[t2 - 1] == head[kl + pl - 1]);
                    assert(head[kl + pl - 1] == payloads[i][pl - 1]);
                    assert(payloads[i][pl - 1] != 0);
                }
            }
        }
    } else {
        lemma_abs(kinds, payloads, i + 1);
        assert(s.len() == e);
        assert(!has_sc3_from(s, pstart)) by {
            if has_sc3_from(s, pstart) {
                let q = choose|q: int| pstart <= q && sc3_at(s, q);
                assert(q + 3 <= e);
                assert(!sc3_at(s, q));
            }
        }
        assert(scan_result(s, pstart) is None);
    }
    assert(off < s.len()) by {
        lemma_abs(kinds, payloads, i + 1);
    }
}

/// From the start of unit `i`, the splitter yields exactly the units `i`
/// onward, each with its own start-code kind and extent, and nothing more.
proof fn lemma_yields_suffix(kinds: Seq<AnnexBStartCode>, payloads: Seq<Seq<u8>>, i: int)
    requires
        wf_units(kinds, payloads),
        0 <= i <= kinds.len(),
    ensures
        ({
            let s = units_bytes(kinds, payloads, 0);
            let us = spec_units_from(s, units_offset(kinds, payloads, i));
            &&& us.len() == kinds.len() - i
            &&& forall|j: int|
                0 <= j < us.len() ==> {
                    &&& (#[trigger] us[j]).start == units_offset(kinds, payloads, i + j)
                    &&& us[j].sc_len == sc_kind_len(kinds[i + j])
                    &&& us[j].end == units_offset(kinds, payloads, i + j + 1)
                }
        }),
    decreases kinds.len() - i,
{
    let s = units_bytes(kinds, payloads, 0);
    let off = units_offset(kinds, payloads, i);
    lemma_abs(kinds, payloads, i);
    if i == kinds.len() {
        assert(off == s.len());
        assert(spec_units_from(s, off) =~= Seq::<SpecNal>::empty());
    } else {
        lemma_step(kinds, payloads, i);
        lemma_yields_suffix(kinds, payloads, i + 1);
        let n = SpecNal {
            start: off,
            sc_len: sc_kind_len(kinds[i]),
            end: units_offset(kinds, payloads, i + 1),
        };
        let rest = spec_units_from(s, units_offset(kinds, payloads, i + 1));
        assert(spec_units_from(s, off) == seq![n] + rest);
        let us = spec_units_from(s, off);
        assert forall|j: int| 0 <= j < us.len() implies {
            &&& (#[trigger] us[j]).start == units_offset(kinds, payloads, i + j)
            &&& us[j].sc_len == sc_kind_len(kinds[i + j])
            &&& us[j].end == units_offset(kinds, payloads, i + j + 1)
        } by {
            if j == 0 {
                assert(us[0] == n);
            } else {
                assert(us[j] == rest[j - 1]);
            }
        }
    }
}

/// For a buffer holding a well-formed list of start-code-delimited units
/// with no leading garbage, the splitter yields exactly those units, in
/// order, each carrying its own start-code kind and payload bytes, and
/// nothing after them.
pub proof fn lemma_splitter_yields_units(kinds: Seq<AnnexBStartCode>, payloads: Seq<Seq<u8>>)
    requires
        wf_units(kinds, payloads),
    ensures
        ({
            let s = units_bytes(kinds, payloads, 0);
            let us = spec_units_from(s, 0);
            &&& us.len() == kinds.len()
            &&& forall|j: int|
                0 <= j < us.len() ==> {
                    &&& (#[trigger] us[j]).start == units_offset(kinds, payloads, j)
                    &&& us[j].sc_len == sc_kind_len(kinds[j])
                    &&& us[j].end == units_offset(kinds, payloads, j + 1)
                    &&& s.subrange(us[j].start + us[j].sc_len, us[j].end) == payloads[j]
                }
        }),
{
    lemma_yields_suffix(kinds, payloads, 0);
    let s = units_bytes(kinds, payloads, 0);
    let us = spec_units_from(s, 0);
    assert forall|j: int| 0 <= j < us.len() implies s.subrange(
        (#[trigger] us[j]).start + us[j].sc_len,
        us[j].end,
    ) == payloads[j] by {
        lemma_unit_bytes(kinds, payloads, j);
        let head = kinds[j].spec_code() + payloads[j];
        let off = units_offset(kinds, payloads, j);
        let kl = sc_kind_len(kinds[j]);
        let sub = s.subrange(off + kl, units_offset(kinds, payloads, j + 1));
        assert forall|d: int| 0 <= d < payloads[j].len() implies sub[d] == payloads[j][d] by {
            assert(s[off + kl + d] == head[kl + d]);
            assert(head[kl + d] == payloads[j][d]);
        }
        assert(sub =~= payloads[j]);
    }
}

} // verus!
