//! Reading the protobuf fields of Biome records: where the protobuf content
//! of an App.InFocus slot ends, and the fields of a wifi connection record.
use vstd::prelude::*;

use crate::segb::{find_bytes, lemma_find_bytes};
use prost::encoding::WireType;

verus! {

// ---------------------------------------------------------------------------
// prost
// ---------------------------------------------------------------------------

/// The LEB128 varint at the start of `buf`, read from at most `k` bytes: its
/// value and its length. Each byte gives seven bits, least significant
/// first; a byte below 0x80 ends it.
pub open spec fn leb128(buf: Seq<u8>, k: nat) -> Option<(nat, nat)>
    decreases k,
{
    if k == 0 || buf.len() == 0 {
        None
    } else if buf[0] < 128 {
        Some((buf[0] as nat, 1))
    } else {
        match leb128(buf.drop_first(), (k - 1) as nat) {
            Some((v, n)) => Some((((buf[0] - 128) + 128 * v) as nat, n + 1)),
            None => None,
        }
    }
}

/// What `prost::encoding::decode_varint` reads at the start of `buf`: the
/// value (`None` on an error) and the number of bytes it consumed. A varint
/// is at most ten bytes and must fit in a `u64`; on an error nothing is
/// consumed, except when the buffer ends, within ten bytes, before the
/// varint does: then all of it is.
pub open spec fn prost_varint(buf: Seq<u8>) -> (Option<u64>, nat) {
    match leb128(buf, 10) {
        Some((v, n)) => if v <= u64::MAX {
            (Some(v as u64), n)
        } else {
            (None, 0)
        },
        None => if 1 <= buf.len() <= 10 && buf.last() >= 128 {
            (None, buf.len())
        } else {
            (None, 0)
        },
    }
}

/// What `prost::encoding::decode_key` reads at the start of `buf`: the field
/// number and wire type (0 varint, 1 64-bit, 2 length-delimited, 3 start
/// group, 4 end group, 5 32-bit), or `None` on an error, and the number of
/// bytes it consumed. The key is a varint of at most `u32::MAX`, its low three
/// bits the wire type and the rest the field number, which must be at least 1.
pub open spec fn prost_key(buf: Seq<u8>) -> (Option<(u32, u8)>, nat) {
    let (v, n) = prost_varint(buf);
    match v {
        Some(key) => if key <= u32::MAX && key % 8 <= 5 && key / 8 >= 1 {
            (Some(((key / 8) as u32, (key % 8) as u8)), n)
        } else {
            (None, n)
        },
        None => (None, n),
    }
}

/// Reads a varint at `buf[from..]` with `prost::encoding::decode_varint`;
/// returns the value (`None` on an error) and the position after the bytes
/// it consumed. As `prost_varint` states; a successful read consumes at least
/// one byte, and no read goes past the end of the buffer.
#[verifier::external_body]
fn decode_varint_at(buf: &[u8], from: usize) -> (r: (Option<u64>, usize))
    requires
        from <= buf@.len(),
    ensures
        r.0 == prost_varint(buf@.subrange(from as int, buf@.len() as int)).0,
        r.1 == from + prost_varint(buf@.subrange(from as int, buf@.len() as int)).1,
        r.1 <= buf@.len(),
        r.0 is Some ==> r.1 > from,
{
    let mut cursor: &[u8] = &buf[from..];
    let value = prost::encoding::decode_varint(&mut cursor).ok();
    (value, buf.len() - cursor.len())
}

/// Reads a field key at `buf[from..]` with `prost::encoding::decode_key`;
/// returns the field number and wire type code (`None` on an error) and the
/// position after the bytes it consumed, as `prost_key` states; a successful
/// read consumes at least one byte and gives a field number of at least 1
/// and a wire type of at most 5.
#[verifier::external_body]
fn decode_key_at(buf: &[u8], from: usize) -> (r: (Option<(u32, u8)>, usize))
    requires
        from <= buf@.len(),
    ensures
        r.0 == prost_key(buf@.subrange(from as int, buf@.len() as int)).0,
        r.1 == from + prost_key(buf@.subrange(from as int, buf@.len() as int)).1,
        r.1 <= buf@.len(),
        r.0 matches Some((tag, wire)) ==> r.1 > from && tag >= 1 && wire <= 5,
{
    let mut cursor: &[u8] = &buf[from..];
    let key = match prost::encoding::decode_key(&mut cursor) {
        Ok((tag, WireType::Varint)) => Some((tag, 0u8)),
        Ok((tag, WireType::SixtyFourBit)) => Some((tag, 1u8)),
        Ok((tag, WireType::LengthDelimited)) => Some((tag, 2u8)),
        Ok((tag, WireType::StartGroup)) => Some((tag, 3u8)),
        Ok((tag, WireType::EndGroup)) => Some((tag, 4u8)),
        Ok((tag, WireType::ThirtyTwoBit)) => Some((tag, 5u8)),
        Err(_) => None,
    };
    (key, buf.len() - cursor.len())
}

// ---------------------------------------------------------------------------
// App.InFocus slots
// ---------------------------------------------------------------------------

/// The wire type the App.InFocus schema declares for a field.
pub open spec fn infocus_wire(field: u32) -> Option<u8> {
    if field == 2 || field == 3 || field == 13 || field == 11 || field == 12 {
        Some(0)
    } else if field == 4 {
        Some(1)
    } else if field == 6 || field == 9 || field == 10 {
        Some(2)
    } else {
        None
    }
}

fn expected_wire(field: u32) -> (r: Option<u8>)
    ensures
        r == infocus_wire(field),
{
    if field == 2 || field == 3 || field == 13 || field == 11 || field == 12 {
        Some(0)
    } else if field == 4 {
        Some(1)
    } else if field == 6 || field == 9 || field == 10 {
        Some(2)
    } else {
        None
    }
}

/// Where the protobuf content of an App.InFocus slot that starts at `p`
/// ends: fields are read one after the other until a key cannot be read, a
/// field has another wire type than the schema declares, or its value does
/// not fit in the slot (zero padding and the trailing CRC are not fields).
pub open spec fn proto_end_from(slot: Seq<u8>, p: int) -> int
    decreases slot.len() - p,
{
    if p < 0 || p >= slot.len() + 1 {
        p
    } else {
        let (key, n) = prost_key(slot.subrange(p, slot.len() as int));
        let q = p + n;
        match key {
            None => p,
            Some((field, wire)) => if n < 1 || q > slot.len() || (infocus_wire(field) is Some
                && infocus_wire(field) != Some(wire)) {
                p
            } else if wire == 0 {
                let (v, m) = prost_varint(slot.subrange(q, slot.len() as int));
                if v is None || q + m > slot.len() {
                    p
                } else {
                    proto_end_from(slot, q + m)
                }
            } else if wire == 1 {
                if slot.len() - q < 8 {
                    p
                } else {
                    proto_end_from(slot, q + 8)
                }
            } else if wire == 2 {
                let (v, m) = prost_varint(slot.subrange(q, slot.len() as int));
                let r = q + m;
                match v {
                    None => p,
                    Some(l) => if m < 1 || r > slot.len() || slot.len() - r < l {
                        p
                    } else {
                        proto_end_from(slot, r + l)
                    },
                }
            } else if wire == 5 {
                if slot.len() - q < 4 {
                    p
                } else {
                    proto_end_from(slot, q + 4)
                }
            } else {
                p
            }
        }
    }
}

/// The length of the protobuf content at the start of an App.InFocus slot
/// (protobuf bytes, then zero padding, then a 4-byte CRC).
pub fn infocus_proto_len(slot: &[u8]) -> (r: usize)
    ensures
        r == proto_end_from(slot@, 0),
        r <= slot@.len(),
{
    let mut p: usize = 0;
    loop
        invariant
            p <= slot@.len(),
            proto_end_from(slot@, p as int) == proto_end_from(slot@, 0),
        decreases slot@.len() - p,
    {
        let (key, q) = decode_key_at(slot, p);
        let (field, wire) = match key {
            None => return p,
            Some(k) => k,
        };
        match expected_wire(field) {
            Some(w) => {
                if w != wire {
                    return p;
                }
            },
            None => {},
        }
        if wire == 0 {
            let (v, next) = decode_varint_at(slot, q);
            if v.is_none() {
                return p;
            }
            p = next;
        } else if wire == 1 {
            if slot.len() - q < 8 {
                return p;
            }
            p = q + 8;
        } else if wire == 2 {
            let (v, r) = decode_varint_at(slot, q);
            let l: u64 = match v {
                None => return p,
                Some(l) => l,
            };
            if ((slot.len() - r) as u64) < l {
                return p;
            }
            p = r + (l as usize);
        } else if wire == 5 {
            if slot.len() - q < 4 {
                return p;
            }
            p = q + 4;
        } else {
            return p;
        }
    }
}

// ---------------------------------------------------------------------------
// Wifi connection records
// ---------------------------------------------------------------------------

/// The UTF-8 text of `bytes`, as `std::str::from_utf8` decodes it.
pub uninterp spec fn utf8_text(bytes: Seq<u8>) -> Option<Seq<char>>;

/// Decodes UTF-8 text with `std::str::from_utf8`; named `utf8_text`. The
/// text it gives is a view of the same bytes, each character taking one to
/// four of them: no bytes make the empty text, and text from some bytes is
/// not empty and has at most as many characters as bytes.
#[verifier::external_body]
fn str_from_utf8(bytes: &[u8]) -> (r: Option<String>)
    ensures
        match utf8_text(bytes@) {
            Some(t) => r matches Some(s) && s@ == t,
            None => r is None,
        },
        r is Some ==> r->0@.len() <= bytes@.len(),
        r is Some ==> (r->0@.len() == 0 <==> bytes@.len() == 0),
        bytes@.len() == 0 ==> r is Some,
{
    std::str::from_utf8(bytes).ok().map(|s| s.to_owned())
}

/// The little-endian `u64` of 8 bytes.
pub open spec fn le_u64(b: Seq<u8>) -> nat
    decreases b.len(),
{
    if b.len() == 0 {
        0
    } else {
        b[0] as nat + 256 * le_u64(b.drop_first())
    }
}

/// The fields of a wifi connection record: the bits of the start and end
/// times (little-endian doubles, Cocoa seconds) and the SSID.
#[derive(Debug, Clone)]
pub struct WifiFields {
    pub start_bits: Option<u64>,
    pub end_bits: Option<u64>,
    pub ssid: Option<String>,
}

/// A read position and the fields read so far.
pub struct WifiScan {
    pub pos: int,
    pub start_bits: Option<u64>,
    pub end_bits: Option<u64>,
    pub ssid: Option<Seq<char>>,
}

/// The SSID read from an SSID wrapper `buf` from `p` on, starting from
/// `ssid`: field 3 (length-delimited) holds it; other fields are skipped.
pub open spec fn scan_ssid(buf: Seq<u8>, p: int, ssid: Option<Seq<char>>) -> Option<Seq<char>>
    decreases buf.len() - p,
{
    if p < 0 || p >= buf.len() {
        ssid
    } else {
        let (key, n) = prost_key(buf.subrange(p, buf.len() as int));
        let q = p + n;
        match key {
            None => ssid,
            Some((f, w)) => if n < 1 || q > buf.len() {
                ssid
            } else if w == 2 {
                let (v, m) = prost_varint(buf.subrange(q, buf.len() as int));
                let r = q + m;
                match v {
                    Some(l) => if m >= 1 && r <= buf.len() && buf.len() - r >= l {
                        let s2 = if f == 3 {
                            utf8_text(buf.subrange(r, r + l))
                        } else {
                            ssid
                        };
                        scan_ssid(buf, r + l, s2)
                    } else {
                        scan_ssid(buf, q, ssid)
                    },
                    None => scan_ssid(buf, q, ssid),
                }
            } else if w == 1 {
                if buf.len() - q < 8 {
                    ssid
                } else {
                    scan_ssid(buf, q + 8, ssid)
                }
            } else if w == 5 {
                if buf.len() - q < 4 {
                    ssid
                } else {
                    scan_ssid(buf, q + 4, ssid)
                }
            } else if w == 0 {
                let (v, m) = prost_varint(buf.subrange(q, buf.len() as int));
                if q + m > buf.len() {
                    ssid
                } else {
                    scan_ssid(buf, q + m, ssid)
                }
            } else {
                ssid
            }
        }
    }
}

/// The length-delimited value at `q`: its bounds, if its length can be read
/// and it fits in `buf`.
pub open spec fn len_value(buf: Seq<u8>, q: int) -> Option<(int, int)> {
    let (v, m) = prost_varint(buf.subrange(q, buf.len() as int));
    let r = q + m;
    match v {
        Some(l) => if m >= 1 && r <= buf.len() && buf.len() - r >= l {
            Some((r, r + l))
        } else {
            None
        },
        None => None,
    }
}

/// The 8 bytes at `q` as a little-endian `u64`, if there are 8.
pub open spec fn bits_at(buf: Seq<u8>, q: int) -> Option<u64> {
    if buf.len() - q < 8 {
        None
    } else {
        Some(le_u64(buf.subrange(q, q + 8)) as u64)
    }
}

/// Reads the fields of a wifi connection record from `st.pos` on, until all
/// three are known or a field cannot be read: field 2 (64-bit) is the start,
/// field 3 (64-bit) the end, field 4 (length-delimited) wraps the SSID;
/// other fields are skipped.
pub open spec fn scan_wifi(buf: Seq<u8>, st: WifiScan) -> WifiScan
    decreases buf.len() - st.pos,
{
    if st.pos < 0 || st.pos >= buf.len() || (st.start_bits is Some && st.end_bits is Some
        && st.ssid is Some) {
        st
    } else {
        let (key, n) = prost_key(buf.subrange(st.pos, buf.len() as int));
        let q = st.pos + n;
        match key {
            None => st,
            Some((f, w)) => if n < 1 || q > buf.len() {
                st
            } else if f == 2 && w == 1 {
                let next = if buf.len() - q < 8 {
                    q
                } else {
                    q + 8
                };
                scan_wifi(buf, WifiScan { pos: next, start_bits: bits_at(buf, q), ..st })
            } else if f == 3 && w == 1 {
                let next = if buf.len() - q < 8 {
                    q
                } else {
                    q + 8
                };
                scan_wifi(buf, WifiScan { pos: next, end_bits: bits_at(buf, q), ..st })
            } else if w == 2 {
                match len_value(buf, q) {
                    Some((a, b)) => if f == 4 {
                        scan_wifi(
                            buf,
                            WifiScan {
                                pos: b,
                                ssid: scan_ssid(buf.subrange(a, b), 0, st.ssid),
                                ..st
                            },
                        )
                    } else {
                        scan_wifi(buf, WifiScan { pos: b, ..st })
                    },
                    None => scan_wifi(buf, WifiScan { pos: q, ..st }),
                }
            } else if w == 1 {
                if buf.len() - q < 8 {
                    st
                } else {
                    scan_wifi(buf, WifiScan { pos: q + 8, ..st })
                }
            } else if w == 5 {
                if buf.len() - q < 4 {
                    st
                } else {
                    scan_wifi(buf, WifiScan { pos: q + 4, ..st })
                }
            } else if w == 0 {
                let (v, m) = prost_varint(buf.subrange(q, buf.len() as int));
                if q + m > buf.len() {
                    st
                } else {
                    scan_wifi(buf, WifiScan { pos: q + m, ..st })
                }
            } else {
                st
            }
        }
    }
}

/// The fields of the wifi connection record at the start of `buf`.
pub open spec fn wifi_fields(buf: Seq<u8>) -> WifiScan {
    scan_wifi(buf, WifiScan { pos: 0, start_bits: None, end_bits: None, ssid: None })
}

pub open spec fn opt_view(o: Option<String>) -> Option<Seq<char>> {
    match o {
        Some(s) => Some(s@),
        None => None,
    }
}

pub open spec fn pow256(n: nat) -> nat
    decreases n,
{
    if n == 0 {
        1
    } else {
        256 * pow256((n - 1) as nat)
    }
}

proof fn lemma_pow256_mono(a: nat, b: nat)
    requires
        a <= b,
    ensures
        pow256(a) <= pow256(b),
    decreases b,
{
    if a < b {
        lemma_pow256_mono(a, (b - 1) as nat);
    }
}

proof fn lemma_le_u64_bound(b: Seq<u8>)
    ensures
        le_u64(b) < pow256(b.len()),
    decreases b.len(),
{
    if b.len() > 0 {
        lemma_le_u64_bound(b.drop_first());
        assert(b[0] as nat + 256 * le_u64(b.drop_first()) < 256 * pow256((b.len() - 1) as nat))
            by (nonlinear_arith)
            requires
                le_u64(b.drop_first()) < pow256((b.len() - 1) as nat),
                b[0] < 256,
        ;
    }
}

fn read_bits(buf: &[u8], q: usize) -> (r: Option<u64>)
    requires
        q <= buf@.len(),
    ensures
        r == bits_at(buf@, q as int),
{
    if buf.len() - q < 8 {
        return None;
    }
    let mut v: u128 = 0;
    let mut i: usize = 8;
    proof {
        assert(buf@.subrange(q + 8, q + 8) =~= Seq::<u8>::empty());
    }
    while i > 0
        invariant
            i <= 8,
            q + 8 <= buf@.len(),
            buf@.len() == buf.len(),
            v == le_u64(buf@.subrange(q + i, q + 8)),
            v < pow256((8 - i) as nat),
        decreases i,
    {
        proof {
            assert(buf@.subrange(q + i - 1, q + 8).drop_first() =~= buf@.subrange(q + i, q + 8));
            lemma_le_u64_bound(buf@.subrange(q + i - 1, q + 8));
            reveal_with_fuel(pow256, 9);
            lemma_pow256_mono((8 - i) as nat, 7);
            assert(pow256(7) == 72057594037927936);
        }
        let byte: u8 = buf[q + i - 1];
        assert(v < 72057594037927936);
        v = (byte as u128) + 256 * v;
        i = i - 1;
    }
    proof {
        reveal_with_fuel(pow256, 9);
        assert(pow256(8) == 18446744073709551616);
    }
    Some(v as u64)
}

fn copy_range(buf: &[u8], a: usize, b: usize) -> (r: Vec<u8>)
    requires
        a <= b <= buf@.len(),
    ensures
        r@ == buf@.subrange(a as int, b as int),
{
    let mut out: Vec<u8> = Vec::new();
    let mut k: usize = a;
    while k < b
        invariant
            a <= k <= b <= buf@.len(),
            out@ == buf@.subrange(a as int, k as int),
        decreases b - k,
    {
        out.push(buf[k]);
        proof {
            assert(buf@.subrange(a as int, k + 1) =~= buf@.subrange(a as int, k as int).push(
                buf@[k as int],
            ));
        }
        k = k + 1;
    }
    out
}

fn read_len(buf: &[u8], q: usize) -> (r: Option<(usize, usize)>)
    requires
        q <= buf@.len(),
    ensures
        match len_value(buf@, q as int) {
            Some((a, b)) => r == Some((a as usize, b as usize)) && a <= b <= buf@.len(),
            None => r is None,
        },
{
    let (v, r) = decode_varint_at(buf, q);
    match v {
        Some(l) => {
            if r > q && ((buf.len() - r) as u64) >= l {
                Some((r, r + (l as usize)))
            } else {
                None
            }
        },
        None => None,
    }
}

fn ssid_of(inner: &Vec<u8>, ssid: Option<String>) -> (r: Option<String>)
    ensures
        opt_view(r) == scan_ssid(inner@, 0, opt_view(ssid)),
{
    let mut s = ssid;
    let mut p: usize = 0;
    loop
        invariant
            p <= inner@.len(),
            scan_ssid(inner@, p as int, opt_view(s)) == scan_ssid(inner@, 0, opt_view(ssid)),
        decreases inner@.len() - p,
    {
        if p >= inner.len() {
            return s;
        }
        let (key, q) = decode_key_at(inner.as_slice(), p);
        let (f, w) = match key {
            None => return s,
            Some(k) => k,
        };
        if w == 2 {
            match read_len(inner.as_slice(), q) {
                Some((a, b)) => {
                    if f == 3 {
                        let bytes = copy_range(inner.as_slice(), a, b);
                        s = str_from_utf8(bytes.as_slice());
                    }
                    p = b;
                },
                None => {
                    p = q;
                },
            }
        } else if w == 1 {
            if inner.len() - q < 8 {
                return s;
            }
            p = q + 8;
        } else if w == 5 {
            if inner.len() - q < 4 {
                return s;
            }
            p = q + 4;
        } else if w == 0 {
            let (_, next) = decode_varint_at(inner.as_slice(), q);
            p = next;
        } else {
            return s;
        }
    }
}

/// Reads the start and end times (as the bits of little-endian doubles) and
/// the SSID of the wifi connection record at the start of `buf`, skipping
/// the fields it does not know.
pub fn wifi_record_fields(buf: &[u8]) -> (r: WifiFields)
    ensures
        r.start_bits == wifi_fields(buf@).start_bits,
        r.end_bits == wifi_fields(buf@).end_bits,
        opt_view(r.ssid) == wifi_fields(buf@).ssid,
{
    let mut start_bits: Option<u64> = None;
    let mut end_bits: Option<u64> = None;
    let mut ssid: Option<String> = None;
    let mut p: usize = 0;
    loop
        invariant
            p <= buf@.len(),
            scan_wifi(
                buf@,
                WifiScan { pos: p as int, start_bits, end_bits, ssid: opt_view(ssid) },
            ) == wifi_fields(buf@),
        decreases buf@.len() - p,
    {
        if p >= buf.len() || (start_bits.is_some() && end_bits.is_some() && ssid.is_some()) {
            return WifiFields { start_bits, end_bits, ssid };
        }
        let (key, q) = decode_key_at(buf, p);
        let (f, w) = match key {
            None => return WifiFields { start_bits, end_bits, ssid },
            Some(k) => k,
        };
        if f == 2 && w == 1 {
            start_bits = read_bits(buf, q);
            p = if buf.len() - q < 8 {
                q
            } else {
                q + 8
            };
        } else if f == 3 && w == 1 {
            end_bits = read_bits(buf, q);
            p = if buf.len() - q < 8 {
                q
            } else {
                q + 8
            };
        } else if w == 2 {
            match read_len(buf, q) {
                Some((a, b)) => {
                    if f == 4 {
                        let inner = copy_range(buf, a, b);
                        ssid = ssid_of(&inner, ssid);
                    }
                    p = b;
                },
                None => {
                    p = q;
                },
            }
        } else if w == 1 {
            if buf.len() - q < 8 {
                return WifiFields { start_bits, end_bits, ssid };
            }
            p = q + 8;
        } else if w == 5 {
            if buf.len() - q < 4 {
                return WifiFields { start_bits, end_bits, ssid };
            }
            p = q + 4;
        } else if w == 0 {
            let (_, next) = decode_varint_at(buf, q);
            p = next;
        } else {
            return WifiFields { start_bits, end_bits, ssid };
        }
    }
}

const WIFI_MARKER: [u8; 16] = [
    0x2f, 0x77, 0x69, 0x66, 0x69, 0x2f, 0x63, 0x6f, 0x6e, 0x6e, 0x65, 0x63, 0x74, 0x69, 0x6f, 0x6e,
];

/// The marker bytes.
pub open spec fn marker_bytes() -> Seq<u8> {
    seq![
        0x2fu8, 0x77u8, 0x69u8, 0x66u8, 0x69u8, 0x2fu8, 0x63u8, 0x6fu8, 0x6eu8, 0x6eu8, 0x65u8,
        0x63u8, 0x74u8, 0x69u8, 0x6fu8, 0x6eu8,
    ]
}

/// The windows (at most 512 bytes) after each occurrence of the marker in
/// `bytes[from..]`, occurrences not overlapping.
pub open spec fn marker_windows(bytes: Seq<u8>, from: int) -> Seq<(int, int)>
    decreases bytes.len() - from,
{
    if from < 0 || from > bytes.len() {
        Seq::empty()
    } else {
        match find_bytes(bytes.subrange(from, bytes.len() as int), marker_bytes()) {
            None => Seq::empty(),
            Some(i) => {
                proof {
                    lemma_find_bytes(bytes.subrange(from, bytes.len() as int), marker_bytes());
                }
                let start = from + i + 16;
                let end = if start + 512 <= bytes.len() {
                    start + 512
                } else {
                    bytes.len() as int
                };
                let rest = marker_windows(bytes, start);
                if start >= end {
                    rest
                } else {
                    seq![(start, end)] + rest
                }
            },
        }
    }
}

/// The byte ranges after each `/wifi/connection` marker in a Biome wifi
/// file where a connection record is read (up to 512 bytes each).
pub fn wifi_record_windows(file_bytes: &[u8]) -> (r: Vec<(usize, usize)>)
    ensures
        r@.map_values(|p: (usize, usize)| (p.0 as int, p.1 as int)) == marker_windows(
            file_bytes@,
            0,
        ),
        forall|k: int| 0 <= k < r@.len() ==> #[trigger] r@[k].0 < r@[k].1 <= file_bytes@.len(),
{
    let marker: &[u8] = &WIFI_MARKER;
    proof {
        assert(marker@ =~= marker_bytes());
    }
    let mut out: Vec<(usize, usize)> = Vec::new();
    let mut from: usize = 0;
    let ghost total = marker_windows(file_bytes@, 0);
    proof {
        assert(out@.map_values(|p: (usize, usize)| (p.0 as int, p.1 as int)) =~= Seq::<
            (int, int),
        >::empty());
    }
    loop
        invariant
            from <= file_bytes@.len(),
            marker@ == marker_bytes(),
            total == marker_windows(file_bytes@, 0),
            total =~= out@.map_values(|p: (usize, usize)| (p.0 as int, p.1 as int))
                + marker_windows(file_bytes@, from as int),
            forall|k: int| 0 <= k < out@.len() ==> #[trigger] out@[k].0 < out@[k].1 <= file_bytes@.len(),
        decreases file_bytes@.len() - from,
    {
        let ghost tail = file_bytes@.subrange(from as int, file_bytes@.len() as int);
        let i = match crate::segb::memmem_find(file_bytes, from, marker) {
            None => {
                proof {
                    assert(marker_windows(file_bytes@, from as int) =~= Seq::<(int, int)>::empty());
                }
                return out;
            },
            Some(i) => i,
        };
        proof {
            lemma_find_bytes(tail, marker_bytes());
            assert(file_bytes@.len() == file_bytes.len());
        }
        let start: usize = from + i + 16;
        let end: usize = if file_bytes.len() - start >= 512 {
            start + 512
        } else {
            file_bytes.len()
        };
        if start < end {
            let ghost before = out@;
            out.push((start, end));
            proof {
                assert(out@.map_values(|p: (usize, usize)| (p.0 as int, p.1 as int)) =~= before.map_values(
                    |p: (usize, usize)| (p.0 as int, p.1 as int),
                ).push((start as int, end as int)));
                assert forall|k: int| 0 <= k < out@.len() implies #[trigger] out@[k].0 < out@[k].1
                    <= file_bytes@.len() by {
                    if k < before.len() {
                        assert(out@[k] == before[k]);
                    } else {
                        assert(out@[k] == (start, end));
                    }
                }
            }
        }
        from = start;
    }
}

// ---------------------------------------------------------------------------
// Events
// ---------------------------------------------------------------------------

/// A single app-focus-gained event extracted from an App.InFocus record.
#[derive(Debug, Clone)]
pub struct InFocusEvent {
    pub time_ms: i64,
    pub bundle_id: String,
}

/// A wifi connection session extracted from a Biome wifi file.
#[derive(Debug, Clone)]
pub struct WifiConnectionEvent {
    pub first_ms: i64,
    pub last_ms: i64,
    pub ssid: String,
}

/// The bundle identifier of an App.InFocus record that reports a gained
/// focus (`focus_gained` is 1): its bytes decoded as UTF-8, when they are
/// UTF-8 and not empty; `None` for any other record.
pub fn gained_focus_bundle(focus_gained: i32, bundle_id: &[u8]) -> (r: Option<String>)
    ensures
        focus_gained != 1 ==> r is None,
        bundle_id@.len() == 0 ==> r is None,
        focus_gained == 1 ==> match utf8_text(bundle_id@) {
            Some(t) => if t.len() > 0 {
                r matches Some(s) && s@ == t
            } else {
                r is None
            },
            None => r is None,
        },
{
    if focus_gained != 1 {
        return None;
    }
    match str_from_utf8(bundle_id) {
        Some(s) => {
            if s.unicode_len() > 0 {
                Some(s)
            } else {
                None
            }
        },
        None => None,
    }
}

/// The connection session of a wifi record whose times (in milliseconds)
/// and SSID were read: it needs a non-empty SSID and must end after it
/// starts.
pub fn connection_event(first_ms: i64, last_ms: i64, ssid: Option<String>) -> (r: Option<
    WifiConnectionEvent,
>)
    ensures
        match ssid {
            Some(s) => if s@.len() > 0 && first_ms < last_ms {
                r matches Some(e) && e.first_ms == first_ms && e.last_ms == last_ms && e.ssid@
                    == s@
            } else {
                r is None
            },
            None => r is None,
        },
{
    match ssid {
        Some(s) => {
            if s.unicode_len() > 0 && first_ms < last_ms {
                Some(WifiConnectionEvent { first_ms, last_ms, ssid: s })
            } else {
                None
            }
        },
        None => None,
    }
}

} // verus!
