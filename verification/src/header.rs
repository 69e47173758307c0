//! Parsing of one LHA/LZH archive-entry header from a byte slice.
//!
//! LHA has four mutually incompatible header layouts (levels 0 to 3). The
//! parser accepts all four, validates their length and checksum
//! disciplines, walks the chain of extra headers, and returns one decoded
//! header record together with the number of bytes it consumed.

use vstd::prelude::*;

use crate::crc::{crc16, lemma_crc16_seq_append, lemma_crc16_seq_push, Crc16};

verus! {

/// Identifier of the "Common" extra header, which carries the CRC-16 of
/// the whole (zero-masked) header. Its CRC-16 field is always reset to 0
/// in the parsed header data; this is the necessary condition to verify
/// the header's checksum.
pub const EXT_HEADER_COMMON: u8 = 0x00;

/// Identifier of the "Filename" extra header.
pub const EXT_HEADER_FILENAME: u8 = 0x01;

/// Identifier of the "Path" extra header.
pub const EXT_HEADER_PATH: u8 = 0x02;

/// Identifier of the "Multi-disc" extra header.
pub const EXT_HEADER_MULTI_DISC: u8 = 0x39;

/// Identifier of the "Comment" extra header.
pub const EXT_HEADER_COMMENT: u8 = 0x3F;

/// Identifier of the "MS-DOS attributes" extra header.
pub const EXT_HEADER_MSDOS_ATTRS: u8 = 0x40;

/// Identifier of the "MS-DOS time" extra header.
pub const EXT_HEADER_MSDOS_TIME: u8 = 0x41;

/// Identifier of the "MS-DOS size" extra header, which upgrades the
/// 32-bit sizes to 64-bit.
pub const EXT_HEADER_MSDOS_SIZE: u8 = 0x42;

/// Identifier of the "Unix permissions" extra header.
pub const EXT_HEADER_UNIX_PERM: u8 = 0x50;

/// Identifier of the "Unix uid/gid" extra header.
pub const EXT_HEADER_UNIX_UIDGID: u8 = 0x51;

/// Identifier of the "Unix group name" extra header.
pub const EXT_HEADER_UNIX_GROUP: u8 = 0x52;

/// Identifier of the "Unix owner name" extra header.
pub const EXT_HEADER_UNIX_OWNER: u8 = 0x53;

/// Identifier of the "Unix time" extra header.
pub const EXT_HEADER_UNIX_TIME: u8 = 0x54;

/// Identifier of the "OS-9" extra header.
pub const EXT_HEADER_OS9: u8 = 0xCC;

/// Identifier of the "Extended attributes" extra header (an alias layout
/// for the MS-DOS attributes).
pub const EXT_HEADER_EXT_ATTRS: u8 = 0x7F;

/// Why a header could not be parsed.
#[derive(Clone, Copy, Debug, PartialEq, Eq, Structural)]
pub enum ParseError {
    /// The input ended before the header did.
    Truncated,
    /// The base header announces a level above 3.
    UnknownHeaderLevel,
    /// A length-consistency check failed.
    WrongHeaderSize,
    /// The level 0/1 byte-sum checksum does not match.
    InvalidHeaderLevelChecksum,
    /// The CRC-16 from the Common extra header does not match.
    WrongHeaderCrc16Checksum,
    /// An extra header is shorter than its framing minimum.
    WrongExtraHeaderSize,
    /// A second Common extra header was seen.
    DoubleCommonCrc16Header,
    /// The level 3 prolog bytes are not `[4, 0]`.
    InvalidHeader,
    /// The level 2/3 long header length does not match what was read.
    WrongLengthOfHeaders,
    /// The level 1 skip size is smaller than the extra headers.
    WrongLengthOfSkipSize,
}

/// The unsigned value of two little-endian bytes.
pub open spec fn u16_le(s: Seq<u8>) -> u16
    recommends
        s.len() == 2,
{
    (s[0] + s[1] * 0x100) as u16
}

/// The unsigned value of four little-endian bytes.
pub open spec fn u32_le(s: Seq<u8>) -> u32
    recommends
        s.len() == 4,
{
    (s[0] + s[1] * 0x100 + s[2] * 0x10000 + s[3] * 0x1000000) as u32
}

/// The unsigned value of eight little-endian bytes.
pub open spec fn u64_le(s: Seq<u8>) -> u64
    recommends
        s.len() == 8,
{
    (s[0] + s[1] * 0x100 + s[2] * 0x10000 + s[3] * 0x1000000 + s[4] * 0x100000000 + s[5]
        * 0x10000000000 + s[6] * 0x1000000000000 + s[7] * 0x100000000000000) as u64
}

/// The 8-bit wrapping sum of a byte sequence added to an initial value.
pub open spec fn sum_with(init: u8, s: Seq<u8>) -> u8
    decreases s.len(),
{
    if s.len() == 0 {
        init
    } else {
        sum_with(((init + s[0]) % 0x100) as u8, s.drop_first())
    }
}

proof fn lemma_sum_with_append(init: u8, a: Seq<u8>, b: Seq<u8>)
    ensures
        sum_with(init, a + b) == sum_with(sum_with(init, a), b),
    decreases a.len(),
{
    if a.len() == 0 {
        assert(a + b =~= b);
    } else {
        assert((a + b).drop_first() =~= a.drop_first() + b);
        lemma_sum_with_append(((init + a[0]) % 0x100) as u8, a.drop_first(), b);
    }
}

/// Reads two little-endian bytes, or nothing when the slice has another
/// length.
pub fn read_u16(slice: &[u8]) -> (r: Option<u16>)
    ensures
        slice@.len() == 2 ==> r == Some(u16_le(slice@)),
        slice@.len() != 2 ==> r is None,
{
    if slice.len() == 2 {
        Some(slice[0] as u16 + slice[1] as u16 * 0x100)
    } else {
        None
    }
}

/// Reads four little-endian bytes, or nothing when the slice has another
/// length.
pub fn read_u32(slice: &[u8]) -> (r: Option<u32>)
    ensures
        slice@.len() == 4 ==> r == Some(u32_le(slice@)),
        slice@.len() != 4 ==> r is None,
{
    if slice.len() == 4 {
        Some(
            slice[0] as u32 + slice[1] as u32 * 0x100 + slice[2] as u32 * 0x10000
                + slice[3] as u32 * 0x1000000,
        )
    } else {
        None
    }
}

/// Reads eight little-endian bytes, or nothing when the slice has another
/// length.
pub fn read_u64(slice: &[u8]) -> (r: Option<u64>)
    ensures
        slice@.len() == 8 ==> r == Some(u64_le(slice@)),
        slice@.len() != 8 ==> r is None,
{
    if slice.len() == 8 {
        Some(
            slice[0] as u64 + slice[1] as u64 * 0x100 + slice[2] as u64 * 0x10000
                + slice[3] as u64 * 0x1000000 + slice[4] as u64 * 0x100000000 + slice[5] as u64
                * 0x10000000000 + slice[6] as u64 * 0x1000000000000 + slice[7] as u64
                * 0x100000000000000,
        )
    } else {
        None
    }
}

/// The 8-bit wrapping sum of a byte slice added to an initial value.
pub fn wrapping_csum(init: u8, data: &[u8]) -> (r: u8)
    ensures
        r == sum_with(init, data@),
{
    let mut sum = init;
    let mut i: usize = 0;
    proof {
        assert(data@.subrange(0, data@.len() as int) =~= data@);
    }
    while i < data.len()
        invariant
            i <= data@.len(),
            sum_with(sum, data@.subrange(i as int, data@.len() as int)) == sum_with(init, data@),
        decreases data@.len() - i,
    {
        proof {
            assert(data@.subrange(i as int, data@.len() as int).drop_first() =~= data@.subrange(
                i as int + 1,
                data@.len() as int,
            ));
        }
        sum = ((sum as u16 + data[i] as u16) % 0x100) as u8;
        i = i + 1;
    }
    proof {
        assert(data@.subrange(data@.len() as int, data@.len() as int) =~= Seq::<u8>::empty());
    }
    sum
}

/// The width of an extra header's trailing next-length field: 4 bytes for
/// level 3, 2 bytes otherwise.
pub open spec fn rec_width(level: u8) -> int {
    if level == 3 {
        4
    } else {
        2
    }
}

/// The length of the next record, read from the trailing next-length
/// field of a record.
pub open spec fn next_len_of(rec: Seq<u8>, width: int) -> int
    recommends
        width == 2 || width == 4,
        rec.len() >= width,
{
    if width == 4 {
        u32_le(rec.subrange(rec.len() - 4, rec.len() as int)) as int
    } else {
        u16_le(rec.subrange(rec.len() - 2, rec.len() as int)) as int
    }
}

/// A retained extra-header buffer is well-formed: starting from the first
/// record's length, each record is longer than its next-length field, the
/// chain's lengths tile the buffer exactly, and the last record's
/// next-length field is zero.
pub open spec fn chain_wf(buf: Seq<u8>, len0: int, width: int) -> bool
    decreases buf.len(),
{
    if len0 <= 0 {
        buf.len() == 0 && len0 == 0
    } else if len0 > buf.len() || len0 <= width {
        false
    } else {
        chain_wf(buf.skip(len0), next_len_of(buf.subrange(0, len0), width), width)
    }
}

/// The records of a retained extra-header buffer, in chain order, each
/// including its trailing next-length field.
pub open spec fn chain_records(buf: Seq<u8>, len0: int, width: int) -> Seq<Seq<u8>>
    decreases buf.len(),
{
    if len0 <= 0 || len0 > buf.len() || len0 <= width {
        Seq::empty()
    } else {
        seq![buf.subrange(0, len0)] + chain_records(
            buf.skip(len0),
            next_len_of(buf.subrange(0, len0), width),
            width,
        )
    }
}

/// The bytes of a list of records, concatenated.
pub open spec fn recs_bytes(recs: Seq<Seq<u8>>) -> Seq<u8>
    decreases recs.len(),
{
    if recs.len() == 0 {
        Seq::empty()
    } else {
        recs[0] + recs_bytes(recs.drop_first())
    }
}

proof fn lemma_recs_bytes_push(recs: Seq<Seq<u8>>, rec: Seq<u8>)
    ensures
        recs_bytes(recs.push(rec)) == recs_bytes(recs) + rec,
    decreases recs.len(),
{
    if recs.len() == 0 {
        assert(recs.push(rec).drop_first() =~= Seq::<Seq<u8>>::empty());
        assert(recs_bytes(recs.push(rec)) == recs.push(rec)[0] + recs_bytes(
            recs.push(rec).drop_first(),
        ));
        assert(rec + Seq::<u8>::empty() =~= rec);
        assert(Seq::<u8>::empty() + rec =~= rec);
    } else {
        assert(recs.push(rec).drop_first() =~= recs.drop_first().push(rec));
        lemma_recs_bytes_push(recs.drop_first(), rec);
        assert(recs[0] + (recs_bytes(recs.drop_first()) + rec) =~= (recs[0] + recs_bytes(
            recs.drop_first(),
        )) + rec);
    }
}

/// The records a walk has already consumed, together with the pending
/// next length `cur`: starting from `len0`, each consumed record's length
/// was the pending length when it was read, and its next-length field set
/// the following one.
pub open spec fn walked_prefix(recs: Seq<Seq<u8>>, len0: int, cur: int, width: int) -> bool
    decreases recs.len(),
{
    if recs.len() == 0 {
        cur == len0
    } else {
        let last = recs.last();
        &&& walked_prefix(recs.drop_last(), len0, last.len() as int, width)
        &&& last.len() > width
        &&& next_len_of(last, width) == cur
    }
}

proof fn lemma_walked_prefix_chain(recs: Seq<Seq<u8>>, len0: int, cur: int, width: int, tb: Seq<u8>)
    requires
        walked_prefix(recs, len0, cur, width),
        chain_wf(tb, cur, width),
        width == 2 || width == 4,
    ensures
        chain_wf(recs_bytes(recs) + tb, len0, width),
        chain_records(recs_bytes(recs) + tb, len0, width) == recs + chain_records(tb, cur, width),
    decreases recs.len(),
{
    if recs.len() == 0 {
        assert(recs_bytes(recs) + tb =~= tb);
        assert(recs + chain_records(tb, cur, width) =~= chain_records(tb, cur, width));
    } else {
        let last = recs.last();
        let front = recs.drop_last();
        let tb2 = last + tb;
        assert(chain_wf(tb2, last.len() as int, width)) by {
            assert(tb2.subrange(0, last.len() as int) =~= last);
            assert(tb2.skip(last.len() as int) =~= tb);
        }
        assert(chain_records(tb2, last.len() as int, width) == seq![last] + chain_records(
            tb,
            cur,
            width,
        )) by {
            assert(tb2.subrange(0, last.len() as int) =~= last);
            assert(tb2.skip(last.len() as int) =~= tb);
        }
        lemma_walked_prefix_chain(front, len0, last.len() as int, width, tb2);
        assert(front.push(last) =~= recs);
        lemma_recs_bytes_push(front, last);
        assert(recs_bytes(front) + (last + tb) =~= recs_bytes(recs) + tb);
        assert(front + (seq![last] + chain_records(tb, cur, width)) =~= recs + chain_records(
            tb,
            cur,
            width,
        ));
    }
}

/// How one record changes the MS-DOS attributes: an "MS-DOS attributes"
/// or "Extended attributes" record with at least two payload bytes
/// replaces them.
pub open spec fn attrs_step(a: u16, rec: Seq<u8>) -> u16 {
    if rec.len() >= 3 && (rec[0] == 0x40 || rec[0] == 0x7f) {
        u16_le(rec.subrange(1, 3))
    } else {
        a
    }
}

/// The MS-DOS attributes after walking the records, last one winning.
pub open spec fn fold_attrs(recs: Seq<Seq<u8>>, a: u16) -> u16
    decreases recs.len(),
{
    if recs.len() == 0 {
        a
    } else {
        fold_attrs(recs.drop_first(), attrs_step(a, recs[0]))
    }
}

/// How one record changes the (compressed, original) sizes: an "MS-DOS
/// size" record with at least 16 payload bytes replaces both, on levels 2
/// and above only.
pub open spec fn sizes_step(sz: (u64, u64), rec: Seq<u8>, level: u8) -> (u64, u64) {
    if rec.len() >= 17 && rec[0] == 0x42 && level >= 2 {
        (u64_le(rec.subrange(1, 9)), u64_le(rec.subrange(9, 17)))
    } else {
        sz
    }
}

/// The (compressed, original) sizes after walking the records.
pub open spec fn fold_sizes(recs: Seq<Seq<u8>>, sz: (u64, u64), level: u8) -> (u64, u64)
    decreases recs.len(),
{
    if recs.len() == 0 {
        sz
    } else {
        fold_sizes(recs.drop_first(), sizes_step(sz, recs[0], level), level)
    }
}

proof fn lemma_fold_attrs_push(recs: Seq<Seq<u8>>, a: u16, rec: Seq<u8>)
    ensures
        fold_attrs(recs.push(rec), a) == attrs_step(fold_attrs(recs, a), rec),
    decreases recs.len(),
{
    if recs.len() == 0 {
        assert(recs.push(rec).drop_first() =~= Seq::<Seq<u8>>::empty());
        assert(recs.push(rec)[0] == rec);
        assert(fold_attrs(recs.push(rec), a) == fold_attrs(
            recs.push(rec).drop_first(),
            attrs_step(a, rec),
        ));
        assert(fold_attrs(Seq::<Seq<u8>>::empty(), attrs_step(a, rec)) == attrs_step(a, rec));
        assert(fold_attrs(recs, a) == a);
    } else {
        assert(recs.push(rec).drop_first() =~= recs.drop_first().push(rec));
        lemma_fold_attrs_push(recs.drop_first(), attrs_step(a, recs[0]), rec);
    }
}

proof fn lemma_fold_sizes_push(recs: Seq<Seq<u8>>, sz: (u64, u64), level: u8, rec: Seq<u8>)
    ensures
        fold_sizes(recs.push(rec), sz, level) == sizes_step(fold_sizes(recs, sz, level), rec, level),
    decreases recs.len(),
{
    if recs.len() == 0 {
        assert(recs.push(rec).drop_first() =~= Seq::<Seq<u8>>::empty());
        assert(recs.push(rec)[0] == rec);
        assert(fold_sizes(recs.push(rec), sz, level) == fold_sizes(
            recs.push(rec).drop_first(),
            sizes_step(sz, rec, level),
            level,
        ));
        assert(fold_sizes(Seq::<Seq<u8>>::empty(), sizes_step(sz, rec, level), level)
            == sizes_step(sz, rec, level));
        assert(fold_sizes(recs, sz, level) == sz);
    } else {
        assert(recs.push(rec).drop_first() =~= recs.drop_first().push(rec));
        lemma_fold_sizes_push(recs.drop_first(), sizes_step(sz, recs[0], level), level, rec);
    }
}

/// A record that carries the header CRC-16 (a "Common" extra header).
pub open spec fn is_common_rec(rec: Seq<u8>) -> bool {
    rec.len() > 0 && rec[0] == 0
}

/// Whether some record of the chain is a Common extra header.
pub open spec fn has_common(recs: Seq<Seq<u8>>) -> bool {
    exists|i: int| 0 <= i < recs.len() && is_common_rec(recs[i])
}

/// Where the extra-header region starts in the input, per level.
pub open spec fn extras_start(data: Seq<u8>) -> int {
    if data[20] == 2 {
        26
    } else if data[20] == 3 {
        32
    } else {
        data[0] + 2
    }
}

/// One decoded archive-entry header.
#[derive(Debug, Clone)]
pub struct LhaHeader {
    /// The header layout version (0 to 3).
    pub level: u8,
    /// The 5-byte compression method tag.
    pub compression: [u8; 5],
    /// The size of the compressed file data that follows the header. On
    /// level 1 this is the stored skip size minus the extra-header bytes.
    pub compressed_size: u64,
    /// The size of the file before compression.
    pub original_size: u64,
    /// The raw filename bytes (possibly empty for levels 2 and above).
    pub filename: Vec<u8>,
    /// The OS-type byte (0 for level 0 without an OS extension).
    pub os_type: u8,
    /// The MS-DOS attribute bitfield, widened from 8 bits.
    pub msdos_attrs: u16,
    /// The MS-DOS modification timestamp, as written by the producer.
    pub last_modified: u32,
    /// The CRC-16 of the file payload (not of the header).
    pub file_crc: u16,
    /// The level 0/1 extended area, kept verbatim.
    pub extended_area: Vec<u8>,
    /// The length of the first extra header (0 means no extras).
    pub first_header_len: u32,
    /// All raw extra-header records, each ending in its next-length
    /// field, with the Common header's CRC-16 field reset to zero.
    pub extra_headers: Vec<u8>,
}

/// The facts shared by all levels about a successfully parsed header.
pub open spec fn base_fields_ok(data: Seq<u8>, h: LhaHeader, n: int) -> bool {
    &&& 21 <= n <= data.len()
    &&& data[0] != 0
    &&& h.level == data[20]
    &&& h.level <= 3
    &&& h.compression@ == data.subrange(2, 7)
    &&& h.last_modified == u32_le(data.subrange(15, 19))
}

/// The facts about a successfully parsed level 0 or 1 header.
pub open spec fn low_level_ok(data: Seq<u8>, h: LhaHeader, n: int) -> bool {
    let hl = data[0] as int;
    let fl = data[21] as int;
    &&& h.filename@ == data.subrange(22, 22 + fl)
    &&& h.file_crc == u16_le(data.subrange(22 + fl, 24 + fl))
    &&& sum_with(0, data.subrange(2, hl + 2)) == data[1]
    &&& (h.level == 0 ==> {
        &&& n == hl + 2
        &&& h.first_header_len == 0
        &&& h.extra_headers@.len() == 0
        &&& (hl > 22 + fl ==> h.os_type == data[24 + fl])
        &&& (hl <= 22 + fl ==> h.os_type == 0)
        &&& (hl >= 23 + fl ==> h.extended_area@ == data.subrange(25 + fl, hl + 2))
        &&& (hl < 23 + fl ==> h.extended_area@.len() == 0)
    })
    &&& (h.level == 1 ==> {
        &&& n == hl + 2 + h.extra_headers@.len()
        &&& h.os_type == data[24 + fl]
        &&& h.extended_area@ == data.subrange(25 + fl, hl)
        &&& h.first_header_len == u16_le(data.subrange(hl, hl + 2))
    })
}

/// The facts about a successfully parsed level 2 or 3 header.
pub open spec fn high_level_ok(data: Seq<u8>, h: LhaHeader, n: int) -> bool {
    &&& h.filename@.len() == 0
    &&& h.extended_area@.len() == 0
    &&& h.file_crc == u16_le(data.subrange(21, 23))
    &&& h.os_type == data[23]
    &&& (h.level == 2 ==> {
        &&& h.first_header_len == u16_le(data.subrange(24, 26))
        &&& (n == u16_le(data.subrange(0, 2)) as int || n + 2 == u16_le(data.subrange(0, 2)) as int)
    })
    &&& (h.level == 3 ==> {
        &&& data[0] == 4
        &&& data[1] == 0
        &&& h.first_header_len == u32_le(data.subrange(28, 32))
        &&& n == u32_le(data.subrange(24, 28)) as int
    })
}

/// The facts about the extra-header chain of a successfully parsed
/// header: the retained buffer is a well-formed chain; the attributes and
/// sizes are the base values folded through the chain (with the level 1
/// skip-size correction); the buffer holds the wire bytes verbatim, save
/// that a Common record's CRC-16 field is reset to zero; and when a
/// Common record is present, the CRC-16 of the header image with that
/// field zeroed equals the value the record carried on the wire.
pub open spec fn extras_ok(data: Seq<u8>, h: LhaHeader, n: int) -> bool {
    let width = rec_width(h.level);
    let recs = chain_records(h.extra_headers@, h.first_header_len as int, width);
    let es = extras_start(data);
    let el = h.extra_headers@.len() as int;
    let c0 = u32_le(data.subrange(7, 11)) as u64;
    let o0 = u32_le(data.subrange(11, 15)) as u64;
    let folded = fold_sizes(recs, (c0, o0), h.level);
    &&& chain_wf(h.extra_headers@, h.first_header_len as int, width)
    &&& h.msdos_attrs == fold_attrs(recs, data[19] as u16)
    &&& h.original_size == folded.1
    &&& (h.level == 1 ==> el <= folded.0 && h.compressed_size == folded.0 - el)
    &&& (h.level != 1 ==> h.compressed_size == folded.0)
    &&& (h.level >= 2 ==> n == es + el || (h.level == 2 && n == es + el + 1))
    &&& (h.level < 2 ==> n == es + el)
    &&& (!has_common(recs) ==> h.extra_headers@ == data.subrange(es, es + el))
    &&& (has_common(recs) ==> exists|i: int|
        {
            &&& 0 <= i < recs.len()
            &&& is_common_rec(#[trigger] recs[i])
            &&& (forall|k: int|
                0 <= k < recs.len() && k != i ==> !is_common_rec(#[trigger] recs[k]))
            &&& {
                let off = recs_bytes(recs.take(i)).len() as int;
                &&& h.extra_headers@ == data.subrange(es, es + el).update(off + 1, 0u8).update(
                    off + 2,
                    0u8,
                )
                &&& crc16(
                    data.subrange(0, es) + h.extra_headers@ + data.subrange(es + el, n),
                ) == u16_le(data.subrange(es + off + 1, es + off + 3))
            }
        })
}

/// Joins what one walked stretch contributes (its edited bytes and the
/// CRC-16 taken from a Common record, if any) with the outcome of the
/// rest of the walk.
pub open spec fn combine_walk(
    buf: Seq<u8>,
    crc: Option<u16>,
    tail: Option<(int, Seq<u8>, Option<u16>)>,
) -> Option<(int, Seq<u8>, Option<u16>)> {
    match tail {
        None => None,
        Some(t) => Some(
            (
                t.0,
                buf + t.1,
                if crc is Some {
                    crc
                } else {
                    t.2
                },
            ),
        ),
    }
}

/// The outcome of walking the extra-header chain that starts at `pos`
/// with a pending record length `cur`: nothing when a framing check
/// fails, the chain runs past the input, or a second Common record
/// appears; otherwise the position after the chain, the retained (edited)
/// record bytes, and the CRC-16 a Common record carried on the wire.
#[verifier::opaque]
pub open spec fn spec_walk(
    data: Seq<u8>,
    e_start: int,
    pos: int,
    cur: int,
    level: u8,
    long: int,
    c0: u64,
    seen_common: bool,
) -> Option<(int, Seq<u8>, Option<u16>)>
    decreases data.len() - pos,
{
    let width = rec_width(level);
    if cur == 0 {
        Some((pos, Seq::empty(), None))
    } else if cur <= width {
        None
    } else if level >= 2 && long < pos + cur - 2 {
        None
    } else if level == 1 && c0 < pos - e_start + cur {
        None
    } else if pos < 0 || pos + cur > data.len() {
        None
    } else if data[pos] == 0 && seen_common {
        None
    } else {
        let id = data[pos];
        let rec = data.subrange(pos, pos + cur);
        let rec_e = if id == 0 {
            rec.update(1, 0u8).update(2, 0u8)
        } else {
            rec
        };
        let here_crc: Option<u16> = if id == 0 {
            Some(u16_le(data.subrange(pos + 1, pos + 3)))
        } else {
            None
        };
        combine_walk(
            rec_e,
            here_crc,
            spec_walk(
                data,
                e_start,
                pos + cur,
                next_len_of(rec_e, width),
                level,
                long,
                c0,
                seen_common || id == 0,
            ),
        )
    }
}

/// The length of the first extra header, where each level stores it.
pub open spec fn spec_first_len(data: Seq<u8>) -> int {
    if data[20] == 0 {
        0
    } else if data[20] == 1 {
        u16_le(data.subrange(data[0] as int, data[0] + 2)) as int
    } else if data[20] == 2 {
        u16_le(data.subrange(24, 26)) as int
    } else {
        u32_le(data.subrange(28, 32)) as int
    }
}

/// The announced long header length of a level 2 or 3 header, 0 below.
pub open spec fn spec_long_len(data: Seq<u8>) -> int {
    if data[20] == 2 {
        u16_le(data.subrange(0, 2)) as int
    } else if data[20] == 3 {
        u32_le(data.subrange(24, 28)) as int
    } else {
        0
    }
}

/// The checks the parser makes before it walks the extra-header chain:
/// the input reaches the level's extras region, the announced lengths
/// cover the fixed fields, the level 0/1 byte sum matches, and the level
/// 3 prolog is `[4, 0]`.
pub open spec fn frame_ok(data: Seq<u8>) -> bool {
    let hl = data[0] as int;
    let fl = data[21] as int;
    &&& data.len() >= 21
    &&& data[0] != 0
    &&& data[20] <= 3
    &&& (data[20] < 2 ==> {
        &&& data.len() >= 22
        &&& hl >= 22 + fl
        &&& (data[20] == 1 ==> hl >= 25 + fl)
        &&& data.len() >= hl + 2
        &&& sum_with(0, data.subrange(2, hl + 2)) == data[1]
    })
    &&& (data[20] == 2 ==> data.len() >= 26 && spec_long_len(data) >= 26 + spec_first_len(data))
    &&& (data[20] == 3 ==> {
        &&& data.len() >= 32
        &&& data[0] == 4
        &&& data[1] == 0
        &&& spec_long_len(data) >= 32 + spec_first_len(data)
    })
}

/// A byte string whose front is one complete, well-formed header: the
/// framing checks pass, the extra-header chain walks to its end inside
/// the input, the announced long header length matches what the chain
/// consumed (with the level 2 padding and short-count tolerances), and
/// the CRC-16 carried by a Common record matches the zero-masked header
/// image. `LhaHeader::read` succeeds on exactly these inputs.
pub open spec fn valid_header(data: Seq<u8>) -> bool {
    let level = data[20];
    let es = extras_start(data);
    let long = spec_long_len(data);
    let c0 = u32_le(data.subrange(7, 11)) as u64;
    &&& frame_ok(data)
    &&& match spec_walk(data, es, es, spec_first_len(data), level, long, c0, false) {
        None => false,
        Some(t) => {
            let pad: Seq<u8> = if level == 2 && long == t.0 + 1 {
                data.subrange(t.0, t.0 + 1)
            } else {
                Seq::empty()
            };
            &&& (level >= 2 ==> (long == t.0 || (level == 2 && ((long == t.0 + 1 && t.0 + 1
                <= data.len()) || t.0 + 2 == long))))
            &&& match t.2 {
                None => true,
                Some(v) => crc16(data.subrange(0, es) + t.1 + pad) == v,
            }
        },
    }
}

proof fn lemma_spec_walk_refused(
    data: Seq<u8>,
    e_start: int,
    pos: int,
    cur: int,
    level: u8,
    long: int,
    c0: u64,
    seen: bool,
)
    requires
        cur != 0,
        cur <= rec_width(level) || (level >= 2 && long < pos + cur - 2) || (level == 1 && c0 < pos
            - e_start + cur) || pos < 0 || pos + cur > data.len() || (data[pos] == 0 && seen),
    ensures
        spec_walk(data, e_start, pos, cur, level, long, c0, seen) is None,
{
    reveal(spec_walk);
}

proof fn lemma_spec_walk_unfold(
    data: Seq<u8>,
    e_start: int,
    pos: int,
    cur: int,
    level: u8,
    long: int,
    c0: u64,
    seen: bool,
)
    requires
        cur > rec_width(level),
        level >= 2 ==> long >= pos + cur - 2,
        level == 1 ==> c0 >= pos - e_start + cur,
        0 <= pos,
        pos + cur <= data.len(),
        !(data[pos] == 0 && seen),
    ensures
        ({
            let width = rec_width(level);
            let rec = data.subrange(pos, pos + cur);
            let rec_e = if data[pos] == 0 {
                rec.update(1, 0u8).update(2, 0u8)
            } else {
                rec
            };
            let here_crc: Option<u16> = if data[pos] == 0 {
                Some(u16_le(data.subrange(pos + 1, pos + 3)))
            } else {
                None
            };
            spec_walk(data, e_start, pos, cur, level, long, c0, seen) == combine_walk(
                rec_e,
                here_crc,
                spec_walk(
                    data,
                    e_start,
                    pos + cur,
                    next_len_of(rec_e, width),
                    level,
                    long,
                    c0,
                    seen || data[pos] == 0,
                ),
            )
        }),
{
    reveal(spec_walk);
}

proof fn lemma_walk_step_combine(
    whole: Seq<u8>,
    e_start: int,
    pos_old: int,
    cur: int,
    level: u8,
    long: int,
    c0: u64,
    buf_before: Seq<u8>,
    crc_before: Option<u16>,
    rec_edited: Seq<u8>,
    next_len: int,
    buf_new: Seq<u8>,
    crc_new: Option<u16>,
)
    requires
        cur > rec_width(level),
        level >= 2 ==> long >= pos_old + cur - 2,
        level == 1 ==> c0 >= pos_old - e_start + cur,
        0 <= pos_old,
        pos_old + cur <= whole.len(),
        !(whole[pos_old] == 0 && crc_before is Some),
        rec_edited == (if whole[pos_old] == 0 {
            whole.subrange(pos_old, pos_old + cur).update(1, 0u8).update(2, 0u8)
        } else {
            whole.subrange(pos_old, pos_old + cur)
        }),
        next_len == next_len_of(rec_edited, rec_width(level)),
        buf_new == buf_before + rec_edited,
        crc_new == (if crc_before is Some {
            crc_before
        } else if whole[pos_old] == 0 {
            Some(u16_le(whole.subrange(pos_old + 1, pos_old + 3)))
        } else {
            None::<u16>
        }),
    ensures
        combine_walk(
            buf_new,
            crc_new,
            spec_walk(whole, e_start, pos_old + cur, next_len, level, long, c0, crc_new is Some),
        ) == combine_walk(
            buf_before,
            crc_before,
            spec_walk(whole, e_start, pos_old, cur, level, long, c0, crc_before is Some),
        ),
{
    let ch: Option<u16> = if whole[pos_old] == 0 {
        Some(u16_le(whole.subrange(pos_old + 1, pos_old + 3)))
    } else {
        None
    };
    let w_next = spec_walk(
        whole,
        e_start,
        pos_old + cur,
        next_len,
        level,
        long,
        c0,
        crc_new is Some,
    );
    lemma_spec_walk_unfold(whole, e_start, pos_old, cur, level, long, c0, crc_before is Some);
    assert((crc_before is Some || whole[pos_old] == 0) == (crc_new is Some));
    assert(spec_walk(whole, e_start, pos_old, cur, level, long, c0, crc_before is Some)
        == combine_walk(rec_edited, ch, w_next));
    lemma_combine_assoc(buf_before, crc_before, rec_edited, ch, w_next);
}

proof fn lemma_combine_trivial(w: Option<(int, Seq<u8>, Option<u16>)>)
    ensures
        combine_walk(Seq::empty(), None, w) == w,
{
    if w is Some {
        assert(Seq::<u8>::empty() + w->Some_0.1 =~= w->Some_0.1);
    }
}

proof fn lemma_combine_assoc(
    a: Seq<u8>,
    ca: Option<u16>,
    b: Seq<u8>,
    cb: Option<u16>,
    w: Option<(int, Seq<u8>, Option<u16>)>,
)
    ensures
        combine_walk(a, ca, combine_walk(b, cb, w)) == combine_walk(
            a + b,
            if ca is Some {
                ca
            } else {
                cb
            },
            w,
        ),
{
    if w is Some {
        assert(a + (b + w->Some_0.1) =~= (a + b) + w->Some_0.1);
    }
}

proof fn lemma_fold_sizes_low(recs: Seq<Seq<u8>>, sz: (u64, u64), level: u8)
    requires
        level < 2,
    ensures
        fold_sizes(recs, sz, level) == sz,
    decreases recs.len(),
{
    if recs.len() > 0 {
        lemma_fold_sizes_low(recs.drop_first(), sz, level);
    }
}

/// The parser's working state over one header: the input bytes, a cursor,
/// the bytes-consumed counter, a rolling CRC-16 digest, and the 8-bit
/// wrapping sum, together with the byte sequences each accumulator has
/// seen.
struct Parser<'a> {
    data: &'a [u8],
    pos: usize,
    len: usize,
    crc: Crc16,
    csum: u8,
    digested: Ghost<Seq<u8>>,
    summed: Ghost<Seq<u8>>,
}

impl<'a> Parser<'a> {
    spec fn wf(self) -> bool {
        &&& self.pos <= self.data@.len()
        &&& self.len <= self.pos
        &&& self.len == self.digested@.len()
        &&& self.crc@ == crc16(self.digested@)
        &&& self.csum == sum_with(0, self.summed@)
    }

    /// Counts and digests bytes without updating the wrapping sum.
    fn update_checksums_no_wrapping_sum(&mut self, buf: &[u8])
        requires
            old(self).wf(),
            old(self).len + buf@.len() <= old(self).pos,
        ensures
            final(self).wf(),
            final(self).data == old(self).data,
            final(self).pos == old(self).pos,
            final(self).csum == old(self).csum,
            final(self).summed == old(self).summed,
            final(self).len == old(self).len + buf@.len(),
            final(self).digested@ == old(self).digested@ + buf@,
    {
        proof {
            lemma_crc16_seq_append(0, self.digested@, buf@);
        }
        self.len = self.len + buf.len();
        self.crc.digest(buf);
        self.digested = Ghost(self.digested@ + buf@);
    }

    /// Counts, digests and sums bytes.
    fn update_checksums(&mut self, buf: &[u8])
        requires
            old(self).wf(),
            old(self).len + buf@.len() <= old(self).pos,
        ensures
            final(self).wf(),
            final(self).data == old(self).data,
            final(self).pos == old(self).pos,
            final(self).len == old(self).len + buf@.len(),
            final(self).digested@ == old(self).digested@ + buf@,
            final(self).summed@ == old(self).summed@ + buf@,
    {
        proof {
            lemma_sum_with_append(0, self.summed@, buf@);
        }
        self.update_checksums_no_wrapping_sum(buf);
        self.csum = wrapping_csum(self.csum, buf);
        self.summed = Ghost(self.summed@ + buf@);
    }

    /// Reads the next byte, or nothing at the end of the input. The byte
    /// is counted and digested but not added to the wrapping sum.
    fn read_u8_or_none(&mut self) -> (r: Option<u8>)
        requires
            old(self).wf(),
        ensures
            final(self).wf(),
            final(self).data == old(self).data,
            final(self).summed == old(self).summed,
            old(self).pos == old(self).data@.len() ==> r is None && *final(self) == *old(self),
            old(self).pos < old(self).data@.len() ==> {
                &&& r == Some(old(self).data@[old(self).pos as int])
                &&& final(self).pos == old(self).pos + 1
                &&& final(self).len == old(self).len + 1
                &&& final(self).digested@ == old(self).digested@.push(
                    old(self).data@[old(self).pos as int],
                )
            },
    {
        if self.pos == self.data.len() {
            return None;
        }
        let b = self.data[self.pos];
        self.pos = self.pos + 1;
        self.len = self.len + 1;
        self.crc.digest_byte(b);
        proof {
            lemma_crc16_seq_push(0, self.digested@, b);
        }
        self.digested = Ghost(self.digested@.push(b));
        Some(b)
    }

    /// Reads exactly `n` bytes, counting, digesting and summing them.
    fn read_exact(&mut self, n: usize) -> (r: Result<&'a [u8], ParseError>)
        requires
            old(self).wf(),
        ensures
            final(self).wf(),
            final(self).data == old(self).data,
            match r {
                Ok(buf) => {
                    &&& old(self).pos + n <= old(self).data@.len()
                    &&& buf@ == old(self).data@.subrange(
                        old(self).pos as int,
                        old(self).pos + n,
                    )
                    &&& final(self).pos == old(self).pos + n
                    &&& final(self).len == old(self).len + n
                    &&& final(self).digested@ == old(self).digested@ + buf@
                    &&& final(self).summed@ == old(self).summed@ + buf@
                },
                Err(e) => {
                    &&& e == ParseError::Truncated
                    &&& *final(self) == *old(self)
                    &&& old(self).pos + n > old(self).data@.len()
                },
            },
    {
        if n > self.data.len() - self.pos {
            return Err(ParseError::Truncated);
        }
        let buf = vstd::slice::slice_subrange(self.data, self.pos, self.pos + n);
        self.pos = self.pos + n;
        self.update_checksums(buf);
        Ok(buf)
    }

    /// Reads one byte.
    fn read_u8(&mut self) -> (r: Result<u8, ParseError>)
        requires
            old(self).wf(),
        ensures
            final(self).wf(),
            final(self).data == old(self).data,
            match r {
                Ok(b) => {
                    &&& old(self).pos + 1 <= old(self).data@.len()
                    &&& b == old(self).data@[old(self).pos as int]
                    &&& final(self).pos == old(self).pos + 1
                    &&& final(self).len == old(self).len + 1
                    &&& final(self).digested@ == old(self).digested@.push(b)
                    &&& final(self).summed@ == old(self).summed@.push(b)
                },
                Err(e) => {
                    &&& e == ParseError::Truncated
                    &&& *final(self) == *old(self)
                    &&& old(self).pos + 1 > old(self).data@.len()
                },
            },
    {
        let buf = self.read_exact(1)?;
        proof {
            assert(old(self).digested@ + buf@ =~= old(self).digested@.push(buf@[0]));
            assert(old(self).summed@ + buf@ =~= old(self).summed@.push(buf@[0]));
        }
        Ok(buf[0])
    }

    /// Reads a 16-bit little-endian value.
    fn read_u16(&mut self) -> (r: Result<u16, ParseError>)
        requires
            old(self).wf(),
        ensures
            final(self).wf(),
            final(self).data == old(self).data,
            match r {
                Ok(v) => {
                    &&& old(self).pos + 2 <= old(self).data@.len()
                    &&& v == u16_le(
                        old(self).data@.subrange(old(self).pos as int, old(self).pos + 2),
                    )
                    &&& final(self).pos == old(self).pos + 2
                    &&& final(self).len == old(self).len + 2
                    &&& final(self).digested@ == old(self).digested@ + old(self).data@.subrange(
                        old(self).pos as int,
                        old(self).pos + 2,
                    )
                    &&& final(self).summed@ == old(self).summed@ + old(self).data@.subrange(
                        old(self).pos as int,
                        old(self).pos + 2,
                    )
                },
                Err(e) => {
                    &&& e == ParseError::Truncated
                    &&& *final(self) == *old(self)
                    &&& old(self).pos + 2 > old(self).data@.len()
                },
            },
    {
        let buf = self.read_exact(2)?;
        Ok(buf[0] as u16 + buf[1] as u16 * 0x100)
    }

    /// Reads a 32-bit little-endian value.
    fn read_u32(&mut self) -> (r: Result<u32, ParseError>)
        requires
            old(self).wf(),
        ensures
            final(self).wf(),
            final(self).data == old(self).data,
            match r {
                Ok(v) => {
                    &&& old(self).pos + 4 <= old(self).data@.len()
                    &&& v == u32_le(
                        old(self).data@.subrange(old(self).pos as int, old(self).pos + 4),
                    )
                    &&& final(self).pos == old(self).pos + 4
                    &&& final(self).len == old(self).len + 4
                    &&& final(self).digested@ == old(self).digested@ + old(self).data@.subrange(
                        old(self).pos as int,
                        old(self).pos + 4,
                    )
                    &&& final(self).summed@ == old(self).summed@ + old(self).data@.subrange(
                        old(self).pos as int,
                        old(self).pos + 4,
                    )
                },
                Err(e) => {
                    &&& e == ParseError::Truncated
                    &&& *final(self) == *old(self)
                    &&& old(self).pos + 4 > old(self).data@.len()
                },
            },
    {
        let buf = self.read_exact(4)?;
        Ok(
            buf[0] as u32 + buf[1] as u32 * 0x100 + buf[2] as u32 * 0x10000 + buf[3] as u32
                * 0x1000000,
        )
    }

    /// Reads exactly `limit` bytes into an owned buffer, counting,
    /// digesting and summing them.
    fn read_limit(&mut self, limit: usize) -> (r: Result<Vec<u8>, ParseError>)
        requires
            old(self).wf(),
        ensures
            final(self).wf(),
            final(self).data == old(self).data,
            match r {
                Ok(buf) => {
                    &&& old(self).pos + limit <= old(self).data@.len()
                    &&& buf@ == old(self).data@.subrange(
                        old(self).pos as int,
                        old(self).pos + limit,
                    )
                    &&& final(self).pos == old(self).pos + limit
                    &&& final(self).len == old(self).len + limit
                    &&& final(self).digested@ == old(self).digested@ + buf@
                    &&& final(self).summed@ == old(self).summed@ + buf@
                },
                Err(e) => {
                    &&& e == ParseError::Truncated
                    &&& *final(self) == *old(self)
                    &&& old(self).pos + limit > old(self).data@.len()
                },
            },
    {
        let buf = self.read_exact(limit)?;
        Ok(vstd::slice::slice_to_vec(buf))
    }

    /// Reads exactly `limit` bytes and appends them to `buf`, advancing
    /// the cursor but leaving every accumulator untouched.
    fn read_limit_no_checksums(&mut self, limit: usize, buf: &mut Vec<u8>) -> (r: Result<
        (),
        ParseError,
    >)
        requires
            old(self).wf(),
        ensures
            final(self).wf(),
            final(self).data == old(self).data,
            final(self).len == old(self).len,
            final(self).digested == old(self).digested,
            final(self).csum == old(self).csum,
            final(self).summed == old(self).summed,
            match r {
                Ok(_) => {
                    &&& old(self).pos + limit <= old(self).data@.len()
                    &&& final(buf)@ == old(buf)@ + old(self).data@.subrange(
                        old(self).pos as int,
                        old(self).pos + limit,
                    )
                    &&& final(self).pos == old(self).pos + limit
                },
                Err(e) => {
                    &&& e == ParseError::Truncated
                    &&& *final(self) == *old(self)
                    &&& *final(buf) == *old(buf)
                    &&& old(self).pos + limit > old(self).data@.len()
                },
            },
    {
        if limit > self.data.len() - self.pos {
            return Err(ParseError::Truncated);
        }
        let chunk = vstd::slice::slice_subrange(self.data, self.pos, self.pos + limit);
        self.pos = self.pos + limit;
        buf.extend_from_slice(chunk);
        proof {
            assert(buf@ =~= old(buf)@ + chunk@);
        }
        Ok(())
    }
}

fn vec_u16_at(v: &Vec<u8>, at: usize) -> (r: u16)
    requires
        at + 2 <= v@.len(),
    ensures
        r == u16_le(v@.subrange(at as int, at + 2)),
{
    let n = v.len();
    let r = v[at] as u16 + v[at + 1] as u16 * 0x100;
    proof {
        let s = v@.subrange(at as int, at + 2);
        assert(s[0] == v@[at as int] && s[1] == v@[at as int + 1]);
    }
    r
}

fn vec_u64_at(v: &Vec<u8>, at: usize) -> (r: u64)
    requires
        at + 8 <= v@.len(),
    ensures
        r == u64_le(v@.subrange(at as int, at + 8)),
{
    let n = v.len();
    let r = v[at] as u64 + v[at + 1] as u64 * 0x100 + v[at + 2] as u64 * 0x10000 + v[at + 3] as u64
        * 0x1000000 + v[at + 4] as u64 * 0x100000000 + v[at + 5] as u64 * 0x10000000000 + v[at
        + 6] as u64 * 0x1000000000000 + v[at + 7] as u64 * 0x100000000000000;
    proof {
        let s = v@.subrange(at as int, at + 8);
        assert(s[0] == v@[at as int] && s[1] == v@[at as int + 1] && s[2] == v@[at as int + 2]
            && s[3] == v@[at as int + 3] && s[4] == v@[at as int + 4] && s[5] == v@[at as int + 5]
            && s[6] == v@[at as int + 6] && s[7] == v@[at as int + 7]);
    }
    r
}

fn vec_u32_at(v: &Vec<u8>, at: usize) -> (r: u32)
    requires
        at + 4 <= v@.len(),
    ensures
        r == u32_le(v@.subrange(at as int, at + 4)),
{
    let n = v.len();
    let r = v[at] as u32 + v[at + 1] as u32 * 0x100 + v[at + 2] as u32 * 0x10000 + v[at + 3] as u32
        * 0x1000000;
    proof {
        let s = v@.subrange(at as int, at + 4);
        assert(s[0] == v@[at as int] && s[1] == v@[at as int + 1] && s[2] == v@[at as int + 2]
            && s[3] == v@[at as int + 3]);
    }
    r
}

fn slice_u32_at(v: &[u8], at: usize) -> (r: u32)
    requires
        at + 4 <= v@.len(),
    ensures
        r == u32_le(v@.subrange(at as int, at + 4)),
{
    let n = v.len();
    let r = v[at] as u32 + v[at + 1] as u32 * 0x100 + v[at + 2] as u32 * 0x10000 + v[at + 3] as u32
        * 0x1000000;
    proof {
        let s = v@.subrange(at as int, at + 4);
        assert(s[0] == v@[at as int] && s[1] == v@[at as int + 1] && s[2] == v@[at as int + 2]
            && s[3] == v@[at as int + 3]);
    }
    r
}

proof fn lemma_subrange_append(whole: Seq<u8>, es: int, pos: int, pos2: int)
    requires
        0 <= es <= pos <= pos2 <= whole.len(),
    ensures
        whole.subrange(es, pos) + whole.subrange(pos, pos2) == whole.subrange(es, pos2),
{
    assert(whole.subrange(es, pos) + whole.subrange(pos, pos2) =~= whole.subrange(es, pos2));
}

proof fn lemma_update_append(a: Seq<u8>, b: Seq<u8>, i: int, x: u8)
    requires
        0 <= i < a.len(),
    ensures
        a.update(i, x) + b == (a + b).update(i, x),
{
    assert(a.update(i, x) + b =~= (a + b).update(i, x));
}

proof fn lemma_append_update(a: Seq<u8>, b: Seq<u8>, j: int, x: u8)
    requires
        0 <= j < b.len(),
    ensures
        a + b.update(j, x) == (a + b).update(a.len() + j, x),
{
    assert(a + b.update(j, x) =~= (a + b).update(a.len() + j, x));
}

proof fn lemma_append_assoc(a: Seq<u8>, b: Seq<u8>, c: Seq<u8>)
    ensures
        (a + b) + c == a + (b + c),
{
    assert((a + b) + c =~= a + (b + c));
}

/// The mutable outcome of walking the extra-header chain: the attribute
/// and size fields as the records leave them, the CRC-16 taken from a
/// Common record, and the retained buffer of all records.
struct ExtrasState {
    msdos_attrs: u16,
    compressed_size: u64,
    original_size: u64,
    header_crc: Option<u16>,
    extra_headers: Vec<u8>,
    recs: Ghost<Seq<Seq<u8>>>,
    common_i: Ghost<int>,
}

/// What holds of the walk state after any number of records: the buffer
/// is the concatenation of the records seen, the attribute and size
/// fields are the folds of those records, every consumed byte has been
/// digested, and the buffer equals the wire bytes except for a Common
/// record's zeroed CRC-16 field.
spec fn extras_inv(
    st: ExtrasState,
    p: Parser,
    e_start: int,
    attrs0: u16,
    c0: u64,
    o0: u64,
    level: u8,
) -> bool {
    &&& p.wf()
    &&& p.len == p.pos
    &&& e_start <= p.pos <= p.data@.len()
    &&& p.pos == e_start + st.extra_headers@.len()
    &&& st.extra_headers@ == recs_bytes(st.recs@)
    &&& st.msdos_attrs == fold_attrs(st.recs@, attrs0)
    &&& st.compressed_size == fold_sizes(st.recs@, (c0, o0), level).0
    &&& st.original_size == fold_sizes(st.recs@, (c0, o0), level).1
    &&& p.digested@ == p.data@.subrange(0, e_start) + st.extra_headers@
    &&& (level == 1 ==> st.extra_headers@.len() <= st.compressed_size)
    &&& match st.header_crc {
        None => (forall|k: int|
            0 <= k < st.recs@.len() ==> !is_common_rec(#[trigger] st.recs@[k]))
            && st.extra_headers@ == p.data@.subrange(e_start, p.pos as int),
        Some(cv) => {
            &&& 0 <= st.common_i@ < st.recs@.len()
            &&& is_common_rec(st.recs@[st.common_i@])
            &&& (forall|k: int|
                0 <= k < st.recs@.len() && k != st.common_i@ ==> !is_common_rec(
                    #[trigger] st.recs@[k],
                ))
            &&& {
                let off = recs_bytes(st.recs@.take(st.common_i@)).len() as int;
                &&& off + 2 < st.extra_headers@.len()
                &&& st.extra_headers@ == p.data@.subrange(e_start, p.pos as int).update(
                    off + 1,
                    0u8,
                ).update(off + 2, 0u8)
                &&& cv == u16_le(p.data@.subrange(e_start + off + 1, e_start + off + 3))
            }
        },
    }
}

/// Walks the chain of extra headers, appending each raw record to the
/// retained buffer, editing the Common record's CRC-16 field to zero,
/// applying the attribute and size records, digesting the (possibly
/// edited) bytes, and following each record's trailing next-length field
/// until it is zero.
#[verifier::rlimit(100)]
#[verifier::spinoff_prover]
/// Consumes one extra-header record: checks its framing, appends its raw
/// bytes, applies the Common/attribute/size edits, digests the edited
/// bytes, and returns the next record's length.
#[verifier::rlimit(100)]
#[verifier::spinoff_prover]
fn walk_one<'a>(
    parser: &mut Parser<'a>,
    st: &mut ExtrasState,
    level: u8,
    long_header_len: u32,
    cur: usize,
    min_header_len: usize,
    Ghost(e_start): Ghost<int>,
    Ghost(c0): Ghost<u64>,
) -> (r: Result<usize, ParseError>)
    requires
        cur != 0,
        cur <= u32::MAX,
        level <= 3,
        min_header_len as int == rec_width(level) + 1,
        (level >= 2) == (long_header_len != 0),
        level == 1 ==> old(st).compressed_size == c0 && c0 <= u32::MAX,
        level == 1 ==> old(st).extra_headers@.len() <= c0,
        old(parser).wf(),
        old(parser).len == old(parser).pos,
        0 <= e_start <= old(parser).pos,
        e_start + old(st).extra_headers@.len() == old(parser).pos,
        level >= 2 ==> old(parser).len as int <= long_header_len + 2,
    ensures
        final(parser).data == old(parser).data,
        match r {
            Ok(next) => {
                let data = old(parser).data@;
                let pos_old = old(parser).pos as int;
                let rec_raw = data.subrange(pos_old, pos_old + cur);
                let id = data[pos_old];
                let rec_e = if id == 0 {
                    rec_raw.update(1, 0u8).update(2, 0u8)
                } else {
                    rec_raw
                };
                &&& cur >= min_header_len
                &&& pos_old + cur <= data.len()
                &&& (level >= 2 ==> long_header_len >= pos_old + cur - 2)
                &&& (level == 1 ==> c0 >= old(st).extra_headers@.len() + cur)
                &&& final(parser).wf()
                &&& final(parser).pos == old(parser).pos + cur
                &&& final(parser).len == final(parser).pos
                &&& final(parser).digested@ == old(parser).digested@ + rec_e
                &&& final(st).extra_headers@ == old(st).extra_headers@ + rec_e
                &&& final(st).recs@ == old(st).recs@.push(rec_e)
                &&& (id == 0 ==> old(st).header_crc is None && final(st).header_crc == Some(
                    u16_le(data.subrange(pos_old + 1, pos_old + 3)),
                ) && final(st).common_i@ == old(st).recs@.len())
                &&& (id != 0 ==> final(st).header_crc == old(st).header_crc && final(st).common_i
                    == old(st).common_i)
                &&& final(st).msdos_attrs == attrs_step(old(st).msdos_attrs, rec_e)
                &&& final(st).compressed_size == sizes_step(
                    (old(st).compressed_size, old(st).original_size),
                    rec_e,
                    level,
                ).0
                &&& final(st).original_size == sizes_step(
                    (old(st).compressed_size, old(st).original_size),
                    rec_e,
                    level,
                ).1
                &&& next as int == next_len_of(rec_e, rec_width(level))
                &&& next <= u32::MAX
                &&& (level >= 2 ==> final(parser).len as int <= long_header_len + 2)
            },
            Err(e) => {
                &&& e != ParseError::UnknownHeaderLevel
                &&& e != ParseError::InvalidHeader
                &&& spec_walk(
                    old(parser).data@,
                    e_start,
                    old(parser).pos as int,
                    cur as int,
                    level,
                    long_header_len as int,
                    c0,
                    old(st).header_crc is Some,
                ) is None
            },
        },
{
    let ghost width: int = rec_width(level);
        if cur < min_header_len {
            proof {
                lemma_spec_walk_refused(
                    parser.data@,
                    e_start,
                    parser.pos as int,
                    cur as int,
                    level,
                    long_header_len as int,
                    c0,
                    st.header_crc is Some,
                );
            }
            return Err(ParseError::WrongExtraHeaderSize);
        }
        if long_header_len != 0 {
            // check the long header length (levels 2 and 3)
            if (long_header_len as u64) < parser.len as u64 + cur as u64 - 2 {
                proof {
                    lemma_spec_walk_refused(
                        parser.data@,
                        e_start,
                        parser.pos as int,
                        cur as int,
                        level,
                        long_header_len as int,
                        c0,
                        st.header_crc is Some,
                    );
                }
                return Err(ParseError::WrongHeaderSize);
            }
        } else if level == 1 && ((st.compressed_size - st.extra_headers.len() as u64)
            < cur as u64) {
            // otherwise check the skip size (level 1)
            proof {
                lemma_spec_walk_refused(
                    parser.data@,
                    e_start,
                    parser.pos as int,
                    cur as int,
                    level,
                    long_header_len as int,
                    c0,
                    st.header_crc is Some,
                );
            }
            return Err(ParseError::WrongHeaderSize);
        }

        let ghost pos_old: int = parser.pos as int;
        match parser.read_limit_no_checksums(cur, &mut st.extra_headers) {
            Ok(_) => {},
            Err(e) => {
                proof {
                    lemma_spec_walk_refused(
                        parser.data@,
                        e_start,
                        parser.pos as int,
                        cur as int,
                        level,
                        long_header_len as int,
                        c0,
                        st.header_crc is Some,
                    );
                }
                return Err(e);
            },
        }
        let ghost buf_walk = st.extra_headers@;
        proof {
            assert(st.extra_headers@.subrange(
                st.extra_headers@.len() - cur as int,
                st.extra_headers@.len() as int,
            ) =~= parser.data@.subrange(pos_old, parser.pos as int));
        }
        match apply_record(parser, st, level, cur, Ghost(pos_old)) {
            Ok(next) => {
                proof {
                    assert((buf_walk + parser.data@.subrange(pos_old, pos_old + cur)).subrange(
                        0,
                        buf_walk.len() as int,
                    ) =~= buf_walk);
                }
                Ok(next)
            },
            Err(e) => {
                proof {
                    lemma_spec_walk_refused(
                        parser.data@,
                        e_start,
                        pos_old,
                        cur as int,
                        level,
                        long_header_len as int,
                        c0,
                        true,
                    );
                }
                Err(e)
            },
        }
    }

/// Inspects the record just appended to the retained buffer: extracts and
/// clears a Common record's CRC-16 field, applies attribute and size
/// records, digests the (possibly edited) record bytes, and reads its
/// trailing next-length field.
#[verifier::rlimit(100)]
#[verifier::spinoff_prover]
fn apply_record<'a>(
    parser: &mut Parser<'a>,
    st: &mut ExtrasState,
    level: u8,
    cur: usize,
    Ghost(pos_old): Ghost<int>,
) -> (r: Result<usize, ParseError>)
    requires
        3 <= cur <= u32::MAX,
        level <= 3,
        cur as int > rec_width(level),
        old(parser).wf(),
        old(parser).len + cur == old(parser).pos,
        pos_old == old(parser).pos - cur,
        old(st).extra_headers@.len() >= cur,
        old(st).extra_headers@.subrange(
            old(st).extra_headers@.len() - cur as int,
            old(st).extra_headers@.len() as int,
        ) == old(parser).data@.subrange(pos_old, old(parser).pos as int),
    ensures
        final(parser).data == old(parser).data,
        ({
            let data = old(parser).data@;
            let buf_b = old(st).extra_headers@.subrange(
                0,
                old(st).extra_headers@.len() - cur as int,
            );
            let rec_raw = data.subrange(pos_old, pos_old + cur);
            let id = data[pos_old];
            let rec_e: Seq<u8> = if id == 0 {
                rec_raw.update(1, 0u8).update(2, 0u8)
            } else {
                rec_raw
            };
            match r {
                Ok(next) => {
                    &&& final(parser).wf()
                    &&& final(parser).pos == old(parser).pos
                    &&& final(parser).len == final(parser).pos
                    &&& final(parser).digested@ == old(parser).digested@ + rec_e
                    &&& final(st).extra_headers@ == buf_b + rec_e
                    &&& final(st).recs@ == old(st).recs@.push(rec_e)
                    &&& (id == 0 ==> old(st).header_crc is None && final(st).header_crc == Some(
                        u16_le(data.subrange(pos_old + 1, pos_old + 3)),
                    ) && final(st).common_i@ == old(st).recs@.len())
                    &&& (id != 0 ==> final(st).header_crc == old(st).header_crc)
                    &&& (id != 0 ==> final(st).common_i == old(st).common_i)
                    &&& final(st).msdos_attrs == attrs_step(old(st).msdos_attrs, rec_e)
                    &&& final(st).compressed_size == sizes_step(
                        (old(st).compressed_size, old(st).original_size),
                        rec_e,
                        level,
                    ).0
                    &&& final(st).original_size == sizes_step(
                        (old(st).compressed_size, old(st).original_size),
                        rec_e,
                        level,
                    ).1
                    &&& next as int == next_len_of(rec_e, rec_width(level))
                    &&& next <= u32::MAX
                },
                Err(e) => {
                    &&& e == ParseError::DoubleCommonCrc16Header
                    &&& id == 0
                    &&& old(st).header_crc is Some
                    &&& *final(parser) == *old(parser)
                    &&& *final(st) == *old(st)
                },
            }
        }),
{
    let ghost width: int = rec_width(level);
    let ghost buf_before = old(st).extra_headers@.subrange(
        0,
        old(st).extra_headers@.len() - cur as int,
    );
    proof {
        assert(st.extra_headers@ =~= buf_before + parser.data@.subrange(
            pos_old,
            parser.pos as int,
        ));
    }
        let start = st.extra_headers.len() - cur;
        let id = st.extra_headers[start];
        if id == EXT_HEADER_COMMON {
            if st.header_crc.is_some() {
                proof {
                    assert(parser.data@[pos_old] == 0);
                }
                return Err(ParseError::DoubleCommonCrc16Header);
            }
            // extract the stored CRC-16 and clear its field, so that the
            // digest sees the image the producer digested
            st.header_crc = Some(vec_u16_at(&st.extra_headers, start + 1));
            st.extra_headers.set(start + 1, 0);
            st.extra_headers.set(start + 2, 0);
            proof {
                st.common_i = Ghost(st.recs@.len() as int);
            }
        } else if (id == EXT_HEADER_MSDOS_ATTRS || id == EXT_HEADER_EXT_ATTRS)
            && cur >= 3 {
            st.msdos_attrs = vec_u16_at(&st.extra_headers, start + 1);
        } else if id == EXT_HEADER_MSDOS_SIZE && level >= 2 && cur >= 17 {
            st.compressed_size = vec_u64_at(&st.extra_headers, start + 1);
            st.original_size = vec_u64_at(&st.extra_headers, start + 9);
        }
        let ghost rec_edited = st.extra_headers@.subrange(
            start as int,
            st.extra_headers@.len() as int,
        );
        let rec_slice = vstd::slice::slice_subrange(
            st.extra_headers.as_slice(),
            start,
            st.extra_headers.len(),
        );
        parser.update_checksums_no_wrapping_sum(rec_slice);
        let end = st.extra_headers.len();
        let next_len: usize = if level == 3 {
            vec_u32_at(&st.extra_headers, end - 4) as usize
        } else {
            vec_u16_at(&st.extra_headers, end - 2) as usize
        };
        proof {
            let whole = parser.data@;
            let pos2 = parser.pos as int;
            let rec_raw = whole.subrange(pos_old, pos2);
            let prev_recs = st.recs@;
            st.recs = Ghost(prev_recs.push(rec_edited));
            assert(id == whole[pos_old]);

            // the final buffer is the previous buffer plus the edited record
            if id == EXT_HEADER_COMMON {
                assert(rec_edited =~= rec_raw.update(1, 0u8).update(2, 0u8));
                lemma_append_update(buf_before, rec_raw.update(1, 0u8), 2, 0u8);
                lemma_append_update(buf_before, rec_raw, 1, 0u8);
                assert(st.extra_headers@ == buf_before + rec_edited);
                assert((buf_before + rec_raw).subrange(start + 1, start + 3) =~= whole.subrange(
                    pos_old + 1,
                    pos_old + 3,
                ));
            } else {
                assert(rec_edited =~= rec_raw);
                assert(st.extra_headers@ == buf_before + rec_edited);
            }

            // field decodes name the record's own bytes
            assert(rec_edited.subrange(1, 3) =~= st.extra_headers@.subrange(
                start + 1,
                start + 3,
            ));
            if rec_edited.len() >= 17 {
                assert(rec_edited.subrange(1, 9) =~= st.extra_headers@.subrange(
                    start + 1,
                    start + 9,
                ));
                assert(rec_edited.subrange(9, 17) =~= st.extra_headers@.subrange(
                    start + 9,
                    start + 17,
                ));
            }

            // the trailing next-length field of the record just consumed
            let end_i = st.extra_headers@.len() as int;
            if width == 4 {
                assert(rec_edited.subrange(rec_edited.len() - 4, rec_edited.len() as int)
                    =~= st.extra_headers@.subrange(end_i - 4, end_i));
            } else {
                assert(rec_edited.subrange(rec_edited.len() - 2, rec_edited.len() as int)
                    =~= st.extra_headers@.subrange(end_i - 2, end_i));
            }
            assert(next_len_of(rec_edited, width) == next_len);
        }
    Ok(next_len)
}



fn walk_extras<'a>(
    parser: &mut Parser<'a>,
    st: &mut ExtrasState,
    level: u8,
    long_header_len: u32,
    first_header_len: u32,
) -> (r: Result<(), ParseError>)
    requires
        level <= 3,
        (level >= 2) == (long_header_len != 0),
        level >= 2 ==> old(parser).len + first_header_len <= long_header_len,
        old(parser).len == old(parser).pos,
        level == 1 ==> old(st).compressed_size <= u32::MAX,
        old(st).recs@ =~= Seq::<Seq<u8>>::empty(),
        old(st).extra_headers@ =~= Seq::<u8>::empty(),
        old(st).header_crc is None,
        extras_inv(
            *old(st),
            *old(parser),
            old(parser).pos as int,
            old(st).msdos_attrs,
            old(st).compressed_size,
            old(st).original_size,
            level,
        ),
    ensures
        final(parser).data == old(parser).data,
        match r {
            Ok(_) => {
                &&& extras_inv(
                    *final(st),
                    *final(parser),
                    old(parser).pos as int,
                    old(st).msdos_attrs,
                    old(st).compressed_size,
                    old(st).original_size,
                    level,
                )
                &&& walked_prefix(
                    final(st).recs@,
                    first_header_len as int,
                    0,
                    rec_width(level),
                )
                &&& (level >= 2 ==> final(parser).len as int <= long_header_len + 2)
                &&& spec_walk(
                    old(parser).data@,
                    old(parser).pos as int,
                    old(parser).pos as int,
                    first_header_len as int,
                    level,
                    long_header_len as int,
                    old(st).compressed_size,
                    false,
                ) == Some(
                    (final(parser).pos as int, final(st).extra_headers@, final(st).header_crc),
                )
            },
            Err(e) => e != ParseError::UnknownHeaderLevel && e != ParseError::InvalidHeader
                && spec_walk(
                old(parser).data@,
                old(parser).pos as int,
                old(parser).pos as int,
                first_header_len as int,
                level,
                long_header_len as int,
                old(st).compressed_size,
                false,
            ) is None,
        },
{
    let ghost e_start: int = parser.pos as int;
    let ghost width: int = rec_width(level);
    let ghost attrs0: u16 = st.msdos_attrs;
    let ghost c0: u64 = st.compressed_size;
    let ghost o0: u64 = st.original_size;
    let min_header_len: usize = if level == 3 {
        5
    } else {
        3
    };
    let ghost w_start = spec_walk(
        parser.data@,
        e_start,
        e_start,
        first_header_len as int,
        level,
        long_header_len as int,
        c0,
        false,
    );
    let mut extra_header_len: usize = first_header_len as usize;
    proof {
        lemma_combine_trivial(w_start);
    }
    while extra_header_len != 0
        invariant
            parser.data == old(parser).data,
            w_start == spec_walk(
                parser.data@,
                e_start,
                e_start,
                first_header_len as int,
                level,
                long_header_len as int,
                c0,
                false,
            ),
            combine_walk(
                st.extra_headers@,
                st.header_crc,
                spec_walk(
                    parser.data@,
                    e_start,
                    parser.pos as int,
                    extra_header_len as int,
                    level,
                    long_header_len as int,
                    c0,
                    st.header_crc is Some,
                ),
            ) == w_start,
            level == 1 ==> st.compressed_size == c0,
            level <= 3,
            width == rec_width(level),
            min_header_len as int == width + 1,
            (level >= 2) == (long_header_len != 0),
            e_start == old(parser).pos as int,
            attrs0 == old(st).msdos_attrs,
            c0 == old(st).compressed_size,
            o0 == old(st).original_size,
            level == 1 ==> st.compressed_size <= u32::MAX,
            extras_inv(*st, *parser, e_start, attrs0, c0, o0, level),
            walked_prefix(st.recs@, first_header_len as int, extra_header_len as int, width),
            extra_header_len <= u32::MAX,
            level >= 2 ==> parser.len as int <= long_header_len + 2,
        decreases parser.data@.len() - parser.pos,
    {
        let ghost st_pre = *st;
        let ghost p_pre = *parser;
        let ghost cur_g: int = extra_header_len as int;
        let next = match walk_one(
            parser,
            st,
            level,
            long_header_len,
            extra_header_len,
            min_header_len,
            Ghost(e_start),
            Ghost(c0),
        ) {
            Ok(n) => n,
            Err(e) => {
                proof {
                    assert(w_start is None);
                }
                return Err(e);
            },
        };
        proof {
            let whole = parser.data@;
            let pos_old = p_pre.pos as int;
            let pos2 = pos_old + cur_g;
            let rec_raw = whole.subrange(pos_old, pos2);
            let id = whole[pos_old];
            let rec_e: Seq<u8> = if id == 0 {
                rec_raw.update(1, 0u8).update(2, 0u8)
            } else {
                rec_raw
            };
            lemma_recs_bytes_push(st_pre.recs@, rec_e);
            lemma_fold_attrs_push(st_pre.recs@, attrs0, rec_e);
            lemma_fold_sizes_push(st_pre.recs@, (c0, o0), level, rec_e);
            assert(st.recs@.drop_last() =~= st_pre.recs@);
            assert(st.recs@.last() == rec_e);
            assert(walked_prefix(st.recs@, first_header_len as int, next as int, width));
            if level < 2 {
                lemma_fold_sizes_low(st.recs@, (c0, o0), level);
            }
            lemma_append_assoc(whole.subrange(0, e_start), st_pre.extra_headers@, rec_e);
            lemma_subrange_append(whole, e_start, pos_old, pos2);
            if id == 0 {
                // this record is the (first) Common one
                assert(st_pre.extra_headers@ == whole.subrange(e_start, pos_old));
                lemma_append_update(st_pre.extra_headers@, rec_raw.update(1, 0u8), 2, 0u8);
                lemma_append_update(st_pre.extra_headers@, rec_raw, 1, 0u8);
                assert(st.recs@.take(st.common_i@) =~= st_pre.recs@);
                let off = recs_bytes(st.recs@.take(st.common_i@)).len() as int;
                assert(off == pos_old - e_start);
                assert(st.extra_headers@ == whole.subrange(e_start, pos2).update(
                    off + 1,
                    0u8,
                ).update(off + 2, 0u8));
                assert forall|k: int|
                    0 <= k < st.recs@.len() && k != st.common_i@ implies !is_common_rec(
                    #[trigger] st.recs@[k],
                ) by {
                    assert(st.recs@[k] == st_pre.recs@[k]);
                }
            } else if st_pre.header_crc is Some {
                // a Common record was seen earlier; its masked bytes stay
                let off = recs_bytes(st_pre.recs@.take(st_pre.common_i@)).len() as int;
                let base = whole.subrange(e_start, pos_old);
                lemma_update_append(base.update(off + 1, 0u8), rec_raw, off + 2, 0u8);
                lemma_update_append(base, rec_raw, off + 1, 0u8);
                assert(st.recs@.take(st.common_i@) =~= st_pre.recs@.take(st_pre.common_i@));
                assert(st.extra_headers@ == whole.subrange(e_start, pos2).update(
                    off + 1,
                    0u8,
                ).update(off + 2, 0u8));
                assert(!is_common_rec(rec_e));
                assert forall|k: int|
                    0 <= k < st.recs@.len() && k != st.common_i@ implies !is_common_rec(
                    #[trigger] st.recs@[k],
                ) by {
                    if k < st_pre.recs@.len() {
                        assert(st.recs@[k] == st_pre.recs@[k]);
                    }
                }
            } else {
                // no Common record so far
                assert(st.extra_headers@ == whole.subrange(e_start, pos2));
                assert(!is_common_rec(rec_e));
                assert forall|k: int| 0 <= k < st.recs@.len() implies !is_common_rec(
                    #[trigger] st.recs@[k],
                ) by {
                    if k < st_pre.recs@.len() {
                        assert(st.recs@[k] == st_pre.recs@[k]);
                    }
                }
            }
            lemma_walk_step_combine(
                whole,
                e_start,
                pos_old,
                cur_g,
                level,
                long_header_len as int,
                c0,
                st_pre.extra_headers@,
                st_pre.header_crc,
                rec_e,
                next as int,
                st.extra_headers@,
                st.header_crc,
            );
        }
        extra_header_len = next;
    }
    proof {
        reveal(spec_walk);
        let w_tail = spec_walk(
            parser.data@,
            e_start,
            parser.pos as int,
            0int,
            level,
            long_header_len as int,
            c0,
            st.header_crc is Some,
        );
        assert(w_tail == Some((parser.pos as int, Seq::<u8>::empty(), None::<u16>)));
        assert(st.extra_headers@ + Seq::<u8>::empty() =~= st.extra_headers@);
        assert(combine_walk(st.extra_headers@, st.header_crc, w_tail) == Some(
            (parser.pos as int, st.extra_headers@, st.header_crc),
        ));
    }
    Ok(())
}

/// What the straight-line part of the parse has established, before the
/// extra-header chain is walked: the prolog and base fields name the
/// right input bytes, the consumed-byte counter sits at the level's
/// extras region, the byte-sum discipline held on levels 0 and 1, and the
/// long header length bounds the region on levels 2 and 3.
spec fn pre_walk_ok(
    data: Seq<u8>,
    level: u8,
    header_len: u8,
    csum_byte: u8,
    long: u32,
    first: u32,
    pos: int,
) -> bool {
    &&& level == data[20]
    &&& level <= 3
    &&& header_len == data[0]
    &&& data[0] != 0
    &&& csum_byte == data[1]
    &&& 21 <= pos <= data.len()
    &&& (level < 2 ==> {
        &&& pos == header_len + 2
        &&& sum_with(0, data.subrange(2, header_len + 2)) == data[1]
        &&& long == 0
    })
    &&& (level == 0 ==> first == 0)
    &&& (level == 1 ==> first == u16_le(data.subrange(header_len as int, header_len + 2)))
    &&& (level == 2 ==> pos == 26 && long == u16_le(data.subrange(0, 2)) && first == u16_le(
        data.subrange(24, 26),
    ))
    &&& (level == 3 ==> pos == 32 && data[0] == 4 && data[1] == 0 && long == u32_le(
        data.subrange(24, 28),
    ) && first == u32_le(data.subrange(28, 32)))
    &&& (level >= 2 ==> long != 0 && pos + first <= long)
}

/// Walks the extra-header chain, validates the long header length and
/// the header CRC-16, applies the level 1 skip-size correction, and
/// assembles the header record.
#[verifier::loop_isolation(false)]
#[verifier::rlimit(100)]
#[verifier::spinoff_prover]
fn finish_read<'a>(
    parser: Parser<'a>,
    header_len: u8,
    csum_byte: u8,
    level: u8,
    long_header_len: u32,
    first_header_len: u32,
    compression: [u8; 5],
    compressed_size: u64,
    original_size: u64,
    msdos_attrs: u16,
    last_modified: u32,
    filename: Vec<u8>,
    os_type: u8,
    file_crc: u16,
    extended_area: Vec<u8>,
) -> (res: Result<Option<(LhaHeader, usize)>, ParseError>)
    requires
        parser.wf(),
        parser.len == parser.pos,
        parser.digested@ == parser.data@.subrange(0, parser.pos as int),
        pre_walk_ok(
            parser.data@,
            level,
            header_len,
            csum_byte,
            long_header_len,
            first_header_len,
            parser.pos as int,
        ),
        frame_ok(parser.data@),
        first_header_len as int == spec_first_len(parser.data@),
        long_header_len as int == spec_long_len(parser.data@),
        compression@ == parser.data@.subrange(2, 7),
        compressed_size == u32_le(parser.data@.subrange(7, 11)) as u64,
        original_size == u32_le(parser.data@.subrange(11, 15)) as u64,
        msdos_attrs == parser.data@[19] as u16,
        last_modified == u32_le(parser.data@.subrange(15, 19)),
        level < 2 ==> {
            let fl = parser.data@[21] as int;
            &&& header_len >= 22 + fl
            &&& filename@ == parser.data@.subrange(22, 22 + fl)
            &&& file_crc == u16_le(parser.data@.subrange(22 + fl, 24 + fl))
        },
        level == 0 ==> {
            let hl = parser.data@[0] as int;
            let fl = parser.data@[21] as int;
            &&& (hl > 22 + fl ==> os_type == parser.data@[24 + fl])
            &&& (hl <= 22 + fl ==> os_type == 0)
            &&& (hl >= 23 + fl ==> extended_area@ == parser.data@.subrange(25 + fl, hl + 2))
            &&& (hl < 23 + fl ==> extended_area@.len() == 0)
        },
        level == 1 ==> {
            let hl = parser.data@[0] as int;
            let fl = parser.data@[21] as int;
            &&& hl >= 25 + fl
            &&& os_type == parser.data@[24 + fl]
            &&& extended_area@ == parser.data@.subrange(25 + fl, hl)
        },
        level >= 2 ==> {
            &&& filename@.len() == 0
            &&& extended_area@.len() == 0
            &&& file_crc == u16_le(parser.data@.subrange(21, 23))
            &&& os_type == parser.data@[23]
        },
    ensures
        !(res matches Ok(r) && r is None),
        res matches Ok(Some(p)) ==> {
            let (h, n) = p;
            &&& base_fields_ok(parser.data@, h, n as int)
            &&& (h.level < 2 ==> low_level_ok(parser.data@, h, n as int))
            &&& (h.level >= 2 ==> high_level_ok(parser.data@, h, n as int))
            &&& extras_ok(parser.data@, h, n as int)
        },
        res matches Err(e) ==> e != ParseError::UnknownHeaderLevel && e != ParseError::InvalidHeader,
        (res matches Ok(_)) <==> valid_header(parser.data@),
{
    let mut parser = parser;
    let mut compressed_size = compressed_size;
    let ghost data_v = parser.data@;
        // walk the extra-header chain
        let ghost e_start: int = parser.pos as int;
        let ghost width: int = rec_width(level);
        let mut st = ExtrasState {
            msdos_attrs,
            compressed_size,
            original_size,
            header_crc: None,
            extra_headers: Vec::new(),
            recs: Ghost(Seq::empty()),
            common_i: Ghost(0),
        };
        proof {
            assert(recs_bytes(st.recs@) =~= Seq::<u8>::empty());
            assert(st.extra_headers@ =~= data_v.subrange(e_start, parser.pos as int));
        }
        match walk_extras(&mut parser, &mut st, level, long_header_len, first_header_len) {
            Ok(_) => {},
            Err(e) => {
                return Err(e);
            },
        }
        let ExtrasState {
            msdos_attrs,
            mut compressed_size,
            original_size,
            header_crc,
            extra_headers,
            recs: Ghost(recs),
            common_i: Ghost(common_i),
        } = st;
        let ghost pos_before_pad: int = parser.pos as int;
        proof {
            lemma_walked_prefix_chain(recs, first_header_len as int, 0, width, Seq::empty());
            assert(recs_bytes(recs) + Seq::<u8>::empty() =~= recs_bytes(recs));
            assert(chain_records(Seq::<u8>::empty(), 0, width) =~= Seq::<Seq<u8>>::empty());
            assert(recs + Seq::<Seq<u8>>::empty() =~= recs);
            assert(chain_records(extra_headers@, first_header_len as int, width) == recs);
            assert(chain_wf(extra_headers@, first_header_len as int, width));
        }

        // validate the long header length (levels 2 and 3)
        if long_header_len != 0 {
            if long_header_len as u64 != parser.len as u64 {
                if level == 2 && long_header_len as u64 == parser.len as u64 + 1 {
                    // one even-length padding byte, digested normally
                    match parser.read_u8() {
                        Ok(_) => {},
                        Err(e) => {
                            return Err(e);
                        },
                    }
                } else if !(level == 2 && parser.len as u64 + 2 == long_header_len as u64) {
                    // some packers exclude the initial length field from
                    // their long count; everything else is an error
                    return Err(ParseError::WrongLengthOfHeaders);
                }
            }
        }

        // validate the header CRC-16 against the Common extra header
        proof {
            assert(parser.digested@ =~= data_v.subrange(0, e_start) + extra_headers@
                + data_v.subrange(pos_before_pad, parser.pos as int));
            if !(level == 2 && long_header_len as int == pos_before_pad + 1) {
                assert(data_v.subrange(pos_before_pad, parser.pos as int) =~= Seq::<u8>::empty());
            }
        }
        match header_crc {
            Some(crc_val) => {
                if crc_val != parser.crc.sum16() {
                    return Err(ParseError::WrongHeaderCrc16Checksum);
                }
            },
            None => {},
        }

        // adjust the compressed size for level 1: its stored skip size
        // covers the extra-header bytes
        if level == 1 {
            if extra_headers.len() as u64 > compressed_size {
                return Err(ParseError::WrongLengthOfSkipSize);
            }
            compressed_size = compressed_size - extra_headers.len() as u64;
        }

        proof {
            assert(parser.digested@ =~= data_v.subrange(0, e_start) + extra_headers@
                + data_v.subrange(pos_before_pad, parser.pos as int));
        }
        let header = LhaHeader {
            level,
            compression,
            compressed_size,
            original_size,
            filename,
            os_type,
            msdos_attrs,
            last_modified,
            file_crc,
            extended_area,
            first_header_len,
            extra_headers,
        };
        Ok(Some((header, parser.pos)))
    }

/// What the level dispatcher yields: the filename, file CRC, OS type and
/// extended area of a level 0/1 header (empty or zero on levels 2 and 3),
/// and the chain framing lengths.
struct FrameInfo {
    filename: Vec<u8>,
    file_crc: u16,
    os_type: u8,
    extended_area: Vec<u8>,
    long_header_len: u32,
    first_header_len: u32,
}

/// Reads everything between the fixed base and the extra-header chain:
/// the filename, the file CRC-16, the OS type, the level 0/1 extended
/// area and the framing length fields, and validates the level 0/1
/// byte-sum checksum or the level 2/3 long header bound.
#[verifier::loop_isolation(false)]
#[verifier::rlimit(100)]
#[verifier::spinoff_prover]
fn read_frame<'a>(parser: &mut Parser<'a>, header_len: u8, csum_byte: u8, level: u8) -> (res:
    Result<FrameInfo, ParseError>)
    requires
        old(parser).wf(),
        old(parser).len == old(parser).pos == 21,
        old(parser).digested@ == old(parser).data@.subrange(0, 21),
        old(parser).summed@ == old(parser).data@.subrange(2, 21),
        old(parser).data@.len() >= 21,
        old(parser).data@[0] == header_len,
        header_len != 0,
        old(parser).data@[1] == csum_byte,
        old(parser).data@[20] == level,
        level <= 3,
    ensures
        final(parser).data == old(parser).data,
        res matches Err(e) ==> e != ParseError::UnknownHeaderLevel,
        res matches Err(e) ==> !frame_ok(old(parser).data@),
        (res matches Err(e) && e == ParseError::InvalidHeader) <==> (level == 3
            && old(parser).data@.len() >= 32 && (old(parser).data@[0] != 4 || old(
            parser,
        ).data@[1] != 0)),
        res matches Ok(fi) ==> {
            let data = old(parser).data@;
            let hl = data[0] as int;
            let fl = data[21] as int;
            &&& final(parser).wf()
            &&& final(parser).len == final(parser).pos
            &&& final(parser).digested@ == data.subrange(0, final(parser).pos as int)
            &&& pre_walk_ok(
                data,
                level,
                header_len,
                csum_byte,
                fi.long_header_len,
                fi.first_header_len,
                final(parser).pos as int,
            )
            &&& frame_ok(data)
            &&& fi.first_header_len as int == spec_first_len(data)
            &&& fi.long_header_len as int == spec_long_len(data)
            &&& (level < 2 ==> {
                &&& header_len >= 22 + fl
                &&& fi.filename@ == data.subrange(22, 22 + fl)
                &&& fi.file_crc == u16_le(data.subrange(22 + fl, 24 + fl))
            })
            &&& (level == 0 ==> {
                &&& (hl > 22 + fl ==> fi.os_type == data[24 + fl])
                &&& (hl <= 22 + fl ==> fi.os_type == 0)
                &&& (hl >= 23 + fl ==> fi.extended_area@ == data.subrange(25 + fl, hl + 2))
                &&& (hl < 23 + fl ==> fi.extended_area@.len() == 0)
            })
            &&& (level == 1 ==> {
                &&& hl >= 25 + fl
                &&& fi.os_type == data[24 + fl]
                &&& fi.extended_area@ == data.subrange(25 + fl, hl)
            })
            &&& (level >= 2 ==> {
                &&& fi.filename@.len() == 0
                &&& fi.extended_area@.len() == 0
                &&& fi.file_crc == u16_le(data.subrange(21, 23))
                &&& fi.os_type == data[23]
            })
        },
{
    let ghost data = parser.data@;
        // filename, on levels 0 and 1 only
        let mut filename: Vec<u8> = Vec::new();
        if level < 2 {
            let fl = match parser.read_u8() {
                Ok(b) => b,
                Err(e) => {
                    return Err(e);
                },
            };
            if (header_len as usize) < parser.len + fl as usize {
                return Err(ParseError::WrongHeaderSize);
            }
            filename = match parser.read_limit(fl as usize) {
                Ok(v) => v,
                Err(e) => {
                    return Err(e);
                },
            };
            proof {
                assert(parser.summed@ =~= data.subrange(2, parser.pos as int));
                assert(parser.digested@ =~= data.subrange(0, parser.pos as int));
            }
        }
        let file_crc = match parser.read_u16() {
            Ok(v) => v,
            Err(e) => {
                return Err(e);
            },
        };
        let mut os_type: u8 = 0;
        if level > 0 {
            os_type = match parser.read_u8() {
                Ok(b) => b,
                Err(e) => {
                    return Err(e);
                },
            };
        }
        proof {
            assert(parser.summed@ =~= data.subrange(2, parser.pos as int));
            assert(parser.digested@ =~= data.subrange(0, parser.pos as int));
        }

        // extended area, on levels 0 and 1 only
        let mut extended_area: Vec<u8> = Vec::new();
        if level < 2 {
            let mut min_len = parser.len;
            if level == 0 {
                // level 0 has no extra headers, so no trailing length field
                min_len = min_len - 2;
            }
            if (header_len as usize) < min_len {
                return Err(ParseError::WrongHeaderSize);
            }
            let mut extended_len = header_len as usize - min_len;
            if extended_len != 0 && level == 0 {
                // the first extended byte of a level 0 header is the OS type
                extended_len = extended_len - 1;
                os_type = match parser.read_u8() {
                    Ok(b) => b,
                    Err(e) => {
                        return Err(e);
                    },
                };
            }
            if extended_len != 0 {
                extended_area = match parser.read_limit(extended_len) {
                    Ok(v) => v,
                    Err(e) => {
                        return Err(e);
                    },
                };
            }
            proof {
                assert(parser.summed@ =~= data.subrange(2, parser.pos as int));
                assert(parser.digested@ =~= data.subrange(0, parser.pos as int));
            }
        }

        // establish the first extra header length and the long header length
        let mut long_header_len: u32 = 0;
        let mut first_header_len: u32 = 0;
        if level == 1 {
            first_header_len = match parser.read_u16() {
                Ok(v) => v,
                Err(e) => {
                    return Err(e);
                },
            } as u32;
        } else if level == 2 {
            long_header_len = header_len as u32 + csum_byte as u32 * 0x100;
            first_header_len = match parser.read_u16() {
                Ok(v) => v,
                Err(e) => {
                    return Err(e);
                },
            } as u32;
        } else if level == 3 {
            long_header_len = match parser.read_u32() {
                Ok(v) => v,
                Err(e) => {
                    return Err(e);
                },
            };
            first_header_len = match parser.read_u32() {
                Ok(v) => v,
                Err(e) => {
                    return Err(e);
                },
            };
            if header_len != 4 || csum_byte != 0 {
                return Err(ParseError::InvalidHeader);
            }
        }
        proof {
            assert(parser.summed@ =~= data.subrange(2, parser.pos as int));
            assert(parser.digested@ =~= data.subrange(0, parser.pos as int));
        }

        // validate the level 0/1 byte-sum checksum, or the long header bound
        if level < 2 {
            if csum_byte != parser.csum {
                return Err(ParseError::InvalidHeaderLevelChecksum);
            }
        } else if (long_header_len as u64) < parser.len as u64 + first_header_len as u64 {
            return Err(ParseError::WrongHeaderSize);
        }


    Ok(FrameInfo { filename, file_crc, os_type, extended_area, long_header_len, first_header_len })
}

impl LhaHeader {
    /// Attempts to parse one LHA header from the front of `data`.
    /// Returns the decoded header and the number of bytes it occupies, or
    /// nothing when `data` starts with the end-of-archive marker (a zero
    /// byte) or is empty.
    ///
    /// The method validates all length and checksum fields of the header,
    /// but does not interpret extra headers except the Common one (to
    /// verify the header's CRC-16), the MS-DOS attributes and extended
    /// attributes ones (to widen the attributes), and the MS-DOS size one
    /// (to read 64-bit sizes). All extra data is kept as raw bytes and
    /// can be walked with [`LhaHeader::iter_extra`].
    #[verifier::loop_isolation(false)]
    #[verifier::rlimit(100)]
    #[verifier::spinoff_prover]
    pub fn read(data: &[u8]) -> (res: Result<Option<(LhaHeader, usize)>, ParseError>)
        ensures
            (res matches Ok(r) && r is None) <==> (data@.len() == 0 || data@[0] == 0),
            res matches Ok(Some(p)) ==> {
                let (h, n) = p;
                &&& base_fields_ok(data@, h, n as int)
                &&& (h.level < 2 ==> low_level_ok(data@, h, n as int))
                &&& (h.level >= 2 ==> high_level_ok(data@, h, n as int))
                &&& extras_ok(data@, h, n as int)
            },
            (res matches Err(e) && e == ParseError::UnknownHeaderLevel) <==> (data@.len() >= 21
                && data@[0] != 0 && data@[20] > 3),
            (res matches Err(e) && e == ParseError::InvalidHeader) <==> (data@.len() >= 32
                && data@[0] != 0 && data@[20] == 3 && (data@[0] != 4 || data@[1] != 0)),
            (res matches Ok(Some(p))) <==> valid_header(data@),
    {
        let mut parser = Parser {
            data,
            pos: 0,
            len: 0,
            crc: Crc16::new(),
            csum: 0,
            digested: Ghost(Seq::empty()),
            summed: Ghost(Seq::empty()),
        };
        let header_len: u8 = match parser.read_u8_or_none() {
            None => {
                return Ok(None);
            },
            Some(b) => {
                if b == 0 {
                    return Ok(None);
                }
                b
            },
        };
        let csum_byte = match parser.read_u8() {
            Ok(b) => b,
            Err(e) => {
                return Err(e);
            },
        };
        // the wrapping checksum does not cover the first two bytes
        parser.csum = 0;
        parser.summed = Ghost(Seq::<u8>::empty());
        let base = match parser.read_exact(19) {
            Ok(b) => b,
            Err(e) => {
                return Err(e);
            },
        };
        let level = base[18];
        if level > 3 {
            return Err(ParseError::UnknownHeaderLevel);
        }
        let compression: [u8; 5] = [base[0], base[1], base[2], base[3], base[4]];
        let mut compressed_size: u64 = slice_u32_at(base, 5) as u64;
        let mut original_size: u64 = slice_u32_at(base, 9) as u64;
        let last_modified: u32 = slice_u32_at(base, 13);
        let msdos_attrs: u16 = base[17] as u16;
        proof {
            assert(compression@ =~= data@.subrange(2, 7));
            assert(data@.subrange(7, 11) =~= base@.subrange(5, 9));
            assert(data@.subrange(11, 15) =~= base@.subrange(9, 13));
            assert(data@.subrange(15, 19) =~= base@.subrange(13, 17));
            assert(parser.digested@ =~= data@.subrange(0, parser.pos as int));
            assert(parser.summed@ =~= data@.subrange(2, parser.pos as int));
        }

        let fi = match read_frame(&mut parser, header_len, csum_byte, level) {
            Ok(fi) => fi,
            Err(e) => {
                return Err(e);
            },
        };
        let FrameInfo { filename, file_crc, os_type, extended_area, long_header_len, first_header_len } = fi;
        finish_read(
            parser,
            header_len,
            csum_byte,
            level,
            long_header_len,
            first_header_len,
            compression,
            compressed_size,
            original_size,
            msdos_attrs,
            last_modified,
            filename,
            os_type,
            file_crc,
            extended_area,
        )
    }
}

/// An iterator through extra headers, yielding each record's raw content
/// excluding the trailing next-length field.
pub struct ExtraHeaderIter<'a> {
    data: &'a [u8],
    header_length: u32,
    header_len32: bool,
}

impl<'a> ExtraHeaderIter<'a> {
    /// The width of the next-length field the iterator follows.
    pub closed spec fn width(&self) -> int {
        if self.header_len32 {
            4
        } else {
            2
        }
    }

    /// The iterator walks a well-formed chain.
    pub closed spec fn wf(&self) -> bool {
        chain_wf(self.data@, self.header_length as int, self.width())
    }

    /// The records left to yield, each still holding its next-length
    /// field.
    pub closed spec fn records(&self) -> Seq<Seq<u8>> {
        chain_records(self.data@, self.header_length as int, self.width())
    }

    /// Yields the next extra header's raw content (its identifier byte
    /// and payload), or nothing at the end of the chain.
    pub fn next(&mut self) -> (r: Option<&'a [u8]>)
        requires
            old(self).wf(),
        ensures
            final(self).wf(),
            old(self).records().len() == 0 ==> r is None && final(self).records()
                == old(self).records(),
            old(self).records().len() > 0 ==> {
                let first = old(self).records()[0];
                &&& first.len() > old(self).width()
                &&& r matches Some(rec) && rec@ == first.subrange(
                    0,
                    first.len() - old(self).width(),
                )
                &&& final(self).records() == old(self).records().drop_first()
            },
    {
        let header_length = self.header_length as usize;
        if header_length == 0 {
            return None;
        }
        let counter_size: usize = if self.header_len32 {
            4
        } else {
            2
        };
        let res = vstd::slice::slice_subrange(self.data, 0, header_length - counter_size);
        let next: u32 = if self.header_len32 {
            self.data[header_length - 4] as u32 + self.data[header_length - 3] as u32 * 0x100
                + self.data[header_length - 2] as u32 * 0x10000 + self.data[header_length
                - 1] as u32 * 0x1000000
        } else {
            self.data[header_length - 2] as u32 + self.data[header_length - 1] as u32 * 0x100
        };
        let ghost first = self.data@.subrange(0, header_length as int);
        let rest = vstd::slice::slice_subrange(self.data, header_length, self.data.len());
        proof {
            if self.header_len32 {
                assert(first.subrange(first.len() - 4, first.len() as int) =~= self.data@.subrange(
                    header_length - 4,
                    header_length as int,
                ));
            } else {
                assert(first.subrange(first.len() - 2, first.len() as int) =~= self.data@.subrange(
                    header_length - 2,
                    header_length as int,
                ));
            }
            assert(next_len_of(first, self.width()) == next);
            assert(rest@ =~= self.data@.skip(header_length as int));
        }
        self.data = rest;
        self.header_length = next;
        Some(res)
    }
}

impl LhaHeader {
    /// Returns an iterator over the extra headers, yielding each record's
    /// raw content without its next-length field. On a header produced by
    /// [`LhaHeader::read`] the chain is well-formed and the iterator
    /// yields every record, each at least one byte long.
    pub fn iter_extra(&self) -> (r: ExtraHeaderIter<'_>)
        ensures
            r.width() == rec_width(self.level),
            r.records() == chain_records(
                self.extra_headers@,
                self.first_header_len as int,
                rec_width(self.level),
            ),
            chain_wf(
                self.extra_headers@,
                self.first_header_len as int,
                rec_width(self.level),
            ) ==> r.wf(),
    {
        ExtraHeaderIter {
            data: self.extra_headers.as_slice(),
            header_length: self.first_header_len,
            header_len32: self.level == 3,
        }
    }
}

} // verus!
