//! Typed records of the fixed-layout tables: the glyph count, the metrics
//! and classification table, the glyph location index.

use vstd::prelude::*;
use crate::bytes::{
    be_u16, be_u32, copy_range, lemma_u16_bytes_of_read, push_u16, push_u32, read_u16, read_u32, u16_bytes,
    u32_bytes,
};
use crate::directory::FormatError;
use crate::rebuild::BuildError;

verus! {

/// A 16-bit pattern read as a signed number.
pub open spec fn signed16(v: int) -> int {
    if v < 32768 {
        v
    } else {
        v - 65536
    }
}

/// The 16-bit pattern of a signed number.
pub open spec fn unsigned16(v: int) -> int {
    if v >= 0 {
        v
    } else {
        v + 65536
    }
}

/// Reads a 16-bit pattern as a signed number.
pub fn to_signed16(v: u16) -> (r: i16)
    ensures
        r as int == signed16(v as int),
{
    if v < 32768 {
        v as i16
    } else {
        (v as i32 - 65536) as i16
    }
}

/// The 16-bit pattern of a signed number.
pub fn to_unsigned16(v: i16) -> (r: u16)
    ensures
        r as int == unsigned16(v as int),
{
    if v >= 0 {
        v as u16
    } else {
        (v as i32 + 65536) as u16
    }
}

/// The glyph count table: its version, the number of glyphs, and the bytes
/// that follow, kept as they are.
#[derive(Clone, Debug)]
pub struct GlyphCount {
    pub version: u32,
    pub num_glyphs: u16,
    pub tail: Vec<u8>,
}

/// The metrics and classification table: the leading fields, and the bytes
/// that follow them, kept as they are.
#[derive(Clone, Debug)]
pub struct Metrics {
    pub version: u16,
    pub avg_char_width: i16,
    pub weight_class: u16,
    pub width_class: u16,
    pub tail: Vec<u8>,
}

/// The least length of a metrics table of this version; none for a version
/// that is not known.
pub open spec fn metrics_min_len(version: int) -> Option<int> {
    if version == 0 {
        Some(78)
    } else if version == 1 {
        Some(86)
    } else if 2 <= version <= 4 {
        Some(96)
    } else if version == 5 {
        Some(100)
    } else {
        None
    }
}

/// Whether `raw` is long enough for the metrics layout of its version.
pub open spec fn metrics_valid(raw: Seq<u8>) -> bool {
    raw.len() >= 2 && match metrics_min_len(be_u16(raw, 0)) {
        Some(n) => raw.len() >= n,
        None => false,
    }
}

/// Whether `m` holds the fields of `raw`.
pub open spec fn metrics_match(m: Metrics, raw: Seq<u8>) -> bool {
    &&& m.version as int == be_u16(raw, 0)
    &&& m.avg_char_width as int == signed16(be_u16(raw, 2))
    &&& m.weight_class as int == be_u16(raw, 4)
    &&& m.width_class as int == be_u16(raw, 6)
    &&& m.tail@ == raw.subrange(8, raw.len() as int)
}

/// The bytes of a metrics record.
pub open spec fn metrics_bytes(m: Metrics) -> Seq<u8> {
    u16_bytes(m.version) + u16_bytes(unsigned16(m.avg_char_width as int) as u16) + u16_bytes(
        m.weight_class,
    ) + u16_bytes(m.width_class) + m.tail@
}

/// Whether `g` holds the fields of `raw`.
pub open spec fn glyph_count_match(g: GlyphCount, raw: Seq<u8>) -> bool {
    &&& g.version as int == be_u32(raw, 0)
    &&& g.num_glyphs as int == be_u16(raw, 4)
    &&& g.tail@ == raw.subrange(6, raw.len() as int)
}

/// The bytes of a glyph count record.
pub open spec fn glyph_count_bytes(g: GlyphCount) -> Seq<u8> {
    crate::bytes::u32_bytes(g.version) + u16_bytes(g.num_glyphs) + g.tail@
}

impl GlyphCount {
    /// Decodes a glyph count table; malformed where it is shorter than six
    /// bytes.
    pub fn decode(raw: &[u8]) -> (r: Result<GlyphCount, FormatError>)
        ensures
            match r {
                Ok(g) => raw@.len() >= 6 && glyph_count_match(g, raw@),
                Err(e) => raw@.len() < 6 && e == FormatError::Malformed,
            },
    {
        if raw.len() < 6 {
            return Err(FormatError::Malformed);
        }
        Ok(
            GlyphCount {
                version: read_u32(raw, 0),
                num_glyphs: read_u16(raw, 4),
                tail: copy_range(raw, 6, raw.len()),
            },
        )
    }

    /// Encodes the record.
    pub fn encode(&self) -> (r: Vec<u8>)
        ensures
            r@ == glyph_count_bytes(*self),
    {
        let mut out: Vec<u8> = Vec::new();
        crate::bytes::push_u32(&mut out, self.version);
        push_u16(&mut out, self.num_glyphs);
        let mut rest = copy_range(self.tail.as_slice(), 0, self.tail.len());
        out.append(&mut rest);
        assert(out@ =~= glyph_count_bytes(*self));
        out
    }
}

impl Metrics {
    /// Decodes a metrics table; malformed where its version is not known or
    /// it is shorter than the layout of its version.
    pub fn decode(raw: &[u8]) -> (r: Result<Metrics, FormatError>)
        ensures
            match r {
                Ok(m) => metrics_valid(raw@) && metrics_match(m, raw@),
                Err(e) => !metrics_valid(raw@) && e == FormatError::Malformed,
            },
    {
        if raw.len() < 2 {
            return Err(FormatError::Malformed);
        }
        let version: u16 = read_u16(raw, 0);
        let least: usize = if version == 0 {
            78
        } else if version == 1 {
            86
        } else if version <= 4 {
            96
        } else if version == 5 {
            100
        } else {
            return Err(FormatError::Malformed);
        };
        if raw.len() < least {
            return Err(FormatError::Malformed);
        }
        Ok(
            Metrics {
                version,
                avg_char_width: to_signed16(read_u16(raw, 2)),
                weight_class: read_u16(raw, 4),
                width_class: read_u16(raw, 6),
                tail: copy_range(raw, 8, raw.len()),
            },
        )
    }

    /// Encodes the record.
    pub fn encode(&self) -> (r: Vec<u8>)
        ensures
            r@ == metrics_bytes(*self),
    {
        let mut out: Vec<u8> = Vec::new();
        push_u16(&mut out, self.version);
        push_u16(&mut out, to_unsigned16(self.avg_char_width));
        push_u16(&mut out, self.weight_class);
        push_u16(&mut out, self.width_class);
        let mut rest = copy_range(self.tail.as_slice(), 0, self.tail.len());
        out.append(&mut rest);
        assert(out@ =~= metrics_bytes(*self));
        out
    }

    /// The record with another weight class.
    pub fn with_weight_class(self, weight: u16) -> (r: Metrics)
        ensures
            r.weight_class == weight,
            r.version == self.version,
            r.avg_char_width == self.avg_char_width,
            r.width_class == self.width_class,
            r.tail == self.tail,
    {
        Metrics {
            version: self.version,
            avg_char_width: self.avg_char_width,
            weight_class: weight,
            width_class: self.width_class,
            tail: self.tail,
        }
    }
}

/// Encoding what was decoded gives the bytes back, each of them.
pub proof fn lemma_metrics_round_trip(m: Metrics, raw: Seq<u8>)
    requires
        raw.len() >= 8,
        metrics_match(m, raw),
    ensures
        metrics_bytes(m) == raw,
{
    lemma_u16_bytes_of_read(raw, 0);
    lemma_u16_bytes_of_read(raw, 2);
    lemma_u16_bytes_of_read(raw, 4);
    lemma_u16_bytes_of_read(raw, 6);
    assert(unsigned16(signed16(be_u16(raw, 2))) == be_u16(raw, 2));
    assert(metrics_bytes(m) =~= raw);
}

/// Decoding what was encoded gives the record back, each field of it.
pub proof fn lemma_metrics_decode_encoded(m: Metrics, back: Metrics)
    requires
        metrics_match(back, metrics_bytes(m)),
    ensures
        back.version == m.version,
        back.avg_char_width == m.avg_char_width,
        back.weight_class == m.weight_class,
        back.width_class == m.width_class,
        back.tail@ == m.tail@,
{
    let b = metrics_bytes(m);
    assert(b.subrange(8, b.len() as int) =~= m.tail@);
    assert(b[0] == u16_bytes(m.version)[0] && b[1] == u16_bytes(m.version)[1]);
    assert(b[4] == u16_bytes(m.weight_class)[0] && b[5] == u16_bytes(m.weight_class)[1]);
    assert(b[6] == u16_bytes(m.width_class)[0] && b[7] == u16_bytes(m.width_class)[1]);
    let a = unsigned16(m.avg_char_width as int) as u16;
    assert(b[2] == u16_bytes(a)[0] && b[3] == u16_bytes(a)[1]);
}

/// Changing the weight class of a decoded table and encoding it again
/// changes the two bytes of that field and no other byte.
pub proof fn lemma_weight_class_only(m: Metrics, changed: Metrics, raw: Seq<u8>, weight: u16)
    requires
        raw.len() >= 8,
        metrics_match(m, raw),
        changed.weight_class == weight,
        changed.version == m.version,
        changed.avg_char_width == m.avg_char_width,
        changed.width_class == m.width_class,
        changed.tail@ == m.tail@,
    ensures
        metrics_bytes(changed).len() == raw.len(),
        be_u16(metrics_bytes(changed), 4) == weight,
        forall|i: int| 0 <= i < raw.len() && i != 4 && i != 5 ==> metrics_bytes(changed)[i] == raw[i],
{
    lemma_metrics_round_trip(m, raw);
    let a = metrics_bytes(m);
    let b = metrics_bytes(changed);
    assert(a.len() == b.len());
    assert forall|i: int| 0 <= i < raw.len() && i != 4 && i != 5 implies b[i] == raw[i] by {
        assert(b[i] == a[i]);
    }
    assert(b[4] == u16_bytes(weight)[0] && b[5] == u16_bytes(weight)[1]);
}

/// Encoding what was decoded gives the bytes back, each of them.
pub proof fn lemma_glyph_count_round_trip(g: GlyphCount, raw: Seq<u8>)
    requires
        raw.len() >= 6,
        glyph_count_match(g, raw),
    ensures
        glyph_count_bytes(g) == raw,
{
    lemma_u16_bytes_of_read(raw, 4);
    crate::bytes::lemma_u32_bytes_of_read(raw, 0);
    assert(glyph_count_bytes(g) =~= raw);
}

/// Position of the location format flag in the `head` table.
pub const LOC_FORMAT_POS: usize = 50;

/// What the `head` table says of the width of the location index: `Some(true)`
/// for 32-bit entries, `Some(false)` for 16-bit ones, `None` where the table is
/// too short or the flag is neither 0 nor 1.
pub open spec fn loc_format_of(head: Seq<u8>) -> Option<bool> {
    if head.len() < 54 {
        None
    } else if be_u16(head, 50) == 0 {
        Some(false)
    } else if be_u16(head, 50) == 1 {
        Some(true)
    } else {
        None
    }
}

/// Reads the width of the location index from the `head` table.
pub fn loc_format(head: &[u8]) -> (r: Result<bool, FormatError>)
    ensures
        match r {
            Ok(long) => loc_format_of(head@) == Some(long),
            Err(e) => loc_format_of(head@).is_none() && e == FormatError::Malformed,
        },
{
    if head.len() < 54 {
        return Err(FormatError::Malformed);
    }
    let flag: u16 = read_u16(head, LOC_FORMAT_POS);
    if flag == 0 {
        Ok(false)
    } else if flag == 1 {
        Ok(true)
    } else {
        Err(FormatError::Malformed)
    }
}

/// The glyph location index: for each glyph and one past the last, an
/// offset into the outline data.
#[derive(Clone, Debug)]
pub struct LocationIndex {
    pub long: bool,
    pub offsets: Vec<u32>,
}

/// The `i`-th offset that `raw` encodes: 32 bits as they are, or 16 bits
/// that count pairs of bytes.
pub open spec fn loca_offset(raw: Seq<u8>, long: bool, i: int) -> int {
    if long {
        be_u32(raw, 4 * i)
    } else {
        2 * be_u16(raw, 2 * i)
    }
}

/// The bytes that `count` offsets occupy.
pub open spec fn loca_len(long: bool, count: int) -> int {
    if long {
        4 * count
    } else {
        2 * count
    }
}

/// Whether the first `n` offsets of `raw` never decrease.
pub open spec fn loca_monotone(raw: Seq<u8>, long: bool, n: int) -> bool {
    forall|i: int| 0 < i < n ==> loca_offset(raw, long, i - 1) <= #[trigger] loca_offset(raw, long, i)
}

/// Whether `raw` is a location index for `glyphs` glyphs.
pub open spec fn loca_valid(raw: Seq<u8>, long: bool, glyphs: int) -> bool {
    raw.len() >= loca_len(long, glyphs + 1) && loca_monotone(raw, long, glyphs + 1)
}

/// Whether an offset fits a 16-bit entry: it is even and its half is below
/// 2^16.
pub open spec fn fits_short(v: u32) -> bool {
    v % 2 == 0 && v <= 131070
}

/// The bytes of the first `n` offsets in the width that `long` gives.
pub open spec fn loca_bytes(offsets: Seq<u32>, long: bool, n: nat) -> Seq<u8>
    decreases n,
{
    if n == 0 {
        Seq::empty()
    } else if long {
        loca_bytes(offsets, long, (n - 1) as nat) + u32_bytes(offsets[n - 1])
    } else {
        loca_bytes(offsets, long, (n - 1) as nat) + u16_bytes((offsets[n - 1] / 2) as u16)
    }
}

impl LocationIndex {
    /// Whether the index can be written in the width that `long` gives.
    pub open spec fn encodable_as(&self, long: bool) -> bool {
        long || forall|i: int| 0 <= i < self.offsets@.len() ==> fits_short(#[trigger] self.offsets@[i])
    }

    /// Encodes the index in the width that `long` gives; fails where that
    /// width is 16 bits and an offset does not fit.
    pub fn encode_as(&self, long: bool) -> (r: Result<Vec<u8>, BuildError>)
        ensures
            match r {
                Ok(v) => self.encodable_as(long) && v@ == loca_bytes(self.offsets@, long, self.offsets@.len()),
                Err(e) => !self.encodable_as(long) && e == BuildError::EncodeFailure,
            },
    {
        let mut out: Vec<u8> = Vec::new();
        let mut i: usize = 0;
        while i < self.offsets.len()
            invariant
                i <= self.offsets@.len(),
                out@ == loca_bytes(self.offsets@, long, i as nat),
                long || forall|k: int| 0 <= k < i ==> fits_short(#[trigger] self.offsets@[k]),
            decreases self.offsets@.len() - i,
        {
            let v: u32 = self.offsets[i];
            if long {
                push_u32(&mut out, v);
            } else {
                if v % 2 != 0 || v > 131070 {
                    assert(!fits_short(self.offsets@[i as int]));
                    return Err(BuildError::EncodeFailure);
                }
                push_u16(&mut out, (v / 2) as u16);
            }
            i += 1;
        }
        Ok(out)
    }

    /// Encodes the index in the width it was read in.
    pub fn encode(&self) -> (r: Result<Vec<u8>, BuildError>)
        ensures
            match r {
                Ok(v) => self.encodable_as(self.long) && v@ == loca_bytes(
                    self.offsets@,
                    self.long,
                    self.offsets@.len(),
                ),
                Err(e) => !self.encodable_as(self.long) && e == BuildError::EncodeFailure,
            },
    {
        self.encode_as(self.long)
    }

    /// Whether the offsets never decrease.
    pub open spec fn wf(&self) -> bool {
        &&& self.offsets@.len() >= 1
        &&& forall|i: int| 0 < i < self.offsets@.len() ==> self.offsets@[i - 1] <= #[trigger] self.offsets@[i]
    }

    /// Number of glyphs that the index delimits.
    pub open spec fn glyph_count(&self) -> int {
        self.offsets@.len() - 1
    }

    /// Decodes the index of `glyphs` glyphs in the width that `long` gives;
    /// malformed where `raw` is too short or an offset is less than the one
    /// before.
    pub fn decode(raw: &[u8], long: bool, glyphs: u16) -> (r: Result<LocationIndex, FormatError>)
        ensures
            match r {
                Ok(x) => {
                    &&& loca_valid(raw@, long, glyphs as int)
                    &&& x.wf()
                    &&& x.long == long
                    &&& x.offsets@.len() == glyphs + 1
                    &&& forall|i: int| 0 <= i <= glyphs ==> x.offsets@[i] as int == loca_offset(raw@, long, i)
                },
                Err(e) => !loca_valid(raw@, long, glyphs as int) && e == FormatError::Malformed,
            },
    {
        let count: usize = glyphs as usize + 1;
        let width: usize = if long {
            4
        } else {
            2
        };
        if raw.len() / width < count {
            return Err(FormatError::Malformed);
        }
        let mut offsets: Vec<u32> = Vec::new();
        let mut i: usize = 0;
        while i < count
            invariant
                i <= count,
                count == glyphs + 1,
                raw@.len() >= loca_len(long, count as int),
                offsets@.len() == i,
                forall|k: int| 0 <= k < i ==> offsets@[k] as int == loca_offset(raw@, long, k),
                loca_monotone(raw@, long, i as int),
            decreases count - i,
        {
            let v: u32 = if long {
                read_u32(raw, 4 * i)
            } else {
                2 * (read_u16(raw, 2 * i) as u32)
            };
            if i > 0 && v < offsets[i - 1] {
                assert(loca_offset(raw@, long, i as int - 1) > loca_offset(raw@, long, i as int));
                return Err(FormatError::Malformed);
            }
            offsets.push(v);
            i += 1;
        }
        Ok(LocationIndex { long, offsets })
    }
}

/// Encoding a decoded location index gives its bytes back, each of them.
pub proof fn lemma_location_round_trip(offsets: Seq<u32>, raw: Seq<u8>, long: bool, n: nat)
    requires
        n <= offsets.len(),
        raw.len() >= loca_len(long, n as int),
        forall|i: int| 0 <= i < n ==> offsets[i] as int == loca_offset(raw, long, i),
    ensures
        loca_bytes(offsets, long, n) == raw.subrange(0, loca_len(long, n as int)),
    decreases n,
{
    if n > 0 {
        lemma_location_round_trip(offsets, raw, long, (n - 1) as nat);
        assert(offsets[n - 1] as int == loca_offset(raw, long, n - 1));
        if long {
            crate::bytes::lemma_u32_bytes_of_read(raw, 4 * (n - 1));
            assert(loca_bytes(offsets, long, n) =~= raw.subrange(0, 4 * (n as int)));
        } else {
            lemma_u16_bytes_of_read(raw, 2 * (n - 1));
            assert(offsets[n - 1] / 2 == be_u16(raw, 2 * (n - 1)));
            assert(loca_bytes(offsets, long, n) =~= raw.subrange(0, 2 * (n as int)));
        }
    } else {
        assert(loca_bytes(offsets, long, n) =~= raw.subrange(0, 0));
    }
}

/// Decodes the location index of a font from its three tables: the width
/// comes from the flag in `head`, the number of glyphs from `maxp`.
pub fn location_index(head: &[u8], maxp: &[u8], loca: &[u8]) -> (r: Result<LocationIndex, FormatError>)
    ensures
        match r {
            Ok(x) => {
                &&& maxp@.len() >= 6
                &&& loc_format_of(head@) == Some(x.long)
                &&& loca_valid(loca@, x.long, be_u16(maxp@, 4))
                &&& x.wf()
                &&& x.offsets@.len() == be_u16(maxp@, 4) + 1
                &&& forall|i: int| 0 <= i <= be_u16(maxp@, 4) ==> x.offsets@[i] as int == loca_offset(loca@, x.long, i)
            },
            Err(e) => e == FormatError::Malformed && (maxp@.len() < 6 || match loc_format_of(head@) {
                Some(long) => !loca_valid(loca@, long, be_u16(maxp@, 4)),
                None => true,
            }),
        },
{
    let count = match GlyphCount::decode(maxp) {
        Ok(g) => g.num_glyphs,
        Err(e) => {
            return Err(e);
        },
    };
    let long = match loc_format(head) {
        Ok(long) => long,
        Err(e) => {
            return Err(e);
        },
    };
    LocationIndex::decode(loca, long, count)
}

} // verus!
