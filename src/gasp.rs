use vstd::prelude::*;
use crate::codec::{Deserialize, Serialize};
use crate::error::{DeserializationError, SerializationError};
use crate::primitives::{be16, fits, read16, read_u16, write_u16};
use crate::reader::ReaderContext;
use crate::tag::Tag;

verus! {

/// Grid-fit glyphs at sizes in the range.
pub const GASP_GRIDFIT: u16 = 0x0001;

/// Use grayscale rendering at sizes in the range.
pub const GASP_DOGRAY: u16 = 0x0002;

/// Use gridfitting with ClearType symmetric smoothing.
pub const GASP_SYMMETRIC_GRIDFIT: u16 = 0x0004;

/// Use smoothing along multiple axes with ClearType.
pub const GASP_SYMMETRIC_SMOOTHING: u16 = 0x0008;

/// The tag of the rendering-hint table.
pub const GASP_TAG: u32 = 0x67617370;

/// One size range of the rendering-hint table and how to render it.
#[derive(Clone, Copy, Debug, PartialEq, Eq, Structural)]
#[allow(non_snake_case)]
pub struct GaspRecord {
    /// Upper limit of the range, in pixels per em.
    pub rangeMaxPPEM: u16,
    /// Flags describing the desired rasterizer behavior.
    pub rangeGaspBehavior: u16,
}

/// The rendering-hint (grid-fitting and scan-conversion) table.
#[derive(Clone, Debug, PartialEq)]
#[allow(non_camel_case_types, non_snake_case)]
pub struct gasp {
    /// Version number (0 or 1).
    pub version: u16,
    /// The size ranges, in ascending order of their upper limits.
    pub gaspRanges: Vec<GaspRecord>,
}

impl View for gasp {
    type V = (u16, Seq<GaspRecord>);

    open spec fn view(&self) -> (u16, Seq<GaspRecord>) {
        (self.version, self.gaspRanges@)
    }
}

/// The bytes of the ranges of `r`, one after the other.
pub open spec fn ranges_bytes(r: Seq<GaspRecord>) -> Seq<u8>
    decreases r.len(),
{
    if r.len() == 0 {
        Seq::empty()
    } else {
        ranges_bytes(r.drop_last()) + be16(r.last().rangeMaxPPEM) + be16(r.last().rangeGaspBehavior)
    }
}

/// Range `i` of the table at `pos`.
pub open spec fn range_read(input: Seq<u8>, pos: int, i: int) -> GaspRecord {
    GaspRecord {
        rangeMaxPPEM: read16(input, pos + 4 + 4 * i),
        rangeGaspBehavior: read16(input, pos + 6 + 4 * i),
    }
}

impl Serialize for gasp {
    open spec fn ser_ok(&self) -> bool {
        self.gaspRanges@.len() <= 0xFFFF
    }

    open spec fn ser_spec(&self) -> Seq<u8> {
        be16(self.version) + be16(self.gaspRanges@.len() as u16) + ranges_bytes(self.gaspRanges@)
    }

    fn to_bytes(&self, data: &mut Vec<u8>) -> (r: Result<(), SerializationError>) {
        if self.gaspRanges.len() > 0xFFFF {
            return Err(SerializationError::WidthOverflow);
        }
        let ghost start = data@;
        write_u16(self.version, data);
        write_u16(self.gaspRanges.len() as u16, data);
        let ghost head = data@;
        let mut i: usize = 0;
        while i < self.gaspRanges.len()
            invariant
                i <= self.gaspRanges@.len(),
                data@ == head + ranges_bytes(self.gaspRanges@.take(i as int)),
            decreases self.gaspRanges@.len() - i,
        {
            let rec = self.gaspRanges[i];
            write_u16(rec.rangeMaxPPEM, data);
            write_u16(rec.rangeGaspBehavior, data);
            proof {
                assert(self.gaspRanges@.take(i + 1).drop_last() =~= self.gaspRanges@.take(i as int));
                assert(data@ =~= head + ranges_bytes(self.gaspRanges@.take(i + 1)));
            }
            i = i + 1;
        }
        assert(self.gaspRanges@.take(self.gaspRanges@.len() as int) =~= self.gaspRanges@);
        assert(data@ =~= start + self.ser_spec());
        Ok(())
    }
}

impl Deserialize for gasp {
    open spec fn de_spec(input: Seq<u8>, pos: int) -> Option<((u16, Seq<GaspRecord>), int)> {
        if fits(input, pos, 4) && fits(input, pos, 4 + 4 * read16(input, pos + 2)) {
            let n = read16(input, pos + 2) as int;
            Some(
                (
                    (read16(input, pos), Seq::new(n as nat, |i: int| range_read(input, pos, i))),
                    pos + 4 + 4 * n,
                ),
            )
        } else {
            None
        }
    }

    fn from_bytes(c: &mut ReaderContext) -> (r: Result<Self, DeserializationError>) {
        let ghost input = c.input@;
        let start = c.ptr;
        let version = match read_u16(c) {
            Ok(v) => v,
            Err(e) => {
                return Err(e);
            },
        };
        let count = match read_u16(c) {
            Ok(v) => v,
            Err(e) => {
                return Err(e);
            },
        };
        let mut ranges: Vec<GaspRecord> = Vec::new();
        let mut i: usize = 0;
        while i < count as usize
            invariant
                input == old(c).input@,
                start == old(c).ptr,
                c.input@ == input,
                c.origins() == old(c).origins(),
                count == read16(input, start + 2),
                fits(input, start as int, 4),
                i <= count,
                c.ptr == start + 4 + 4 * i,
                c.ptr <= input.len(),
                ranges@.len() == i,
                forall|j: int| 0 <= j < i ==> #[trigger] ranges@[j] == range_read(input, start as int, j),
            decreases count - i,
        {
            let max_ppem = match read_u16(c) {
                Ok(v) => v,
                Err(e) => {
                    return Err(e);
                },
            };
            let behavior = match read_u16(c) {
                Ok(v) => v,
                Err(e) => {
                    return Err(e);
                },
            };
            ranges.push(GaspRecord { rangeMaxPPEM: max_ppem, rangeGaspBehavior: behavior });
            i = i + 1;
        }
        let table = gasp { version, gaspRanges: ranges };
        assert(table@.1 =~= Seq::new(count as nat, |j: int| range_read(input, start as int, j)));
        Ok(table)
    }
}

/// A rendering-hint table that asks for every kind of smoothing and grid
/// fitting at every size: one range up to 65535 pixels per em, all four
/// behavior flags set.
pub fn smooth_all_sizes() -> (r: gasp)
    ensures
        r.version == 1,
        r.gaspRanges@.len() == 1,
        r.gaspRanges@[0].rangeMaxPPEM == 0xFFFF,
        r.gaspRanges@[0].rangeGaspBehavior == 0x000F,
{
    let flags = GASP_SYMMETRIC_SMOOTHING | GASP_DOGRAY | GASP_GRIDFIT | GASP_SYMMETRIC_GRIDFIT;
    assert(flags == 0x000F) by (bit_vector)
        requires
            flags == 0x0008u16 | 0x0002u16 | 0x0001u16 | 0x0004u16,
    ;
    gasp { version: 1, gaspRanges: vec![GaspRecord { rangeMaxPPEM: 0xFFFF, rangeGaspBehavior: flags }] }
}

/// The tags of the table directory of the font in `font`: the table count
/// at byte 4, then a sixteen-byte record per table from byte 12, each
/// starting with its tag.
pub open spec fn directory_tags(font: Seq<u8>) -> Seq<u32> {
    Seq::new(
        read16(font, 4) as nat,
        |i: int|
            (font[12 + 16 * i] * 0x100_0000 + font[13 + 16 * i] * 0x1_0000 + font[14 + 16 * i] * 256
                + font[15 + 16 * i]) as u32,
    )
}

/// Whether the table directory of `font` lists a table tagged `tag`; fails
/// with `UnexpectedEof` where the directory runs past the end of `font`.
pub fn has_table(font: &[u8], tag: Tag) -> (r: Result<bool, DeserializationError>)
    ensures
        fits(font@, 0, 6) && fits(font@, 0, 12 + 16 * read16(font@, 4)) ==> r == Ok::<
            bool,
            DeserializationError,
        >(directory_tags(font@).contains(tag.0)),
        !(fits(font@, 0, 6) && fits(font@, 0, 12 + 16 * read16(font@, 4))) ==> r == Err::<
            bool,
            DeserializationError,
        >(DeserializationError::UnexpectedEof),
{
    if font.len() < 6 {
        return Err(DeserializationError::UnexpectedEof);
    }
    let n = font[4] as usize * 256 + font[5] as usize;
    if font.len() < 12 + 16 * n {
        return Err(DeserializationError::UnexpectedEof);
    }
    let ghost tags = directory_tags(font@);
    let mut i: usize = 0;
    while i < n
        invariant
            n == read16(font@, 4),
            12 + 16 * n <= font@.len(),
            tags == directory_tags(font@),
            i <= n,
            forall|j: int| 0 <= j < i ==> tags[j] != tag.0,
        decreases n - i,
    {
        let at = 12 + 16 * i;
        let t = font[at] as u32 * 0x100_0000 + font[at + 1] as u32 * 0x1_0000 + font[at + 2] as u32 * 256
            + font[at + 3] as u32;
        assert(t == tags[i as int]);
        if t == tag.0 {
            return Ok(true);
        }
        i = i + 1;
    }
    assert(!tags.contains(tag.0));
    Ok(false)
}

/// The rendering-hint table to add to `font`: none where the font has one
/// already, which leaves the font as it is; else one that smooths at every
/// size.
pub fn gasp_to_add(font: &[u8]) -> (r: Result<Option<gasp>, DeserializationError>)
    ensures
        fits(font@, 0, 6) && fits(font@, 0, 12 + 16 * read16(font@, 4)) ==> r is Ok && (r->Ok_0
            is None <==> directory_tags(font@).contains(GASP_TAG)),
        r is Ok && r->Ok_0 is Some ==> {
            let g = r->Ok_0->Some_0;
            g.version == 1 && g.gaspRanges@.len() == 1 && g.gaspRanges@[0].rangeMaxPPEM == 0xFFFF
                && g.gaspRanges@[0].rangeGaspBehavior == 0x000F
        },
        !(fits(font@, 0, 6) && fits(font@, 0, 12 + 16 * read16(font@, 4))) ==> r == Err::<
            Option<gasp>,
            DeserializationError,
        >(DeserializationError::UnexpectedEof),
{
    match has_table(font, Tag(GASP_TAG)) {
        Ok(true) => Ok(None),
        Ok(false) => Ok(Some(smooth_all_sizes())),
        Err(e) => Err(e),
    }
}

} // verus!
