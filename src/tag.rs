use vstd::prelude::*;
use vstd::string::StringSliceAdditionalSpecFns;
use crate::codec::{Deserialize, Serialize};
use crate::error::{DeserializationError, SerializationError};
use crate::primitives::{be32, fits, read32};
use crate::reader::ReaderContext;

verus! {

/// A four-byte table, script, language or feature tag, held as the
/// big-endian number of its bytes, so that numeric order is tag order.
#[derive(Clone, Copy, Debug, PartialEq, Eq, Structural, Hash, PartialOrd, Ord)]
pub struct Tag(pub u32);

/// Whether `b` is a byte allowed in a tag: printable ASCII.
pub open spec fn tag_byte(b: u8) -> bool {
    0x20 <= b <= 0x7E
}

/// Whether `b` spells a tag: four printable ASCII bytes.
pub open spec fn valid_tag(b: Seq<u8>) -> bool {
    b.len() == 4 && forall|i: int| 0 <= i < 4 ==> #[trigger] tag_byte(b[i])
}

impl View for Tag {
    type V = u32;

    open spec fn view(&self) -> u32 {
        self.0
    }
}

impl Tag {
    /// The tag spelt by `s`; fails with `InvalidTag` unless `s` is four
    /// printable ASCII characters.
    pub fn from_raw(s: &str) -> (r: Result<Tag, DeserializationError>)
        ensures
            valid_tag(s.spec_bytes()) ==> r == Ok::<Tag, DeserializationError>(
                Tag(read32(s.spec_bytes(), 0)),
            ),
            !valid_tag(s.spec_bytes()) ==> r == Err::<Tag, DeserializationError>(
                DeserializationError::InvalidTag,
            ),
    {
        let b = s.as_bytes();
        if b.len() != 4 {
            return Err(DeserializationError::InvalidTag);
        }
        let mut i: usize = 0;
        while i < 4
            invariant
                b@ == s.spec_bytes(),
                b@.len() == 4,
                i <= 4,
                forall|j: int| 0 <= j < i ==> #[trigger] tag_byte(b@[j]),
            decreases 4 - i,
        {
            if b[i] < 0x20 || b[i] > 0x7E {
                assert(!tag_byte(b@[i as int]));
                return Err(DeserializationError::InvalidTag);
            }
            i = i + 1;
        }
        Ok(Tag(b[0] as u32 * 0x100_0000 + b[1] as u32 * 0x1_0000 + b[2] as u32 * 256 + b[3] as u32))
    }

    /// The four bytes of the tag.
    pub fn as_bytes(&self) -> (r: Vec<u8>)
        ensures
            r@ == be32(self.0),
    {
        let v = self.0;
        let r = vec![(v / 0x100_0000) as u8, ((v / 0x1_0000) % 256) as u8, ((v / 256) % 256) as u8, (v % 256) as u8];
        assert(r@ =~= be32(v));
        r
    }
}

impl Serialize for Tag {
    open spec fn ser_ok(&self) -> bool {
        true
    }

    open spec fn ser_spec(&self) -> Seq<u8> {
        be32(self.0)
    }

    fn to_bytes(&self, data: &mut Vec<u8>) -> (r: Result<(), SerializationError>) {
        self.0.to_bytes(data)
    }
}

impl Deserialize for Tag {
    open spec fn de_spec(input: Seq<u8>, pos: int) -> Option<(u32, int)> {
        if fits(input, pos, 4) {
            Some((read32(input, pos), pos + 4))
        } else {
            None
        }
    }

    fn from_bytes(c: &mut ReaderContext) -> (r: Result<Self, DeserializationError>) {
        match u32::from_bytes(c) {
            Ok(v) => Ok(Tag(v)),
            Err(e) => Err(e),
        }
    }
}

} // verus!

verus! {

/// A tag reads back from its bytes, wherever they stand.
pub proof fn lemma_tag_round_trip(t: Tag, before: Seq<u8>, after: Seq<u8>)
    ensures
        Tag::de_spec(before + t.ser_spec() + after, before.len() as int) == Some(
            (t@, before.len() as int + 4),
        ),
{
    crate::primitives::lemma_u32_round_trip(t.0, before, after);
}

} // verus!
