use vstd::prelude::*;
use vstd::string::StrSliceExecFns;
use crate::codec::{Deserialize, Serialize};
use crate::error::{DeserializationError, SerializationError};
use crate::primitives::{be16, fits, read16, read_u16, write_u16};
use crate::reader::ReaderContext;
use encoding::all::{
    BIG5_2003, GBK, MAC_CYRILLIC, MAC_ROMAN, UTF_16BE, WINDOWS_1252, WINDOWS_31J, WINDOWS_949,
};
use encoding::{DecoderTrap, EncoderTrap};

verus! {

/// The text encodings that name records are stored in.
#[derive(Clone, Copy, Debug, PartialEq, Eq, Structural)]
pub enum TextEncoding {
    Utf16Be,
    MacRoman,
    MacCyrillic,
    Windows1252,
    Windows31J,
    Gbk,
    Big5_2003,
    Windows949,
}

/// The text encoding of a platform/encoding pair, if it has one.
///
/// Every Macintosh encoding other than Cyrillic is read as Macintosh Roman:
/// an approximation kept as a known limitation.
pub open spec fn encoding_for(platform_id: u16, encoding_id: u16) -> Option<TextEncoding> {
    if platform_id == 0 {
        Some(TextEncoding::Utf16Be)
    } else if platform_id == 1 {
        if encoding_id == 7 {
            Some(TextEncoding::MacCyrillic)
        } else {
            Some(TextEncoding::MacRoman)
        }
    } else if platform_id == 2 {
        if encoding_id == 0 || encoding_id == 2 {
            Some(TextEncoding::Windows1252)
        } else if encoding_id == 1 {
            Some(TextEncoding::Utf16Be)
        } else {
            None
        }
    } else if platform_id == 3 {
        if encoding_id == 2 {
            Some(TextEncoding::Windows31J)
        } else if encoding_id == 3 {
            Some(TextEncoding::Gbk)
        } else if encoding_id == 4 {
            Some(TextEncoding::Big5_2003)
        } else if encoding_id == 5 {
            Some(TextEncoding::Windows949)
        } else if encoding_id == 6 {
            None
        } else {
            Some(TextEncoding::Utf16Be)
        }
    } else {
        None
    }
}

/// The text encoding of a platform/encoding pair, or `None` where the pair
/// has none.
pub fn get_encoding(platform_id: u16, encoding_id: u16) -> (r: Option<TextEncoding>)
    ensures
        r == encoding_for(platform_id, encoding_id),
{
    if platform_id == 0 {
        Some(TextEncoding::Utf16Be)
    } else if platform_id == 1 {
        if encoding_id == 7 {
            Some(TextEncoding::MacCyrillic)
        } else {
            Some(TextEncoding::MacRoman)
        }
    } else if platform_id == 2 {
        match encoding_id {
            0 | 2 => Some(TextEncoding::Windows1252),
            1 => Some(TextEncoding::Utf16Be),
            _ => None,
        }
    } else if platform_id == 3 {
        match encoding_id {
            2 => Some(TextEncoding::Windows31J),
            3 => Some(TextEncoding::Gbk),
            4 => Some(TextEncoding::Big5_2003),
            5 => Some(TextEncoding::Windows949),
            6 => None,
            _ => Some(TextEncoding::Utf16Be),
        }
    } else {
        None
    }
}

/// The text that `bytes` decode to in `enc`, undecodable bytes replaced.
pub uninterp spec fn decoded_text(enc: TextEncoding, bytes: Seq<u8>) -> Seq<char>;

/// The bytes that `text` encodes to in `enc`, unencodable characters replaced.
pub uninterp spec fn encoded_text(enc: TextEncoding, text: Seq<char>) -> Seq<u8>;

/// Relies on `encoding::Encoding::decode` with `DecoderTrap::Replace`, which
/// substitutes U+FFFD for undecodable input and so never fails.
#[verifier::external_body]
fn decode_text(enc: TextEncoding, bytes: &[u8]) -> (r: String)
    ensures
        r@ == decoded_text(enc, bytes@),
{
    let e: encoding::EncodingRef = match enc {
        TextEncoding::Utf16Be => UTF_16BE,
        TextEncoding::MacRoman => MAC_ROMAN,
        TextEncoding::MacCyrillic => MAC_CYRILLIC,
        TextEncoding::Windows1252 => WINDOWS_1252,
        TextEncoding::Windows31J => WINDOWS_31J,
        TextEncoding::Gbk => GBK,
        TextEncoding::Big5_2003 => BIG5_2003,
        TextEncoding::Windows949 => WINDOWS_949,
    };
    e.decode(bytes, DecoderTrap::Replace).unwrap()
}

/// Relies on `encoding::Encoding::encode` with `EncoderTrap::Replace`, which
/// substitutes `?` for unencodable characters and so never fails.
#[verifier::external_body]
fn encode_text(enc: TextEncoding, text: &str) -> (r: Vec<u8>)
    ensures
        r@ == encoded_text(enc, text@),
{
    let e: encoding::EncodingRef = match enc {
        TextEncoding::Utf16Be => UTF_16BE,
        TextEncoding::MacRoman => MAC_ROMAN,
        TextEncoding::MacCyrillic => MAC_CYRILLIC,
        TextEncoding::Windows1252 => WINDOWS_1252,
        TextEncoding::Windows31J => WINDOWS_31J,
        TextEncoding::Gbk => GBK,
        TextEncoding::Big5_2003 => BIG5_2003,
        TextEncoding::Windows949 => WINDOWS_949,
    };
    e.encode(text, EncoderTrap::Replace).unwrap()
}


/// A single name record: which string it is, for which platform, encoding
/// and language, and the text itself.
#[derive(Clone, Debug, PartialEq)]
#[allow(non_snake_case)]
pub struct NameRecord {
    /// Platform ID (0=Unicode, 1=Macintosh, 3=Windows)
    pub platformID: u16,
    /// Identifier for encoding of string content. Platform-specific.
    pub encodingID: u16,
    /// Identifier for language of string content. Platform-specific.
    pub languageID: u16,
    /// The numeric identifier representing the type of data. See NameRecordID.
    pub nameID: u16,
    /// The actual content
    pub string: String,
}

/// What a name record holds, its text as characters.
pub struct NameRecordView {
    pub platform_id: u16,
    pub encoding_id: u16,
    pub language_id: u16,
    pub name_id: u16,
    pub string: Seq<char>,
}

impl View for NameRecord {
    type V = NameRecordView;

    open spec fn view(&self) -> NameRecordView {
        NameRecordView {
            platform_id: self.platformID,
            encoding_id: self.encodingID,
            language_id: self.languageID,
            name_id: self.nameID,
            string: self.string@,
        }
    }
}

/// Whether any character of `s` lies outside the Basic Multilingual Plane.
pub open spec fn beyond_bmp(s: Seq<char>) -> bool {
    exists|i: int| 0 <= i < s.len() && (#[trigger] s[i]) as u32 > 0xFFFF
}

impl NameRecord {
    /// A record for the Windows platform and US English: Unicode BMP
    /// encoding (1) where every character lies in the Basic Multilingual
    /// Plane, full Unicode (10) otherwise.
    pub fn windows_unicode(n: u16, s: String) -> (r: NameRecord)
        ensures
            r.platformID == 3,
            r.encodingID == if beyond_bmp(s@) {
                10u16
            } else {
                1u16
            },
            r.languageID == 0x409,
            r.nameID == n,
            r.string@ == s@,
    {
        let len = s.as_str().unicode_len();
        let mut i: usize = 0;
        let mut wide = false;
        while i < len
            invariant
                len == s@.len(),
                i <= len,
                wide == exists|j: int| 0 <= j < i && (#[trigger] s@[j]) as u32 > 0xFFFF,
            decreases len - i,
        {
            let c = s.as_str().get_char(i);
            if c as u32 > 0xFFFF {
                wide = true;
            }
            i = i + 1;
        }
        NameRecord {
            platformID: 3,
            encodingID: if wide {
                10
            } else {
                1
            },
            languageID: 0x409,
            nameID: n,
            string: s,
        }
    }
}

/// The bytes of a record's text, in its platform's encoding.
pub open spec fn text_bytes(r: NameRecordView) -> Seq<u8> {
    encoded_text(encoding_for(r.platform_id, r.encoding_id).unwrap(), r.string)
}

/// The string pool of `recs`: the texts' bytes one after the other.
pub open spec fn pool(recs: Seq<NameRecordView>) -> Seq<u8>
    decreases recs.len(),
{
    if recs.len() == 0 {
        Seq::empty()
    } else {
        pool(recs.drop_last()) + text_bytes(recs.last())
    }
}

/// The twelve header bytes of a record whose text starts `offset` bytes into
/// the pool.
pub open spec fn record_header(r: NameRecordView, offset: int) -> Seq<u8> {
    be16(r.platform_id) + be16(r.encoding_id) + be16(r.language_id) + be16(r.name_id) + be16(
        text_bytes(r).len() as u16,
    ) + be16(offset as u16)
}

/// The record headers of `recs`, one after the other.
pub open spec fn headers(recs: Seq<NameRecordView>) -> Seq<u8>
    decreases recs.len(),
{
    if recs.len() == 0 {
        Seq::empty()
    } else {
        headers(recs.drop_last()) + record_header(recs.last(), pool(recs.drop_last()).len() as int)
    }
}

/// Whether a table of `recs` can be written: every record has a text
/// encoding, and every count, length and offset fits in 16 bits.
pub open spec fn name_ser_ok(recs: Seq<NameRecordView>) -> bool {
    &&& 6 + 12 * recs.len() <= 0xFFFF
    &&& forall|i: int|
        0 <= i < recs.len() ==> (#[trigger] encoding_for(recs[i].platform_id, recs[i].encoding_id)) is Some
    &&& forall|i: int|
        0 <= i < recs.len() ==> (#[trigger] text_bytes(recs[i])).len() <= 0xFFFF && pool(
            recs.take(i),
        ).len() <= 0xFFFF
}

/// The binary form of a table of `recs`: version 0, the count, the pool's
/// offset, the record headers, then the pool.
#[verifier::opaque]
pub open spec fn name_bytes(recs: Seq<NameRecordView>) -> Seq<u8> {
    be16(0) + be16(recs.len() as u16) + be16((6 + 12 * recs.len()) as u16) + headers(recs) + pool(
        recs,
    )
}

/// A font's name (naming) table.
#[derive(Clone, Debug, PartialEq)]
#[allow(non_camel_case_types)]
pub struct name {
    /// A set of name records.
    pub records: Vec<NameRecord>,
}

impl View for name {
    type V = Seq<NameRecordView>;

    open spec fn view(&self) -> Seq<NameRecordView> {
        self.records@.map_values(|r: NameRecord| r@)
    }
}


proof fn lemma_take_step(recs: Seq<NameRecordView>, i: int)
    requires
        0 <= i < recs.len(),
    ensures
        headers(recs.take(i + 1)) == headers(recs.take(i)) + record_header(
            recs[i],
            pool(recs.take(i)).len() as int,
        ),
        pool(recs.take(i + 1)) == pool(recs.take(i)) + text_bytes(recs[i]),
{
    let t = recs.take(i + 1);
    assert(t.drop_last() =~= recs.take(i));
    assert(t.last() == recs[i]);
}

impl Serialize for name {
    open spec fn ser_ok(&self) -> bool {
        name_ser_ok(self@)
    }

    open spec fn ser_spec(&self) -> Seq<u8> {
        name_bytes(self@)
    }

    /// Writes the header and the fixed record fields first, then the pool of
    /// encoded texts; fails where a record has no text encoding or a count,
    /// length or offset overflows its 16-bit field.
    #[verifier::rlimit(80)]
    #[verifier::spinoff_prover]
    fn to_bytes(&self, data: &mut Vec<u8>) -> (r: Result<(), SerializationError>) {
        let n = self.records.len();
        let ghost recs = self@;
        if n > 5460 {
            return Err(SerializationError::WidthOverflow);
        }
        let mut hdr: Vec<u8> = Vec::new();
        let mut string_pool: Vec<u8> = Vec::new();
        let mut i: usize = 0;
        while i < n
            invariant
                n == recs.len(),
                recs == self@,
                n <= 5460,
                i <= n,
                hdr@ == headers(recs.take(i as int)),
                string_pool@ == pool(recs.take(i as int)),
                forall|j: int|
                    0 <= j < i ==> (#[trigger] encoding_for(
                        recs[j].platform_id,
                        recs[j].encoding_id,
                    )) is Some,
                forall|j: int|
                    0 <= j < i ==> (#[trigger] text_bytes(recs[j])).len() <= 0xFFFF && pool(
                        recs.take(j),
                    ).len() <= 0xFFFF,
            decreases n - i,
        {
            let record = &self.records[i];
            let ghost rv = recs[i as int];
            assert(rv == record@);
            let enc = match get_encoding(record.platformID, record.encodingID) {
                Some(e) => e,
                None => {
                    assert(encoding_for(recs[i as int].platform_id, recs[i as int].encoding_id) is None);
                    return Err(SerializationError::UnsupportedEncoding);
                },
            };
            let encoded = encode_text(enc, record.string.as_str());
            assert(encoded@ == text_bytes(rv));
            if encoded.len() > 0xFFFF || string_pool.len() > 0xFFFF {
                assert(text_bytes(recs[i as int]).len() > 0xFFFF || pool(recs.take(i as int)).len() > 0xFFFF);
                return Err(SerializationError::WidthOverflow);
            }
            let ghost before_hdr = hdr@;
            let ghost before_pool = string_pool@;
            write_u16(record.platformID, &mut hdr);
            write_u16(record.encodingID, &mut hdr);
            write_u16(record.languageID, &mut hdr);
            write_u16(record.nameID, &mut hdr);
            write_u16(encoded.len() as u16, &mut hdr);
            write_u16(string_pool.len() as u16, &mut hdr);
            let mut bytes = encoded;
            string_pool.append(&mut bytes);
            proof {
                lemma_take_step(recs, i as int);
                assert(hdr@ =~= before_hdr + record_header(rv, before_pool.len() as int));
                assert(string_pool@ =~= before_pool + text_bytes(rv));
            }
            i = i + 1;
        }
        let ghost start = data@;
        write_u16(0, data);
        write_u16(n as u16, data);
        write_u16((6 + 12 * n) as u16, data);
        data.append(&mut hdr);
        data.append(&mut string_pool);
        proof {
            reveal(name_bytes);
            assert(recs.take(n as int) =~= recs);
            assert(data@ =~= start + name_bytes(recs));
        }
        Ok(())
    }
}


/// Field `k` of the header of record `i` of the table at `pos`.
pub open spec fn header_field(input: Seq<u8>, pos: int, i: int, k: int) -> u16 {
    read16(input, pos + 6 + 12 * i + 2 * k)
}

/// Where the text of record `i` of the table at `pos` starts: the pool's
/// offset from the table's start plus the record's offset into the pool.
pub open spec fn text_start(input: Seq<u8>, pos: int, i: int) -> int {
    pos + read16(input, pos + 4) + header_field(input, pos, i, 5)
}

/// How many bytes the text of record `i` of the table at `pos` has.
pub open spec fn text_len(input: Seq<u8>, pos: int, i: int) -> int {
    header_field(input, pos, i, 4) as int
}

/// Whether record `i` of the table at `pos` can be read: its text lies
/// within the input and its platform/encoding pair has a text encoding.
pub open spec fn record_readable(input: Seq<u8>, pos: int, i: int) -> bool {
    &&& fits(input, text_start(input, pos, i), text_len(input, pos, i))
    &&& encoding_for(header_field(input, pos, i, 0), header_field(input, pos, i, 1)) is Some
}

/// Record `i` of the table at `pos`, its text decoded.
pub open spec fn record_read(input: Seq<u8>, pos: int, i: int) -> NameRecordView {
    let start = text_start(input, pos, i);
    NameRecordView {
        platform_id: header_field(input, pos, i, 0),
        encoding_id: header_field(input, pos, i, 1),
        language_id: header_field(input, pos, i, 2),
        name_id: header_field(input, pos, i, 3),
        string: decoded_text(
            encoding_for(header_field(input, pos, i, 0), header_field(input, pos, i, 1)).unwrap(),
            input.subrange(start, start + text_len(input, pos, i)),
        ),
    }
}

/// The record count of the table at `pos`.
pub open spec fn name_count(input: Seq<u8>, pos: int) -> int {
    read16(input, pos + 2) as int
}

/// Whether the table at `pos` can be read: its header and record headers lie
/// within the input, and so does every record.
pub open spec fn name_readable(input: Seq<u8>, pos: int) -> bool {
    &&& fits(input, pos, 6)
    &&& fits(input, pos, 6 + 12 * name_count(input, pos))
    &&& forall|i: int| 0 <= i < name_count(input, pos) ==> #[trigger] record_readable(input, pos, i)
}

/// Where reading the table at `pos` stops: after the last record's text.
pub open spec fn name_end(input: Seq<u8>, pos: int) -> int {
    let n = name_count(input, pos);
    if n == 0 {
        pos + 6
    } else {
        text_start(input, pos, n - 1) + text_len(input, pos, n - 1)
    }
}

#[derive(Clone, Copy)]
struct RecordHeader {
    platform_id: u16,
    encoding_id: u16,
    language_id: u16,
    name_id: u16,
    length: u16,
    string_offset: u16,
}

fn read_header(c: &mut ReaderContext) -> (r: Result<RecordHeader, DeserializationError>)
    ensures
        final(c).input@ == old(c).input@,
        final(c).origins() == old(c).origins(),
        fits(old(c).input@, old(c).ptr as int, 12) ==> r is Ok && final(c).ptr == old(c).ptr + 12
            && r->Ok_0.platform_id == read16(old(c).input@, old(c).ptr as int)
            && r->Ok_0.encoding_id == read16(old(c).input@, old(c).ptr + 2)
            && r->Ok_0.language_id == read16(old(c).input@, old(c).ptr + 4)
            && r->Ok_0.name_id == read16(old(c).input@, old(c).ptr + 6)
            && r->Ok_0.length == read16(old(c).input@, old(c).ptr + 8)
            && r->Ok_0.string_offset == read16(old(c).input@, old(c).ptr + 10),
        !fits(old(c).input@, old(c).ptr as int, 12) ==> r is Err,
{
    let platform_id = match read_u16(c) { Ok(v) => v, Err(e) => { return Err(e); } };
    let encoding_id = match read_u16(c) { Ok(v) => v, Err(e) => { return Err(e); } };
    let language_id = match read_u16(c) { Ok(v) => v, Err(e) => { return Err(e); } };
    let name_id = match read_u16(c) { Ok(v) => v, Err(e) => { return Err(e); } };
    let length = match read_u16(c) { Ok(v) => v, Err(e) => { return Err(e); } };
    let string_offset = match read_u16(c) { Ok(v) => v, Err(e) => { return Err(e); } };
    Ok(RecordHeader { platform_id, encoding_id, language_id, name_id, length, string_offset })
}


proof fn lemma_not_stopped(input: Seq<u8>, pos: int, j: int)
    requires
        0 <= j < name_count(input, pos),
        !record_readable(input, pos, j),
        encoding_for(header_field(input, pos, j, 0), header_field(input, pos, j, 1)) is Some,
        forall|k: int| 0 <= k < j ==> #[trigger] record_readable(input, pos, k),
    ensures
        !stops_at_unsupported(input, pos),
{
    if stops_at_unsupported(input, pos) {
        let w = choose|w: int|
            0 <= w < name_count(input, pos) && (#[trigger] encoding_for(
                header_field(input, pos, w, 0),
                header_field(input, pos, w, 1),
            )) is None && forall|k: int| 0 <= k < w ==> #[trigger] record_readable(input, pos, k);
        if w < j {
            assert(record_readable(input, pos, w));
        } else if w > j {
            assert(record_readable(input, pos, j));
        }
    }
}

/// Whether reading the table at `pos` stops at a record whose
/// platform/encoding pair has no text encoding: the headers lie within the
/// input, and every record before that one can be read.
pub open spec fn stops_at_unsupported(input: Seq<u8>, pos: int) -> bool {
    &&& fits(input, pos, 6)
    &&& fits(input, pos, 6 + 12 * name_count(input, pos))
    &&& exists|j: int|
        0 <= j < name_count(input, pos) && (#[trigger] encoding_for(
            header_field(input, pos, j, 0),
            header_field(input, pos, j, 1),
        )) is None && forall|k: int| 0 <= k < j ==> #[trigger] record_readable(input, pos, k)
}

impl Deserialize for name {
    open spec fn de_spec(input: Seq<u8>, pos: int) -> Option<(Seq<NameRecordView>, int)> {
        if name_readable(input, pos) {
            Some(
                (
                    Seq::new(name_count(input, pos) as nat, |i: int| record_read(input, pos, i)),
                    name_end(input, pos),
                ),
            )
        } else {
            None
        }
    }

    /// Reads the header and the record headers, then each record's text
    /// from the string pool, decoded in its platform's encoding.
    #[verifier::rlimit(60)]
    #[verifier::spinoff_prover]
    fn from_bytes(c: &mut ReaderContext) -> (r: Result<Self, DeserializationError>)
        ensures
            stops_at_unsupported(old(c).input@, old(c).ptr as int) ==> r == Err::<
                name,
                DeserializationError,
            >(DeserializationError::UnsupportedEncoding),
    {
        let ghost input = c.input@;
        let start = c.ptr;
        match read_u16(c) {
            Ok(_) => {},
            Err(e) => {
                return Err(e);
            },
        }
        let count = match read_u16(c) {
            Ok(v) => v,
            Err(e) => {
                return Err(e);
            },
        };
        let pool_offset = match read_u16(c) {
            Ok(v) => v,
            Err(e) => {
                return Err(e);
            },
        };
        let n = count as usize;
        assert(n == name_count(input, start as int));
        let mut hs: Vec<RecordHeader> = Vec::new();
        let mut i: usize = 0;
        while i < n
            invariant
                input == old(c).input@,
                start == old(c).ptr,
                c.input@ == input,
                c.origins() == old(c).origins(),
                n == name_count(input, start as int),
                i <= n,
                c.ptr == start + 6 + 12 * i,
                fits(input, start as int, 6 + 12 * i),
                hs@.len() == i,
                forall|j: int|
                    0 <= j < i ==> {
                        &&& (#[trigger] hs@[j]).platform_id == header_field(input, start as int, j, 0)
                        &&& hs@[j].encoding_id == header_field(input, start as int, j, 1)
                        &&& hs@[j].language_id == header_field(input, start as int, j, 2)
                        &&& hs@[j].name_id == header_field(input, start as int, j, 3)
                        &&& hs@[j].length == header_field(input, start as int, j, 4)
                        &&& hs@[j].string_offset == header_field(input, start as int, j, 5)
                    },
            decreases n - i,
        {
            match read_header(c) {
                Ok(h) => {
                    hs.push(h);
                },
                Err(e) => {
                    return Err(e);
                },
            }
            i = i + 1;
        }
        let mut records: Vec<NameRecord> = Vec::new();
        let mut j: usize = 0;
        while j < n
            invariant
                input == old(c).input@,
                start == old(c).ptr,
                c.input@ == input,
                c.origins() == old(c).origins(),
                n == name_count(input, start as int),
                pool_offset == read16(input, start + 4),
                fits(input, start as int, 6 + 12 * n),
                hs@.len() == n,
                forall|k: int|
                    0 <= k < n ==> {
                        &&& (#[trigger] hs@[k]).platform_id == header_field(input, start as int, k, 0)
                        &&& hs@[k].encoding_id == header_field(input, start as int, k, 1)
                        &&& hs@[k].language_id == header_field(input, start as int, k, 2)
                        &&& hs@[k].name_id == header_field(input, start as int, k, 3)
                        &&& hs@[k].length == header_field(input, start as int, k, 4)
                        &&& hs@[k].string_offset == header_field(input, start as int, k, 5)
                    },
                j <= n,
                records@.len() == j,
                forall|k: int| 0 <= k < j ==> #[trigger] record_readable(input, start as int, k),
                forall|k: int| 0 <= k < j ==> (#[trigger] records@[k])@ == record_read(input, start as int, k),
                j == 0 ==> c.ptr == start + 6 + 12 * n,
                j > 0 ==> c.ptr == text_start(input, start as int, j - 1) + text_len(input, start as int, j - 1),
            decreases n - j,
        {
            let h = hs[j];
            assert(h == hs@[j as int]);
            let enc = match get_encoding(h.platform_id, h.encoding_id) {
                Some(e) => e,
                None => {
                    assert(!record_readable(input, start as int, j as int));
                    return Err(DeserializationError::UnsupportedEncoding);
                },
            };
            let rel = pool_offset as usize + h.string_offset as usize;
            let total = c.input.len();
            if rel > total || start > total - rel {
                assert(!record_readable(input, start as int, j as int));
                proof {
                    lemma_not_stopped(input, start as int, j as int);
                }
                return Err(DeserializationError::OffsetOutOfRange);
            }
            c.ptr = start + rel;
            let bytes = match c.consume(h.length as usize) {
                Ok(b) => b,
                Err(e) => {
                    assert(!record_readable(input, start as int, j as int));
                    proof {
                        lemma_not_stopped(input, start as int, j as int);
                    }
                    return Err(e);
                },
            };
            let string = decode_text(enc, bytes.as_slice());
            let record = NameRecord {
                platformID: h.platform_id,
                encodingID: h.encoding_id,
                languageID: h.language_id,
                nameID: h.name_id,
                string,
            };
            assert(record@ == record_read(input, start as int, j as int));
            records.push(record);
            j = j + 1;
        }
        proof {
            if stops_at_unsupported(input, start as int) {
                let w = choose|w: int|
                    0 <= w < name_count(input, start as int) && (#[trigger] encoding_for(
                        header_field(input, start as int, w, 0),
                        header_field(input, start as int, w, 1),
                    )) is None && forall|k: int| 0 <= k < w ==> #[trigger] record_readable(input, start as int, k);
                assert(record_readable(input, start as int, w));
            }
        }
        let table = name { records };
        assert(table@ =~= Seq::new(n as nat, |k: int| record_read(input, start as int, k)));
        Ok(table)
    }
}

} // verus!

verus! {

/// Descriptive names of the name table nameID entries
#[derive(Clone, Copy, Debug, PartialEq, Eq, Structural)]
pub enum NameRecordID {
    /// Copyright notice
    Copyright,
    /// Font Family name
    FontFamilyName,
    /// Font Subfamily name
    FontSubfamilyName,
    /// Unique font identifier
    UniqueID,
    /// Full font name that reflects all family and relevant subfamily descriptors
    FullFontName,
    /// Version string
    Version,
    /// PostScript name for the font
    PostscriptName,
    /// Trademark
    Trademark,
    /// Manufacturer Name
    Manufacturer,
    /// Designer
    Designer,
    /// Description
    Description,
    /// URL Vendor
    ManufacturerURL,
    /// URL Designer
    DesignerURL,
    /// License Description
    License,
    /// License Info URL
    LicenseURL,
    /// Reserved
    Reserved,
    /// Typographic Family name
    PreferredFamilyName,
    /// Typographic Subfamily name
    PreferredSubfamilyName,
    /// Compatible Full (Macintosh only)
    CompatibleFullName,
    /// Sample text
    SampleText,
    /// PostScript CID findfont name
    PostScriptCID,
    /// WWS Family Name
    WWSFamilyName,
    /// WWS Subfamily Name
    WWSSubfamilyName,
    /// Light Background Palette
    LightBackgroundPalette,
    /// Dark Background Palette
    DarkBackgroundPalette,
    /// Variations PostScript Name Prefix
    VariationsPostScriptNamePrefix,
}

/// The nameID of each descriptive name: its position in the list above.
pub open spec fn name_record_id_value(id: NameRecordID) -> u16 {
    match id {
        NameRecordID::Copyright => 0,
        NameRecordID::FontFamilyName => 1,
        NameRecordID::FontSubfamilyName => 2,
        NameRecordID::UniqueID => 3,
        NameRecordID::FullFontName => 4,
        NameRecordID::Version => 5,
        NameRecordID::PostscriptName => 6,
        NameRecordID::Trademark => 7,
        NameRecordID::Manufacturer => 8,
        NameRecordID::Designer => 9,
        NameRecordID::Description => 10,
        NameRecordID::ManufacturerURL => 11,
        NameRecordID::DesignerURL => 12,
        NameRecordID::License => 13,
        NameRecordID::LicenseURL => 14,
        NameRecordID::Reserved => 15,
        NameRecordID::PreferredFamilyName => 16,
        NameRecordID::PreferredSubfamilyName => 17,
        NameRecordID::CompatibleFullName => 18,
        NameRecordID::SampleText => 19,
        NameRecordID::PostScriptCID => 20,
        NameRecordID::WWSFamilyName => 21,
        NameRecordID::WWSSubfamilyName => 22,
        NameRecordID::LightBackgroundPalette => 23,
        NameRecordID::DarkBackgroundPalette => 24,
        NameRecordID::VariationsPostScriptNamePrefix => 25,
    }
}

impl From<NameRecordID> for u16 {
    fn from(namerecord: NameRecordID) -> (r: u16)
        ensures
            r == name_record_id_value(namerecord),
    {
        match namerecord {
            NameRecordID::Copyright => 0,
            NameRecordID::FontFamilyName => 1,
            NameRecordID::FontSubfamilyName => 2,
            NameRecordID::UniqueID => 3,
            NameRecordID::FullFontName => 4,
            NameRecordID::Version => 5,
            NameRecordID::PostscriptName => 6,
            NameRecordID::Trademark => 7,
            NameRecordID::Manufacturer => 8,
            NameRecordID::Designer => 9,
            NameRecordID::Description => 10,
            NameRecordID::ManufacturerURL => 11,
            NameRecordID::DesignerURL => 12,
            NameRecordID::License => 13,
            NameRecordID::LicenseURL => 14,
            NameRecordID::Reserved => 15,
            NameRecordID::PreferredFamilyName => 16,
            NameRecordID::PreferredSubfamilyName => 17,
            NameRecordID::CompatibleFullName => 18,
            NameRecordID::SampleText => 19,
            NameRecordID::PostScriptCID => 20,
            NameRecordID::WWSFamilyName => 21,
            NameRecordID::WWSSubfamilyName => 22,
            NameRecordID::LightBackgroundPalette => 23,
            NameRecordID::DarkBackgroundPalette => 24,
            NameRecordID::VariationsPostScriptNamePrefix => 25,
        }
    }
}

impl vstd::std_specs::convert::FromSpecImpl<NameRecordID> for u16 {
    open spec fn obeys_from_spec() -> bool {
        true
    }

    open spec fn from_spec(namerecord: NameRecordID) -> u16 {
        name_record_id_value(namerecord)
    }
}

} // verus!

verus! {

/// Whether the text of every record reads back unchanged from the bytes it
/// is encoded as: true of text that its platform's encoding can represent.
pub open spec fn texts_survive(recs: Seq<NameRecordView>) -> bool {
    forall|i: int|
        0 <= i < recs.len() ==> decoded_text(
            encoding_for(recs[i].platform_id, recs[i].encoding_id).unwrap(),
            #[trigger] text_bytes(recs[i]),
        ) == recs[i].string
}

proof fn lemma_read_be16(s: Seq<u8>, p: int, x: u16)
    requires
        0 <= p,
        p + 2 <= s.len(),
        s.subrange(p, p + 2) == be16(x),
    ensures
        read16(s, p) == x,
{
    assert(s[p] == s.subrange(p, p + 2)[0]);
    assert(s[p + 1] == s.subrange(p, p + 2)[1]);
}

proof fn lemma_headers_len(recs: Seq<NameRecordView>)
    ensures
        headers(recs).len() == 12 * recs.len(),
    decreases recs.len(),
{
    if recs.len() > 0 {
        lemma_headers_len(recs.drop_last());
    }
}

proof fn lemma_header_at(recs: Seq<NameRecordView>, i: int)
    requires
        0 <= i < recs.len(),
    ensures
        headers(recs).subrange(12 * i, 12 * i + 12) == record_header(
            recs[i],
            pool(recs.take(i)).len() as int,
        ),
    decreases recs.len(),
{
    let d = recs.drop_last();
    lemma_headers_len(d);
    if i == recs.len() - 1 {
        assert(recs.take(i) =~= d);
        assert(headers(recs).subrange(12 * i, 12 * i + 12) =~= record_header(recs[i], pool(d).len() as int));
    } else {
        lemma_header_at(d, i);
        assert(d.take(i) =~= recs.take(i));
        assert(headers(recs).subrange(12 * i, 12 * i + 12) =~= headers(d).subrange(12 * i, 12 * i + 12));
    }
}

proof fn lemma_pool_at(recs: Seq<NameRecordView>, i: int)
    requires
        0 <= i < recs.len(),
    ensures
        pool(recs.take(i)).len() + text_bytes(recs[i]).len() <= pool(recs).len(),
        pool(recs).subrange(
            pool(recs.take(i)).len() as int,
            pool(recs.take(i)).len() + text_bytes(recs[i]).len() as int,
        ) == text_bytes(recs[i]),
    decreases recs.len(),
{
    let d = recs.drop_last();
    if i == recs.len() - 1 {
        assert(recs.take(i) =~= d);
        assert(pool(recs).subrange(pool(d).len() as int, pool(recs).len() as int) =~= text_bytes(recs[i]));
    } else {
        lemma_pool_at(d, i);
        assert(d.take(i) =~= recs.take(i));
        let a = pool(recs.take(i)).len() as int;
        let b = a + text_bytes(recs[i]).len();
        assert(pool(recs).subrange(a, b) =~= pool(d).subrange(a, b));
    }
}

proof fn lemma_pool_whole(recs: Seq<NameRecordView>)
    requires
        recs.len() >= 1,
    ensures
        pool(recs.take(recs.len() - 1)).len() + text_bytes(recs.last()).len() == pool(recs).len(),
{
    assert(recs.take(recs.len() - 1) =~= recs.drop_last());
}

proof fn lemma_field(b: Seq<u8>, at: int, rh: Seq<u8>, k: int, x: u16)
    requires
        0 <= at,
        at + 12 <= b.len(),
        rh.len() == 12,
        0 <= k < 6,
        b.subrange(at, at + 12) == rh,
        rh.subrange(2 * k, 2 * k + 2) == be16(x),
    ensures
        read16(b, at + 2 * k) == x,
{
    assert(b.subrange(at + 2 * k, at + 2 * k + 2) =~= rh.subrange(2 * k, 2 * k + 2));
    lemma_read_be16(b, at + 2 * k, x);
}

proof fn lemma_bytes_layout(recs: Seq<NameRecordView>)
    ensures
        name_bytes(recs).len() == 6 + 12 * recs.len() + pool(recs).len(),
        name_bytes(recs).subrange(2, 4) == be16(recs.len() as u16),
        name_bytes(recs).subrange(4, 6) == be16((6 + 12 * recs.len()) as u16),
        name_bytes(recs).subrange(6, 6 + 12 * recs.len() as int) == headers(recs),
        name_bytes(recs).subrange(6 + 12 * recs.len() as int, name_bytes(recs).len() as int) == pool(recs),
{
    reveal(name_bytes);
    lemma_headers_len(recs);
    let b = name_bytes(recs);
    let n = recs.len() as int;
    assert(b.subrange(2, 4) =~= be16(n as u16));
    assert(b.subrange(4, 6) =~= be16((6 + 12 * n) as u16));
    assert(b.subrange(6, 6 + 12 * n) =~= headers(recs));
    assert(b.subrange(6 + 12 * n, b.len() as int) =~= pool(recs));
}

proof fn lemma_header_fields(recs: Seq<NameRecordView>, i: int)
    requires
        0 <= i < recs.len(),
        pool(recs.take(i)).len() <= 0xFFFF,
        text_bytes(recs[i]).len() <= 0xFFFF,
    ensures
        header_field(name_bytes(recs), 0, i, 0) == recs[i].platform_id,
        header_field(name_bytes(recs), 0, i, 1) == recs[i].encoding_id,
        header_field(name_bytes(recs), 0, i, 2) == recs[i].language_id,
        header_field(name_bytes(recs), 0, i, 3) == recs[i].name_id,
        header_field(name_bytes(recs), 0, i, 4) == text_bytes(recs[i]).len(),
        header_field(name_bytes(recs), 0, i, 5) == pool(recs.take(i)).len(),
{
    let b = name_bytes(recs);
    lemma_bytes_layout(recs);
    lemma_headers_len(recs);
    lemma_header_at(recs, i);
    let off = pool(recs.take(i)).len() as int;
    let len = text_bytes(recs[i]).len() as int;
    let rh = record_header(recs[i], off);
    let at = 6 + 12 * i;
    let h = headers(recs);
    assert(b.subrange(at, at + 12) =~= h.subrange(12 * i, 12 * i + 12));
    assert(rh.subrange(0, 2) =~= be16(recs[i].platform_id));
    assert(rh.subrange(2, 4) =~= be16(recs[i].encoding_id));
    assert(rh.subrange(4, 6) =~= be16(recs[i].language_id));
    assert(rh.subrange(6, 8) =~= be16(recs[i].name_id));
    assert(rh.subrange(8, 10) =~= be16(len as u16));
    assert(rh.subrange(10, 12) =~= be16(off as u16));
    lemma_field(b, at, rh, 0, recs[i].platform_id);
    lemma_field(b, at, rh, 1, recs[i].encoding_id);
    lemma_field(b, at, rh, 2, recs[i].language_id);
    lemma_field(b, at, rh, 3, recs[i].name_id);
    lemma_field(b, at, rh, 4, len as u16);
    lemma_field(b, at, rh, 5, off as u16);
}

#[verifier::spinoff_prover]
#[verifier::rlimit(100)]
proof fn lemma_record_read_back(recs: Seq<NameRecordView>, i: int)
    requires
        name_ser_ok(recs),
        texts_survive(recs),
        0 <= i < recs.len(),
    ensures
        record_readable(name_bytes(recs), 0, i),
        record_read(name_bytes(recs), 0, i) == recs[i],
        text_start(name_bytes(recs), 0, i) == 6 + 12 * recs.len() + pool(recs.take(i)).len(),
        text_len(name_bytes(recs), 0, i) == text_bytes(recs[i]).len(),
{
    let n = recs.len() as int;
    let b = name_bytes(recs);
    let off = pool(recs.take(i)).len() as int;
    let len = text_bytes(recs[i]).len() as int;
    assert(off <= 0xFFFF && len <= 0xFFFF);
    assert(encoding_for(recs[i].platform_id, recs[i].encoding_id) is Some);
    assert(decoded_text(encoding_for(recs[i].platform_id, recs[i].encoding_id).unwrap(), text_bytes(recs[i])) == recs[i].string);
    lemma_bytes_layout(recs);
    lemma_pool_at(recs, i);
    lemma_header_fields(recs, i);
    lemma_read_be16(b, 4, (6 + 12 * n) as u16);
    let p = pool(recs);
    assert(b.subrange(6 + 12 * n + off, 6 + 12 * n + off + len) =~= p.subrange(off, off + len));
}

/// A name table whose record texts survive their encodings reads back from
/// the bytes it is written as: the same records, in the same order, the
/// whole output read.
#[verifier::rlimit(100)]
#[verifier::spinoff_prover]
pub proof fn lemma_name_round_trip(recs: Seq<NameRecordView>)
    requires
        name_ser_ok(recs),
        texts_survive(recs),
    ensures
        name::de_spec(name_bytes(recs), 0) == Some((recs, name_bytes(recs).len() as int)),
{
    let n = recs.len() as int;
    let b = name_bytes(recs);
    lemma_bytes_layout(recs);
    lemma_read_be16(b, 2, n as u16);
    assert(name_count(b, 0) == n);
    assert forall|i: int| 0 <= i < n implies #[trigger] record_readable(b, 0, i) by {
        lemma_record_read_back(recs, i);
    }
    assert(name_readable(b, 0));
    assert forall|i: int| 0 <= i < n implies #[trigger] record_read(b, 0, i) == recs[i] by {
        lemma_record_read_back(recs, i);
    }
    assert(Seq::new(n as nat, |i: int| record_read(b, 0, i)) =~= recs);
    if n > 0 {
        lemma_pool_whole(recs);
        lemma_record_read_back(recs, n - 1);
    }
}

} // verus!

verus! {

/// Bytes in the layout that this codec writes, of records whose texts
/// survive their encodings, are written back byte for byte after reading.
pub proof fn lemma_name_reencode(recs: Seq<NameRecordView>)
    requires
        name_ser_ok(recs),
        texts_survive(recs),
    ensures
        match name::de_spec(name_bytes(recs), 0) {
            Some((v, end)) => name_ser_ok(v) && name_bytes(v) == name_bytes(recs) && end == name_bytes(
                recs,
            ).len(),
            None => false,
        },
{
    lemma_name_round_trip(recs);
}

} // verus!
