use otspec::counted::Counted;
use otspec::primitives::AxisValueMap;
use otspec::tag::Tag;
use otspec::{from_bytes, to_bytes, DeserializationError, Deserializer, ReaderContext, Serializer};

#[test]
fn ser_primitive() {
    let mut out: Vec<u8> = vec![];
    out.put(1_u16).unwrap();
    out.put(2_u16).unwrap();
    out.put(4_u32).unwrap();
    assert_eq!(out, [0x00, 0x01, 0x00, 0x02, 0x00, 0x00, 0x00, 0x04]);
}

#[test]
fn de_primitive() {
    let mut rc = ReaderContext::new(vec![0x00, 0x01, 0x00, 0x02, 0x00, 0x00, 0x00, 0x04]);
    let first: u16 = rc.de().unwrap();
    let second: u16 = rc.de().unwrap();
    let third: u32 = rc.de().unwrap();
    assert_eq!(first, 1);
    assert_eq!(second, 2);
    assert_eq!(third, 4);
}

#[test]
fn ser_vec() {
    let mut out: Vec<u8> = vec![];
    let t: Vec<u16> = vec![1, 2, 3];
    out.put(t).unwrap();
    assert_eq!(out, [0x00, 0x01, 0x00, 0x02, 0x00, 0x03]);
}

#[test]
fn ser_counted() {
    let mut out: Vec<u8> = vec![];
    let t: Counted<u16> = vec![10, 11].into();
    out.put(t).unwrap();
    assert_eq!(out, [0x00, 0x02, 0x00, 0x0a, 0x00, 0x0b]);
}

#[test]
fn de_counted() {
    let mut rc = ReaderContext::new(vec![0x00, 0x02, 0x00, 0x0a, 0x00, 0x0b]);
    let t: Counted<u16> = rc.de().unwrap();
    assert_eq!(t.0[0], 10);
    assert_eq!(t.0, vec![10, 11]);
}

#[test]
fn ser_tag() {
    let t = Tag::from_raw("GSUB").unwrap();
    let mut out: Vec<u8> = vec![];
    out.put(t).unwrap();
    assert_eq!(out, [0x47, 0x53, 0x55, 0x42]);
}

#[test]
fn de_tag() {
    let mut rc = ReaderContext::new(vec![0x47, 0x53, 0x55, 0x42]);
    let t: Tag = rc.de().unwrap();
    assert_eq!(t.as_bytes(), "GSUB".as_bytes());
}

fn f2dot14(v: f32) -> i16 {
    (v * 16384.0).round() as i16
}

#[test]
fn avar_axis_value_map_serde() {
    let v = AxisValueMap {
        fromCoordinate: f2dot14(0.2999878),
        toCoordinate: f2dot14(0.5),
    };
    let binary_avarmap = to_bytes(&v).unwrap();
    let deserialized: AxisValueMap = from_bytes(&binary_avarmap).unwrap();
    assert_eq!(deserialized, v);
}

#[test]
fn tag_rejects_wrong_length_and_control_bytes() {
    assert_eq!(Tag::from_raw("GSU"), Err(DeserializationError::InvalidTag));
    assert_eq!(Tag::from_raw("GSUBX"), Err(DeserializationError::InvalidTag));
    assert_eq!(Tag::from_raw("GS\nB"), Err(DeserializationError::InvalidTag));
    assert_eq!(Tag::from_raw("cv01").unwrap(), Tag(0x63763031));
}

#[test]
fn primitive_round_trips_at_extremes() {
    let bytes = to_bytes(&0xFFFF_u16).unwrap();
    assert_eq!(bytes, [0xff, 0xff]);
    assert_eq!(from_bytes::<u16>(&bytes).unwrap(), 0xFFFF);
    let bytes = to_bytes(&0x0102_0304_u32).unwrap();
    assert_eq!(bytes, [1, 2, 3, 4]);
    assert_eq!(from_bytes::<u32>(&bytes).unwrap(), 0x0102_0304);
    let bytes = to_bytes(&-2_i16).unwrap();
    assert_eq!(bytes, [0xff, 0xfe]);
    assert_eq!(from_bytes::<i16>(&bytes).unwrap(), -2);
}

#[test]
fn short_input_is_unexpected_eof() {
    assert_eq!(from_bytes::<u32>(&[0, 1, 2]), Err(DeserializationError::UnexpectedEof));
    let mut rc = ReaderContext::new(vec![0x00, 0x03, 0x00, 0x0a]);
    let r: Result<Counted<u16>, DeserializationError> = rc.de();
    assert_eq!(r.unwrap_err(), DeserializationError::UnexpectedEof);
}

#[test]
fn counted_round_trip_empty_and_nested() {
    let empty: Counted<u16> = Counted(vec![]);
    let bytes = to_bytes(&empty).unwrap();
    assert_eq!(bytes, [0, 0]);
    let back: Counted<u16> = from_bytes(&bytes).unwrap();
    assert!(back.0.is_empty());
    let nested: Counted<Counted<u16>> = Counted(vec![Counted(vec![0xaa, 0xbb]), Counted(vec![])]);
    let bytes = to_bytes(&nested).unwrap();
    assert_eq!(bytes, [0, 2, 0, 2, 0, 0xaa, 0, 0xbb, 0, 0]);
    let back: Counted<Counted<u16>> = from_bytes(&bytes).unwrap();
    assert_eq!(back.0.len(), 2);
    assert_eq!(back.0[0].0, vec![0xaa, 0xbb]);
}

#[test]
fn de_counted_reads_given_number() {
    let mut rc = ReaderContext::new(vec![0x00, 0x01, 0x00, 0x02, 0x00, 0x03]);
    let v: Vec<u16> = rc.de_counted(2).unwrap();
    assert_eq!(v, vec![1, 2]);
    assert_eq!(rc.ptr, 4);
    let r: Result<Vec<u16>, DeserializationError> = rc.de_counted(2);
    assert_eq!(r.unwrap_err(), DeserializationError::UnexpectedEof);
}

#[test]
fn optional_values_write_nothing_when_absent() {
    assert_eq!(to_bytes(&None::<u16>).unwrap(), Vec::<u8>::new());
    assert_eq!(to_bytes(&Some(0x0102_u16)).unwrap(), vec![1, 2]);
}

#[test]
fn signed_codecs_round_trip() {
    assert_eq!(to_bytes(&-1_i8).unwrap(), vec![0xff]);
    assert_eq!(from_bytes::<i8>(&[0x80]).unwrap(), -128);
    assert_eq!(to_bytes(&-2_i32).unwrap(), vec![0xff, 0xff, 0xff, 0xfe]);
    assert_eq!(from_bytes::<i32>(&[0x80, 0, 0, 1]).unwrap(), i32::MIN + 1);
    let v: i64 = -0x0102_0304_0506_0708;
    let bytes = to_bytes(&v).unwrap();
    assert_eq!(bytes, (v as u64).to_be_bytes().to_vec());
    assert_eq!(from_bytes::<i64>(&bytes).unwrap(), v);
}
