use otspec::codec::de_until_end;
use otspec::gasp::{gasp, gasp_to_add, has_table, smooth_all_sizes, GaspRecord};
use otspec::tag::Tag;
use otspec::{from_bytes, to_bytes, DeserializationError, ReaderContext};

fn font_with_tags(tags: &[&str]) -> Vec<u8> {
    let mut font = vec![0, 1, 0, 0, 0, tags.len() as u8, 0, 0, 0, 0, 0, 0];
    for t in tags {
        font.extend_from_slice(t.as_bytes());
        font.extend_from_slice(&[0; 12]);
    }
    font
}

#[test]
fn gasp_added_to_font_without_one() {
    let font = font_with_tags(&["cmap", "glyf", "head"]);
    let g = gasp_to_add(&font).unwrap().unwrap();
    assert_eq!(g.version, 1);
    assert_eq!(g.gaspRanges, vec![GaspRecord { rangeMaxPPEM: 65535, rangeGaspBehavior: 0x000F }]);
    assert_eq!(to_bytes(&g).unwrap(), vec![0, 1, 0, 1, 0xff, 0xff, 0, 0x0f]);
}

#[test]
fn font_with_gasp_left_alone() {
    let font = font_with_tags(&["cmap", "gasp", "head"]);
    assert!(gasp_to_add(&font).unwrap().is_none());
    assert_eq!(has_table(&font, Tag::from_raw("head").unwrap()), Ok(true));
    assert_eq!(has_table(&font, Tag::from_raw("prep").unwrap()), Ok(false));
}

#[test]
fn truncated_directory_is_reported() {
    let mut font = font_with_tags(&["cmap", "gasp"]);
    font.truncate(30);
    assert_eq!(has_table(&font, Tag::from_raw("gasp").unwrap()), Err(DeserializationError::UnexpectedEof));
    assert_eq!(gasp_to_add(&[0, 1, 0]).unwrap_err(), DeserializationError::UnexpectedEof);
}

#[test]
fn gasp_round_trips() {
    let g = smooth_all_sizes();
    let bytes = to_bytes(&g).unwrap();
    let back: gasp = from_bytes(&bytes).unwrap();
    assert_eq!(back, g);
    let two = gasp {
        version: 0,
        gaspRanges: vec![
            GaspRecord { rangeMaxPPEM: 8, rangeGaspBehavior: 2 },
            GaspRecord { rangeMaxPPEM: 0xffff, rangeGaspBehavior: 3 },
        ],
    };
    let back: gasp = from_bytes(&to_bytes(&two).unwrap()).unwrap();
    assert_eq!(back, two);
}

#[test]
fn unbounded_sequence_reads_to_end() {
    let mut rc = ReaderContext::new(vec![0, 1, 0, 2, 0]);
    let v: Vec<u16> = de_until_end(&mut rc);
    assert_eq!(v, vec![1, 2]);
    assert_eq!(rc.ptr, 4);
    let mut rc = ReaderContext::new(vec![]);
    let v: Vec<u16> = de_until_end(&mut rc);
    assert!(v.is_empty());
}
