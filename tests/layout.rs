use otspec::counted::Counted;
use otspec::layout::{
    FeatureList, FeatureListTable, FeatureTable, LangSys, LanguageSystem, Script, ScriptList,
    ScriptListTable, ScriptTable,
};
use otspec::tag::Tag;
use otspec::{from_bytes, to_bytes, DeserializationError, ReaderContext, SerializationError};

fn tag(s: &str) -> Tag {
    Tag::from_raw(s).unwrap()
}

#[test]
fn language_system_required_feature_absent_round_trips() {
    let ls = LanguageSystem { required_feature: None, feature_indices: vec![3, 1, 2] };
    let low = ls.to_lowlevel(100).unwrap();
    assert_eq!(low.requiredFeatureIndex, 0xFFFF);
    assert_eq!(low.lookupOrderOffset, 0);
    assert_eq!(low.featureIndices.0, vec![3, 1, 2]);
    let back = LanguageSystem::from_lowlevel(&low, 100);
    assert_eq!(back.required_feature, None);
    assert_eq!(back.feature_indices, vec![3, 1, 2]);
}

#[test]
fn language_system_required_feature_present_round_trips() {
    let ls = LanguageSystem { required_feature: Some(7), feature_indices: vec![] };
    let low = ls.to_lowlevel(100).unwrap();
    assert_eq!(low.requiredFeatureIndex, 7);
    let back = LanguageSystem::from_lowlevel(&low, 100);
    assert_eq!(back.required_feature, Some(7));
    assert!(back.feature_indices.is_empty());
}

#[test]
fn language_system_index_too_large() {
    let ls = LanguageSystem { required_feature: Some(0xFFFF), feature_indices: vec![] };
    assert_eq!(ls.to_lowlevel(0).unwrap_err(), SerializationError::WidthOverflow);
    let ls = LanguageSystem { required_feature: None, feature_indices: vec![1, 0x10000] };
    assert_eq!(ls.to_lowlevel(0).unwrap_err(), SerializationError::WidthOverflow);
}

#[test]
fn script_language_systems_written_in_tag_order() {
    let mut script = Script::new();
    script.language_systems.push((tag("TRK "), LanguageSystem { required_feature: None, feature_indices: vec![2] }));
    script.language_systems.push((tag("DEU "), LanguageSystem { required_feature: None, feature_indices: vec![1] }));
    script.language_systems.push((tag("AZE "), LanguageSystem { required_feature: Some(0), feature_indices: vec![0] }));
    let low = script.to_lowlevel(10).unwrap();
    let tags: Vec<Tag> = low.langSysRecords.iter().map(|r| r.0).collect();
    assert_eq!(tags, vec![tag("AZE "), tag("DEU "), tag("TRK ")]);
    assert_eq!(low.langSysRecords[0].1.requiredFeatureIndex, 0);
    assert_eq!(low.langSysRecords[2].1.featureIndices.0, vec![2]);
    assert!(low.defaultLangSys.is_none());
}

#[test]
fn script_list_written_in_tag_order() {
    let mut list = ScriptList::new();
    for t in ["latn", "cyrl", "DFLT", "arab"] {
        list.scripts.push((tag(t), Script::new()));
    }
    let low = list.to_lowlevel(10).unwrap();
    let tags: Vec<Tag> = low.scriptRecords.iter().map(|r| r.0).collect();
    assert_eq!(tags, vec![tag("DFLT"), tag("arab"), tag("cyrl"), tag("latn")]);
}

#[test]
fn empty_script_list_round_trips() {
    let list = ScriptList::new();
    let low = list.to_lowlevel(10).unwrap();
    assert!(low.scriptRecords.is_empty());
    let back = ScriptList::from_lowlevel(&low, 10);
    assert!(back.scripts.is_empty());
}

#[test]
fn script_from_lowlevel_keeps_default() {
    let table = ScriptListTable {
        scriptRecords: vec![(
            tag("latn"),
            ScriptTable {
                defaultLangSys: Some(LangSys {
                    lookupOrderOffset: 0,
                    requiredFeatureIndex: 0xFFFF,
                    featureIndices: Counted(vec![0, 1]),
                }),
                langSysRecords: vec![],
            },
        )],
    };
    let list = ScriptList::from_lowlevel(&table, 5);
    assert_eq!(list.scripts[0].0, tag("latn"));
    let d = list.scripts[0].1.default_language_system.as_ref().unwrap();
    assert_eq!(d.required_feature, None);
    assert_eq!(d.feature_indices, vec![0, 1]);
}

#[test]
fn feature_list_conversions_keep_order() {
    let low = FeatureListTable {
        featureRecords: vec![
            (tag("liga"), FeatureTable { featureParamsOffset: 0, lookupListIndices: vec![4, 2] }),
            (tag("kern"), FeatureTable { featureParamsOffset: 0, lookupListIndices: vec![] }),
        ],
    };
    let fl = FeatureList::from_lowlevel(&low, 9);
    assert_eq!(fl.len(), 2);
    assert!(!fl.is_empty());
    assert_eq!(fl.get(0).unwrap().0, tag("liga"));
    assert_eq!(fl.get(0).unwrap().1, vec![4, 2]);
    assert!(fl.get(1).unwrap().2.is_none());
    assert!(fl.get(2).is_none());
    let mut fl2 = FeatureList::new(vec![]);
    assert!(fl2.is_empty());
    fl2.push((tag("smcp"), vec![70000], None));
    assert_eq!(fl2.to_lowlevel(0).unwrap_err(), SerializationError::WidthOverflow);
    let back = fl.to_lowlevel(9).unwrap();
    assert_eq!(back.featureRecords[0].0, tag("liga"));
    assert_eq!(back.featureRecords[0].1.lookupListIndices, vec![4, 2]);
    assert_eq!(fl.iter().len(), 2);
}

#[test]
fn script_list_compiles_through_resolver() {
    let mut list = ScriptList::new();
    for t in ["latn", "DFLT"] {
        let mut script = Script::new();
        script.default_language_system = Some(LanguageSystem { required_feature: None, feature_indices: vec![0] });
        list.scripts.push((tag(t), script));
    }
    let bytes = list.compile(10).unwrap();
    assert_eq!(
        bytes,
        vec![
            0x00, 0x02, 0x44, 0x46, 0x4c, 0x54, 0x00, 0x0e, 0x6c, 0x61, 0x74, 0x6e, 0x00, 0x1a,
            0x00, 0x04, 0x00, 0x00, 0x00, 0x00, 0xff, 0xff, 0x00, 0x01, 0x00, 0x00,
            0x00, 0x04, 0x00, 0x00, 0x00, 0x00, 0xff, 0xff, 0x00, 0x01, 0x00, 0x00,
        ]
    );
}

#[test]
fn empty_script_list_compiles_to_zero_count() {
    assert_eq!(ScriptList::new().compile(0).unwrap(), vec![0, 0]);
}

#[test]
fn lang_sys_codec_round_trips() {
    let with_required = LangSys { lookupOrderOffset: 0, requiredFeatureIndex: 2, featureIndices: Counted(vec![0, 5]) };
    let bytes = to_bytes(&with_required).unwrap();
    assert_eq!(bytes, vec![0, 0, 0, 2, 0, 2, 0, 0, 0, 5]);
    let back: LangSys = from_bytes(&bytes).unwrap();
    assert_eq!((back.lookupOrderOffset, back.requiredFeatureIndex), (0, 2));
    assert_eq!(back.featureIndices.0, vec![0, 5]);
    let none = LanguageSystem { required_feature: None, feature_indices: vec![] }.to_lowlevel(0).unwrap();
    let bytes = to_bytes(&none).unwrap();
    assert_eq!(bytes, vec![0, 0, 0xff, 0xff, 0, 0]);
    let back: LangSys = from_bytes(&bytes).unwrap();
    assert_eq!(LanguageSystem::from_lowlevel(&back, 0).required_feature, None);
}

#[test]
fn gposgsub_default_is_empty() {
    let t: otspec::layout::GPOSGSUB<u16> = Default::default();
    assert!(t.lookups.is_empty());
    assert!(t.scripts.scripts.is_empty());
    assert!(t.features.is_empty());
}

#[test]
fn compiled_script_list_reads_back() {
    let mut list = ScriptList::new();
    let mut latn = Script::new();
    latn.default_language_system = Some(LanguageSystem { required_feature: Some(1), feature_indices: vec![0, 2] });
    latn.language_systems.push((tag("TRK "), LanguageSystem { required_feature: None, feature_indices: vec![3] }));
    list.scripts.push((tag("latn"), latn));
    list.scripts.push((tag("DFLT"), Script::new()));
    let bytes = list.compile(10).unwrap();
    let mut rc = ReaderContext::new(bytes.clone());
    let table = ScriptListTable::read(&mut rc).unwrap();
    assert_eq!(rc.ptr, 14);
    let back = ScriptList::from_lowlevel(&table, 10);
    assert_eq!(back.scripts.len(), 2);
    assert_eq!(back.scripts[0].0, tag("DFLT"));
    assert!(back.scripts[0].1.default_language_system.is_none());
    assert_eq!(back.scripts[1].0, tag("latn"));
    let d = back.scripts[1].1.default_language_system.as_ref().unwrap();
    assert_eq!((d.required_feature, d.feature_indices.clone()), (Some(1), vec![0, 2]));
    let (t, ls) = &back.scripts[1].1.language_systems[0];
    assert_eq!(*t, tag("TRK "));
    assert_eq!((ls.required_feature, ls.feature_indices.clone()), (None, vec![3]));
}

#[test]
fn script_list_offset_past_end_is_reported() {
    let mut rc = ReaderContext::new(vec![0, 1, b'l', b'a', b't', b'n', 0x01, 0x00]);
    assert_eq!(ScriptListTable::read(&mut rc).unwrap_err(), DeserializationError::OffsetOutOfRange);
}
