use vstd::prelude::*;
use crate::codec::{Deserialize, Serialize};
use crate::counted::{lemma_counted_round_trip, lemma_u16_round_trips, Counted};
use crate::error::DeserializationError;
use crate::primitives::{fits, read16, read32, read_u16};
use crate::reader::ReaderContext;
use crate::error::SerializationError;
use crate::tag::Tag;
use crate::offsets::{
    arena_descending, arena_wf, laid_out, lemma_descending_acyclic, lemma_descending_grows, reaches_cycle, lemma_laid_out_starts_with_root, node_wf, order_closed, order_wf, resolvable,
    resolve, start_of, width, OffsetMarker, TableNode,
};
use crate::primitives::{be16, be32, write_u16};

verus! {

/// The required-feature value that means "none".
pub const NO_REQUIRED_FEATURE: u16 = 0xFFFF;

/// A LangSys table as it stands in the font: the features that a
/// script/language combination uses, as 16-bit indices into the feature list.
#[derive(Clone, Debug)]
#[allow(non_snake_case)]
pub struct LangSys {
    /// Reserved; always 0.
    pub lookupOrderOffset: u16,
    /// Index of the required feature, or 0xFFFF for none.
    pub requiredFeatureIndex: u16,
    /// Indices of the features to process, in processing order.
    pub featureIndices: Counted<u16>,
}

/// A language system table, selecting which features apply to a
/// script/language combination.
#[derive(Clone, Debug)]
pub struct LanguageSystem {
    /// The feature that must be processed, if any.
    pub required_feature: Option<usize>,
    /// Indices into the feature list of the features to process, in
    /// processing order.
    pub feature_indices: Vec<usize>,
}

/// What a language system holds.
pub struct LanguageSystemView {
    pub required_feature: Option<usize>,
    pub feature_indices: Seq<usize>,
}

impl View for LanguageSystem {
    type V = LanguageSystemView;

    open spec fn view(&self) -> LanguageSystemView {
        LanguageSystemView {
            required_feature: self.required_feature,
            feature_indices: self.feature_indices@,
        }
    }
}

/// What a LangSys table holds.
pub struct LangSysView {
    pub lookup_order_offset: u16,
    pub required_feature_index: u16,
    pub feature_indices: Seq<u16>,
}

impl View for LangSys {
    type V = LangSysView;

    open spec fn view(&self) -> LangSysView {
        LangSysView {
            lookup_order_offset: self.lookupOrderOffset,
            required_feature_index: self.requiredFeatureIndex,
            feature_indices: self.featureIndices.0@,
        }
    }
}

/// The language system that a LangSys table stands for.
pub open spec fn language_system_of(ls: LangSysView) -> LanguageSystemView {
    LanguageSystemView {
        required_feature: if ls.required_feature_index == NO_REQUIRED_FEATURE {
            None
        } else {
            Some(ls.required_feature_index as usize)
        },
        feature_indices: ls.feature_indices.map_values(|x: u16| x as usize),
    }
}

/// Whether a language system can be written as a LangSys table: every index
/// fits in 16 bits, and the required one is not the "none" value.
pub open spec fn language_system_fits(ls: LanguageSystemView) -> bool {
    &&& (ls.required_feature matches Some(f) ==> f < NO_REQUIRED_FEATURE)
    &&& forall|i: int| 0 <= i < ls.feature_indices.len() ==> #[trigger] ls.feature_indices[i] <= 0xFFFF
}

/// The LangSys table that a language system is written as.
pub open spec fn lang_sys_of(ls: LanguageSystemView) -> LangSysView {
    LangSysView {
        lookup_order_offset: 0,
        required_feature_index: match ls.required_feature {
            Some(f) => f as u16,
            None => NO_REQUIRED_FEATURE,
        },
        feature_indices: ls.feature_indices.map_values(|x: usize| x as u16),
    }
}

impl LanguageSystem {
    /// The language system that `langsys` stands for: the "none" value of
    /// the required feature becomes `None`.
    pub fn from_lowlevel(langsys: &LangSys, max_glyph_id: u16) -> (r: LanguageSystem)
        ensures
            r@ == language_system_of(langsys@),
    {
        let src = &langsys.featureIndices.0;
        let mut feature_indices: Vec<usize> = Vec::new();
        let mut i: usize = 0;
        while i < src.len()
            invariant
                i <= src@.len(),
                feature_indices@ =~= src@.take(i as int).map_values(|x: u16| x as usize),
            decreases src@.len() - i,
        {
            feature_indices.push(src[i] as usize);
            i = i + 1;
        }
        assert(src@.take(src@.len() as int) =~= src@);
        LanguageSystem {
            required_feature: if langsys.requiredFeatureIndex != NO_REQUIRED_FEATURE {
                Some(langsys.requiredFeatureIndex as usize)
            } else {
                None
            },
            feature_indices,
        }
    }

    /// The LangSys table for this language system: an absent required
    /// feature is written as the "none" value. Fails with `WidthOverflow`
    /// where an index does not fit.
    pub fn to_lowlevel(&self, max_glyph_id: u16) -> (r: Result<LangSys, SerializationError>)
        ensures
            language_system_fits(self@) ==> r is Ok && r->Ok_0@ == lang_sys_of(self@),
            !language_system_fits(self@) ==> r == Err::<LangSys, SerializationError>(
                SerializationError::WidthOverflow,
            ),
    {
        let required = match self.required_feature {
            Some(f) => {
                if f >= NO_REQUIRED_FEATURE as usize {
                    return Err(SerializationError::WidthOverflow);
                }
                f as u16
            },
            None => NO_REQUIRED_FEATURE,
        };
        let src = &self.feature_indices;
        let mut out: Vec<u16> = Vec::new();
        let mut i: usize = 0;
        while i < src.len()
            invariant
                i <= src@.len(),
                src@ == self@.feature_indices,
                forall|j: int| 0 <= j < i ==> #[trigger] src@[j] <= 0xFFFF,
                out@ =~= src@.take(i as int).map_values(|x: usize| x as u16),
            decreases src@.len() - i,
        {
            if src[i] > 0xFFFF {
                assert(!(self@.feature_indices[i as int] <= 0xFFFF));
                return Err(SerializationError::WidthOverflow);
            }
            out.push(src[i] as u16);
            i = i + 1;
        }
        assert(src@.take(src@.len() as int) =~= src@);
        Ok(LangSys { lookupOrderOffset: 0, requiredFeatureIndex: required, featureIndices: Counted(out) })
    }
}

/// A language system read back from the LangSys table it is written as is
/// the same language system: an absent required feature stays absent.
pub proof fn lemma_language_system_round_trip(ls: LanguageSystemView)
    requires
        language_system_fits(ls),
    ensures
        language_system_of(lang_sys_of(ls)) == ls,
{
    let back = language_system_of(lang_sys_of(ls));
    assert(back.feature_indices =~= ls.feature_indices);
}

/// A LangSys table with its reserved field 0 is written back exactly as it
/// was read, the "none" value of the required feature included.
pub proof fn lemma_lang_sys_round_trip(ls: LangSysView)
    requires
        ls.lookup_order_offset == 0,
    ensures
        language_system_fits(language_system_of(ls)),
        lang_sys_of(language_system_of(ls)) == ls,
{
    let back = lang_sys_of(language_system_of(ls));
    assert(back.feature_indices =~= ls.feature_indices);
}


/// Whether no two entries of `s` carry the same tag.
pub open spec fn tags_unique<V>(s: Seq<(Tag, V)>) -> bool {
    forall|i: int, j: int| 0 <= i < j < s.len() ==> s[i].0 != s[j].0
}

/// Whether the tags of `s` ascend strictly.
pub open spec fn tags_ascending<V>(s: Seq<(Tag, V)>) -> bool {
    forall|i: int, j: int| 0 <= i < j < s.len() ==> s[i].0.0 < s[j].0.0
}

/// Whether `out` holds each entry of `s`.
pub open spec fn holds_all<V>(out: Seq<(Tag, V)>, s: Seq<(Tag, V)>) -> bool {
    forall|i: int| 0 <= i < s.len() ==> has_entry(out, #[trigger] s[i])
}

/// Whether `x` is an entry of `s`.
pub open spec fn has_entry<X>(s: Seq<X>, x: X) -> bool {
    exists|j: int| 0 <= j < s.len() && s[j] == x
}

/// Puts `item` into `out` where its tag keeps the tags ascending.
fn insert_by_tag<V>(out: &mut Vec<(Tag, V)>, item: (Tag, V))
    requires
        tags_ascending(old(out)@),
        forall|j: int| 0 <= j < old(out)@.len() ==> old(out)@[j].0 != item.0,
    ensures
        tags_ascending(final(out)@),
        exists|p: int| 0 <= p <= old(out)@.len() && final(out)@ == old(out)@.insert(p, item),
{
    let key = item.0.0;
    let mut p: usize = 0;
    while p < out.len() && out[p].0.0 < key
        invariant
            p <= out@.len(),
            forall|j: int| 0 <= j < p ==> out@[j].0.0 < key,
        decreases out@.len() - p,
    {
        p = p + 1;
    }
    assert(p < out@.len() ==> out@[p as int].0 != item.0);
    let ghost before = out@;
    out.insert(p, item);
    assert forall|i: int, j: int| 0 <= i < j < out@.len() implies out@[i].0.0 < out@[j].0.0 by {
        if j < p {
        } else if j == p {
        } else if i < p {
            assert(out@[j] == before[j - 1]);
        } else if i == p {
            assert(out@[j] == before[j - 1]);
            if j - 1 > p {
                assert(before[p as int].0.0 < before[j - 1].0.0);
            }
        } else {
            assert(out@[j] == before[j - 1]);
            assert(out@[i] == before[i - 1]);
        }
    }
}

/// Whether every entry of `out` is an entry of `s`.
pub open spec fn drawn_from<V>(out: Seq<(Tag, V)>, s: Seq<(Tag, V)>) -> bool {
    forall|j: int| 0 <= j < out.len() ==> has_entry(s, #[trigger] out[j])
}

proof fn lemma_insert_holds<V>(before: Seq<(Tag, V)>, p: int, s: Seq<(Tag, V)>)
    requires
        s.len() >= 1,
        0 <= p <= before.len(),
        holds_all(before, s.drop_first()),
    ensures
        holds_all(before.insert(p, s[0]), s),
{
    let out = before.insert(p, s[0]);
    let t = s.drop_first();
    assert forall|k: int| 0 <= k < s.len() implies exists|j: int| 0 <= j < out.len() && out[j] == #[trigger] s[k] by {
        if k == 0 {
            assert(out[p] == s[k]);
        } else {
            assert(s[k] == t[k - 1]);
            let j0 = choose|j: int| 0 <= j < before.len() && before[j] == t[k - 1];
            if j0 < p {
                assert(out[j0] == s[k]);
            } else {
                assert(out[j0 + 1] == s[k]);
            }
        }
    }
}

proof fn lemma_insert_drawn<V>(before: Seq<(Tag, V)>, p: int, s: Seq<(Tag, V)>)
    requires
        s.len() >= 1,
        0 <= p <= before.len(),
        drawn_from(before, s.drop_first()),
    ensures
        drawn_from(before.insert(p, s[0]), s),
{
    let out = before.insert(p, s[0]);
    let t = s.drop_first();
    assert forall|j: int| 0 <= j < out.len() implies exists|k: int| 0 <= k < s.len() && #[trigger] out[j] == s[k] by {
        if j == p {
            assert(out[j] == s[0]);
        } else if j < p {
            assert(out[j] == before[j]);
            let k0 = choose|k: int| 0 <= k < t.len() && before[j] == t[k];
            assert(out[j] == s[k0 + 1]);
        } else {
            assert(out[j] == before[j - 1]);
            let k0 = choose|k: int| 0 <= k < t.len() && before[j - 1] == t[k];
            assert(out[j] == s[k0 + 1]);
        }
    }
}

proof fn lemma_fresh_tag<V>(out: Seq<(Tag, V)>, s: Seq<(Tag, V)>)
    requires
        s.len() >= 1,
        tags_unique(s),
        drawn_from(out, s.drop_first()),
    ensures
        forall|j: int| 0 <= j < out.len() ==> out[j].0 != s[0].0,
{
    assert forall|j: int| 0 <= j < out.len() implies out[j].0 != s[0].0 by {
        let k = choose|k: int| 0 <= k < s.len() - 1 && out[j] == s.drop_first()[k];
        assert(out[j] == s[k + 1]);
    }
}

/// The entries of `v` in ascending tag order, whatever order they came in.
pub fn sort_by_tag<V>(v: Vec<(Tag, V)>) -> (r: Vec<(Tag, V)>)
    requires
        tags_unique(v@),
    ensures
        r@.len() == v@.len(),
        tags_ascending(r@),
        holds_all(r@, v@),
{
    let ghost input = v@;
    let mut rest = v;
    let mut out: Vec<(Tag, V)> = Vec::new();
    proof {
        assert(input.subrange(input.len() as int, input.len() as int) =~= Seq::<(Tag, V)>::empty());
    }
    while rest.len() > 0
        invariant
            tags_unique(input),
            rest@ == input.take(rest@.len() as int),
            rest@.len() <= input.len(),
            out@.len() + rest@.len() == input.len(),
            tags_ascending(out@),
            holds_all(out@, input.subrange(rest@.len() as int, input.len() as int)),
            drawn_from(out@, input.subrange(rest@.len() as int, input.len() as int)),
        decreases rest@.len(),
    {
        let ghost m = rest@.len() - 1;
        let ghost suffix = input.subrange(m, input.len() as int);
        let item = rest.pop().unwrap();
        proof {
            assert(item == input[m]);
            assert(rest@ =~= input.take(m));
            assert(suffix.drop_first() =~= input.subrange(m + 1, input.len() as int));
            assert(suffix[0] == item);
            assert(tags_unique(suffix)) by {
                assert forall|i: int, j: int| 0 <= i < j < suffix.len() implies suffix[i].0 != suffix[j].0 by {
                    assert(suffix[i] == input[m + i]);
                    assert(suffix[j] == input[m + j]);
                }
            }
            lemma_fresh_tag(out@, suffix);
        }
        let ghost before = out@;
        insert_by_tag(&mut out, item);
        proof {
            let p = choose|p: int| 0 <= p <= before.len() && out@ == before.insert(p, item);
            lemma_insert_holds(before, p, suffix);
            lemma_insert_drawn(before, p, suffix);
        }
    }
    assert(input.subrange(0, input.len() as int) =~= input);
    out
}


/// A Script table as it stands in the font: an optional default LangSys and
/// LangSys tables by language tag.
#[derive(Debug)]
#[allow(non_snake_case)]
pub struct ScriptTable {
    /// The default language system, if any.
    pub defaultLangSys: Option<LangSys>,
    /// Language systems by tag, in the order the table lists them.
    pub langSysRecords: Vec<(Tag, LangSys)>,
}

/// A ScriptList table as it stands in the font: Script tables by script tag.
#[derive(Debug)]
#[allow(non_snake_case)]
pub struct ScriptListTable {
    /// Scripts by tag, in the order the table lists them.
    pub scriptRecords: Vec<(Tag, ScriptTable)>,
}

/// A Script table, holding the language systems of one script.
#[derive(Debug)]
pub struct Script {
    /// Optionally, a default language system to be used when no specific
    /// language is selected.
    pub default_language_system: Option<LanguageSystem>,
    /// Language systems by language tag; no tag occurs twice.
    pub language_systems: Vec<(Tag, LanguageSystem)>,
}

/// A script list: scripts by script tag.
#[derive(Debug)]
pub struct ScriptList {
    /// Scripts by tag; no tag occurs twice.
    pub scripts: Vec<(Tag, Script)>,
}

/// Each entry of `records` with its table's view.
pub open spec fn record_views(records: Seq<(Tag, LangSys)>) -> Seq<(Tag, LangSysView)> {
    records.map_values(|e: (Tag, LangSys)| (e.0, e.1@))
}

/// Whether `records` holds every entry of `entries`.
pub open spec fn lists_all(records: Seq<(Tag, LangSysView)>, entries: Seq<(Tag, LangSysView)>) -> bool {
    forall|i: int| 0 <= i < entries.len() ==> has_entry(records, #[trigger] entries[i])
}

/// Each language system of `src` as the LangSys table it is written as.
pub open spec fn lowered(src: Seq<(Tag, LanguageSystem)>) -> Seq<(Tag, LangSysView)> {
    src.map_values(|e: (Tag, LanguageSystem)| (e.0, lang_sys_of(e.1@)))
}

/// Whether `t` is the Script table that `Script::to_lowlevel` writes for
/// `s`: the default written as its LangSys table, and the language systems
/// written as LangSys tables in ascending tag order.
pub open spec fn script_lowered(t: ScriptTable, s: Script) -> bool {
    &&& match s.default_language_system {
        Some(d) => t.defaultLangSys matches Some(x) && x@ == lang_sys_of(d@),
        None => t.defaultLangSys is None,
    }
    &&& t.langSysRecords@.len() == s.language_systems@.len()
    &&& tags_ascending(t.langSysRecords@)
    &&& lists_all(record_views(t.langSysRecords@), lowered(s.language_systems@))
}

/// Whether `s` is the script that `Script::from_lowlevel` reads from `t`:
/// every LangSys table as the language system it stands for, in order.
pub open spec fn script_raised(s: Script, t: ScriptTable) -> bool {
    &&& match t.defaultLangSys {
        Some(d) => s.default_language_system matches Some(x) && x@ == language_system_of(d@),
        None => s.default_language_system is None,
    }
    &&& s.language_systems@.len() == t.langSysRecords@.len()
    &&& forall|i: int|
        0 <= i < t.langSysRecords@.len() ==> (#[trigger] s.language_systems@[i]).0
            == t.langSysRecords@[i].0 && s.language_systems@[i].1@ == language_system_of(
            t.langSysRecords@[i].1@,
        )
}

/// Whether `records` holds an entry tagged `e.0` whose table is the one
/// `Script::to_lowlevel` writes for `e.1`.
pub open spec fn has_lowered_script(records: Seq<(Tag, ScriptTable)>, e: (Tag, Script)) -> bool {
    exists|j: int| 0 <= j < records.len() && records[j].0 == e.0 && script_lowered(records[j].1, e.1)
}

/// Whether a language system is present and fits, where present.
pub open spec fn default_fits(d: Option<LanguageSystem>) -> bool {
    d matches Some(ls) ==> language_system_fits(ls@)
}

impl Default for Script {
    fn default() -> (r: Script)
        ensures
            r.wf(),
            r.default_language_system is None,
            r.language_systems@.len() == 0,
    {
        Script::new()
    }
}

impl Default for ScriptList {
    fn default() -> (r: ScriptList)
        ensures
            r.wf(),
            r.scripts@.len() == 0,
    {
        ScriptList::new()
    }
}

impl Script {
    /// No language tag occurs twice.
    pub open spec fn wf(&self) -> bool {
        tags_unique(self.language_systems@)
    }

    /// Whether every language system can be written.
    pub open spec fn fits(&self) -> bool {
        &&& default_fits(self.default_language_system)
        &&& forall|i: int|
            0 <= i < self.language_systems@.len() ==> language_system_fits(
                #[trigger] self.language_systems@[i].1@,
            )
    }

    /// An empty script: no default language system and no other.
    pub fn new() -> (r: Script)
        ensures
            r.wf(),
            r.default_language_system is None,
            r.language_systems@.len() == 0,
    {
        Script { default_language_system: None, language_systems: Vec::new() }
    }

    /// The script that `si` stands for, its language systems in the table's
    /// order.
    pub fn from_lowlevel(si: &ScriptTable, max_glyph_id: u16) -> (r: Script)
        ensures
            match si.defaultLangSys {
                Some(d) => r.default_language_system matches Some(x) && x@ == language_system_of(d@),
                None => r.default_language_system is None,
            },
            r.language_systems@.len() == si.langSysRecords@.len(),
            forall|i: int|
                0 <= i < si.langSysRecords@.len() ==> (#[trigger] r.language_systems@[i]).0
                    == si.langSysRecords@[i].0 && r.language_systems@[i].1@ == language_system_of(
                    si.langSysRecords@[i].1@,
                ),
            tags_unique(si.langSysRecords@) ==> r.wf(),
            script_raised(r, *si),
    {
        let default_language_system = match &si.defaultLangSys {
            Some(d) => Some(LanguageSystem::from_lowlevel(d, max_glyph_id)),
            None => None,
        };
        let mut language_systems: Vec<(Tag, LanguageSystem)> = Vec::new();
        let mut i: usize = 0;
        while i < si.langSysRecords.len()
            invariant
                i <= si.langSysRecords@.len(),
                language_systems@.len() == i,
                forall|j: int|
                    0 <= j < i ==> (#[trigger] language_systems@[j]).0 == si.langSysRecords@[j].0
                        && language_systems@[j].1@ == language_system_of(si.langSysRecords@[j].1@),
            decreases si.langSysRecords@.len() - i,
        {
            let rec = &si.langSysRecords[i];
            language_systems.push((rec.0, LanguageSystem::from_lowlevel(&rec.1, max_glyph_id)));
            i = i + 1;
        }
        Script { default_language_system, language_systems }
    }

    /// The Script table for this script, its language systems in ascending
    /// tag order whatever order they were added in. Fails with
    /// `WidthOverflow` where a language system does not fit.
    pub fn to_lowlevel(&self, max_glyph_id: u16) -> (r: Result<ScriptTable, SerializationError>)
        requires
            self.wf(),
        ensures
            r is Ok <==> self.fits(),
            r is Ok ==> match self.default_language_system {
                Some(d) => r->Ok_0.defaultLangSys matches Some(x) && x@ == lang_sys_of(d@),
                None => r->Ok_0.defaultLangSys is None,
            },
            r is Ok ==> r->Ok_0.langSysRecords@.len() == self.language_systems@.len(),
            r is Ok ==> tags_ascending(r->Ok_0.langSysRecords@),
            r is Ok ==> lists_all(record_views(r->Ok_0.langSysRecords@), lowered(self.language_systems@)),
            r is Ok ==> script_lowered(r->Ok_0, *self),
            r is Err ==> r == Err::<ScriptTable, SerializationError>(SerializationError::WidthOverflow),
    {
        let default_lang_sys = match &self.default_language_system {
            Some(d) => match d.to_lowlevel(max_glyph_id) {
                Ok(l) => Some(l),
                Err(e) => {
                    return Err(e);
                },
            },
            None => None,
        };
        assert(match self.default_language_system {
            Some(d) => default_lang_sys matches Some(x) && x@ == lang_sys_of(d@),
            None => default_lang_sys is None,
        });
        let src = &self.language_systems;
        let mut records: Vec<(Tag, LangSys)> = Vec::new();
        let mut i: usize = 0;
        while i < src.len()
            invariant
                src@ == self.language_systems@,
                i <= src@.len(),
                records@.len() == i,
                forall|j: int| 0 <= j < i ==> language_system_fits(#[trigger] src@[j].1@),
                forall|j: int|
                    0 <= j < i ==> (#[trigger] records@[j]).0 == src@[j].0 && records@[j].1@
                        == lang_sys_of(src@[j].1@),
            decreases src@.len() - i,
        {
            let entry = &src[i];
            match entry.1.to_lowlevel(max_glyph_id) {
                Ok(l) => {
                    records.push((entry.0, l));
                },
                Err(e) => {
                    return Err(e);
                },
            }
            i = i + 1;
        }
        assert(tags_unique(records@)) by {
            assert forall|a: int, b: int| 0 <= a < b < records@.len() implies records@[a].0
                != records@[b].0 by {
                assert(records@[a].0 == src@[a].0);
                assert(records@[b].0 == src@[b].0);
            }
        }
        let ghost unsorted = records@;
        let sorted = sort_by_tag(records);
        let t = ScriptTable { defaultLangSys: default_lang_sys, langSysRecords: sorted };
        proof {
            let out = t.langSysRecords@;
            assert(holds_all(out, unsorted));
            let rv = record_views(out);
            let lw = lowered(self.language_systems@);
            assert forall|i: int| #![trigger lw[i]] 0 <= i < lw.len() implies exists|j: int|
                0 <= j < rv.len() && rv[j] == lw[i] by {
                assert(unsorted[i].0 == src@[i].0);
                assert(unsorted[i].1@ == lang_sys_of(src@[i].1@));
                let j = choose|j: int| 0 <= j < out.len() && out[j] == unsorted[i];
                assert(rv[j] == lw[i]);
            }
        }
        Ok(t)
    }
}


/// The tags of `s`, in order.
pub open spec fn tags_of<V>(s: Seq<(Tag, V)>) -> Seq<Tag> {
    s.map_values(|e: (Tag, V)| e.0)
}

impl ScriptList {
    /// No script tag occurs twice, and no script has a language tag twice.
    pub open spec fn wf(&self) -> bool {
        &&& tags_unique(self.scripts@)
        &&& forall|i: int| 0 <= i < self.scripts@.len() ==> (#[trigger] self.scripts@[i]).1.wf()
    }

    /// Whether every script can be written.
    pub open spec fn fits(&self) -> bool {
        forall|i: int| 0 <= i < self.scripts@.len() ==> (#[trigger] self.scripts@[i]).1.fits()
    }

    /// An empty script list.
    pub fn new() -> (r: ScriptList)
        ensures
            r.wf(),
            r.scripts@.len() == 0,
    {
        ScriptList { scripts: Vec::new() }
    }

    /// The script list that `val` stands for, its scripts in the table's
    /// order.
    pub fn from_lowlevel(val: &ScriptListTable, max_glyph_id: u16) -> (r: ScriptList)
        ensures
            r.scripts@.len() == val.scriptRecords@.len(),
            forall|i: int|
                0 <= i < val.scriptRecords@.len() ==> (#[trigger] r.scripts@[i]).0
                    == val.scriptRecords@[i].0 && script_raised(r.scripts@[i].1, val.scriptRecords@[i].1),
    {
        let mut scripts: Vec<(Tag, Script)> = Vec::new();
        let mut i: usize = 0;
        while i < val.scriptRecords.len()
            invariant
                i <= val.scriptRecords@.len(),
                scripts@.len() == i,
                forall|j: int| 0 <= j < i ==> (#[trigger] scripts@[j]).0 == val.scriptRecords@[j].0
                    && script_raised(scripts@[j].1, val.scriptRecords@[j].1),
            decreases val.scriptRecords@.len() - i,
        {
            let rec = &val.scriptRecords[i];
            scripts.push((rec.0, Script::from_lowlevel(&rec.1, max_glyph_id)));
            i = i + 1;
        }
        ScriptList { scripts }
    }

    /// The ScriptList table for this list: scripts in ascending tag order
    /// whatever order they were added in, each written as `Script::to_lowlevel`
    /// writes it. Fails with `WidthOverflow` where a language system does not
    /// fit.
    pub fn to_lowlevel(&self, max_glyph_id: u16) -> (r: Result<ScriptListTable, SerializationError>)
        requires
            self.wf(),
        ensures
            r is Ok <==> self.fits(),
            r is Err ==> r == Err::<ScriptListTable, SerializationError>(SerializationError::WidthOverflow),
            r is Ok ==> r->Ok_0.scriptRecords@.len() == self.scripts@.len(),
            r is Ok ==> tags_ascending(r->Ok_0.scriptRecords@),
            r is Ok ==> forall|i: int|
                0 <= i < self.scripts@.len() ==> has_entry(
                    tags_of(r->Ok_0.scriptRecords@),
                    (#[trigger] self.scripts@[i]).0,
                ),
            r is Ok ==> forall|i: int|
                0 <= i < self.scripts@.len() ==> has_lowered_script(
                    r->Ok_0.scriptRecords@,
                    #[trigger] self.scripts@[i],
                ),
    {
        let src = &self.scripts;
        let mut records: Vec<(Tag, ScriptTable)> = Vec::new();
        let mut i: usize = 0;
        while i < src.len()
            invariant
                src@ == self.scripts@,
                self.wf(),
                i <= src@.len(),
                records@.len() == i,
                forall|j: int| 0 <= j < i ==> (#[trigger] src@[j]).1.fits(),
                forall|j: int| 0 <= j < i ==> (#[trigger] records@[j]).0 == src@[j].0
                    && script_lowered(records@[j].1, src@[j].1),
            decreases src@.len() - i,
        {
            let entry = &src[i];
            assert(entry.1.wf());
            match entry.1.to_lowlevel(max_glyph_id) {
                Ok(t) => {
                    records.push((entry.0, t));
                },
                Err(e) => {
                    return Err(e);
                },
            }
            i = i + 1;
        }
        assert(tags_unique(records@)) by {
            assert forall|a: int, b: int| 0 <= a < b < records@.len() implies records@[a].0
                != records@[b].0 by {
                assert(records@[a].0 == src@[a].0);
                assert(records@[b].0 == src@[b].0);
            }
        }
        let ghost unsorted = records@;
        let sorted = sort_by_tag(records);
        let t = ScriptListTable { scriptRecords: sorted };
        proof {
            let out = t.scriptRecords@;
            assert forall|i: int| 0 <= i < self.scripts@.len() implies has_entry(
                tags_of(out),
                (#[trigger] self.scripts@[i]).0,
            ) by {
                assert(unsorted[i].0 == src@[i].0);
                assert(has_entry(out, unsorted[i]));
                let j = choose|j: int| 0 <= j < out.len() && out[j] == unsorted[i];
                assert(tags_of(out)[j] == self.scripts@[i].0);
            }
            assert forall|i: int| 0 <= i < self.scripts@.len() implies has_lowered_script(
                out,
                #[trigger] self.scripts@[i],
            ) by {
                assert(unsorted[i].0 == src@[i].0);
                assert(has_entry(out, unsorted[i]));
                let j = choose|j: int| 0 <= j < out.len() && out[j] == unsorted[i];
                assert(script_lowered(out[j].1, src@[i].1));
            }
        }
        Ok(t)
    }
}

/// A block of feature parameters, kept as its bytes.
#[derive(Clone, Debug, PartialEq, Eq)]
pub struct FeatureParams(pub Vec<u8>);

/// A Feature table as it stands in the font.
#[derive(Clone, Debug)]
#[allow(non_snake_case)]
pub struct FeatureTable {
    /// Offset to the feature parameters; 0 for none.
    pub featureParamsOffset: u16,
    /// Indices into the lookup list, in processing order.
    pub lookupListIndices: Vec<u16>,
}

/// A FeatureList table as it stands in the font.
#[derive(Debug)]
#[allow(non_snake_case)]
pub struct FeatureListTable {
    /// Features by tag; a feature's position is its index.
    pub featureRecords: Vec<(Tag, FeatureTable)>,
}

/// A list of features within a GPOS or GSUB table.
///
/// Associates a feature tag with a set of lookup IDs, and optional feature
/// parameters. An entry's position is the feature index that language
/// systems refer to.
#[derive(Debug)]
pub struct FeatureList(pub Vec<(Tag, Vec<usize>, Option<FeatureParams>)>);

impl FeatureList {
    /// Create a new feature list
    pub fn new(v: Vec<(Tag, Vec<usize>, Option<FeatureParams>)>) -> (r: Self)
        ensures
            r.0@ == v@,
    {
        Self(v)
    }

    /// The entries of the list, in order.
    pub fn iter(&self) -> (r: &[(Tag, Vec<usize>, Option<FeatureParams>)])
        ensures
            r@ == self.0@,
    {
        self.0.as_slice()
    }

    /// The length of the feature list.
    pub fn len(&self) -> (r: usize)
        ensures
            r == self.0@.len(),
    {
        self.0.len()
    }

    /// `true` if the feature list is empty.
    pub fn is_empty(&self) -> (r: bool)
        ensures
            r == (self.0@.len() == 0),
    {
        self.0.len() == 0
    }

    /// Get the item at the provided index, if it exists.
    pub fn get(&self, idx: usize) -> (r: Option<&(Tag, Vec<usize>, Option<FeatureParams>)>)
        ensures
            idx < self.0@.len() ==> r == Some(&self.0@[idx as int]),
            idx >= self.0@.len() ==> r is None,
    {
        if idx < self.0.len() {
            Some(&self.0[idx])
        } else {
            None
        }
    }

    /// Add an entry to the list.
    pub fn push(&mut self, item: (Tag, Vec<usize>, Option<FeatureParams>))
        ensures
            final(self).0@ == old(self).0@.push(item),
    {
        self.0.push(item);
    }

    /// The feature list that `val` stands for, in the same order. Feature
    /// parameters are not carried over: every entry has none.
    pub fn from_lowlevel(val: &FeatureListTable, max_glyph_id: u16) -> (r: FeatureList)
        ensures
            r.0@.len() == val.featureRecords@.len(),
            forall|i: int|
                0 <= i < r.0@.len() ==> {
                    &&& (#[trigger] r.0@[i]).0 == val.featureRecords@[i].0
                    &&& r.0@[i].1@ == val.featureRecords@[i].1.lookupListIndices@.map_values(
                        |x: u16| x as usize,
                    )
                    &&& r.0@[i].2 is None
                },
    {
        let mut features: Vec<(Tag, Vec<usize>, Option<FeatureParams>)> = Vec::new();
        let mut i: usize = 0;
        while i < val.featureRecords.len()
            invariant
                i <= val.featureRecords@.len(),
                features@.len() == i,
                forall|k: int|
                    0 <= k < i ==> {
                        &&& (#[trigger] features@[k]).0 == val.featureRecords@[k].0
                        &&& features@[k].1@ == val.featureRecords@[k].1.lookupListIndices@.map_values(
                            |x: u16| x as usize,
                        )
                        &&& features@[k].2 is None
                    },
            decreases val.featureRecords@.len() - i,
        {
            let rec = &val.featureRecords[i];
            let src = &rec.1.lookupListIndices;
            let mut indices: Vec<usize> = Vec::new();
            let mut j: usize = 0;
            while j < src.len()
                invariant
                    j <= src@.len(),
                    indices@ =~= src@.take(j as int).map_values(|x: u16| x as usize),
                decreases src@.len() - j,
            {
                indices.push(src[j] as usize);
                j = j + 1;
            }
            assert(src@.take(src@.len() as int) =~= src@);
            features.push((rec.0, indices, None));
            i = i + 1;
        }
        FeatureList(features)
    }

    /// The FeatureList table for this list, in the same order, with no
    /// feature parameters. Fails with `WidthOverflow` where a lookup index
    /// does not fit in 16 bits.
    pub fn to_lowlevel(&self, max_glyph_id: u16) -> (r: Result<FeatureListTable, SerializationError>)
        ensures
            r is Ok <==> forall|i: int, k: int|
                0 <= i < self.0@.len() && 0 <= k < self.0@[i].1@.len() ==> #[trigger] self.0@[i].1@[k]
                    <= 0xFFFF,
            r is Ok ==> r->Ok_0.featureRecords@.len() == self.0@.len(),
            r is Ok ==> forall|i: int|
                0 <= i < self.0@.len() ==> {
                    &&& (#[trigger] r->Ok_0.featureRecords@[i]).0 == self.0@[i].0
                    &&& r->Ok_0.featureRecords@[i].1.featureParamsOffset == 0
                    &&& r->Ok_0.featureRecords@[i].1.lookupListIndices@ == self.0@[i].1@.map_values(
                        |x: usize| x as u16,
                    )
                },
    {
        let mut records: Vec<(Tag, FeatureTable)> = Vec::new();
        let mut i: usize = 0;
        while i < self.0.len()
            invariant
                i <= self.0@.len(),
                records@.len() == i,
                forall|a: int, k: int|
                    0 <= a < i && 0 <= k < self.0@[a].1@.len() ==> #[trigger] self.0@[a].1@[k]
                        <= 0xFFFF,
                forall|a: int|
                    0 <= a < i ==> {
                        &&& (#[trigger] records@[a]).0 == self.0@[a].0
                        &&& records@[a].1.featureParamsOffset == 0
                        &&& records@[a].1.lookupListIndices@ == self.0@[a].1@.map_values(
                            |x: usize| x as u16,
                        )
                    },
            decreases self.0@.len() - i,
        {
            let entry = &self.0[i];
            let src = &entry.1;
            let mut out: Vec<u16> = Vec::new();
            let mut j: usize = 0;
            while j < src.len()
                invariant
                    i < self.0@.len(),
                    src@ == self.0@[i as int].1@,
                    j <= src@.len(),
                    forall|k: int| 0 <= k < j ==> #[trigger] src@[k] <= 0xFFFF,
                    out@ =~= src@.take(j as int).map_values(|x: usize| x as u16),
                decreases src@.len() - j,
            {
                if src[j] > 0xFFFF {
                    assert(!(self.0@[i as int].1@[j as int] <= 0xFFFF));
                    return Err(SerializationError::WidthOverflow);
                }
                out.push(src[j] as u16);
                j = j + 1;
            }
            assert(src@.take(src@.len() as int) =~= src@);
            records.push((entry.0, FeatureTable { featureParamsOffset: 0, lookupListIndices: out }));
            i = i + 1;
        }
        Ok(FeatureListTable { featureRecords: records })
    }
}

/// The flags of a lookup.
#[derive(Clone, Copy, Debug, PartialEq, Eq, Structural)]
pub struct LookupFlags(pub u16);

/// A general lookup rule, of whatever type
#[derive(Debug)]
pub struct Lookup<T> {
    /// Lookup flags
    pub flags: LookupFlags,
    /// The mark filtering set index in the `GDEF` table.
    pub mark_filtering_set: Option<u16>,
    /// The concrete rule (set of subtables)
    pub rule: T,
}

/// A glyph positioning or substitution table.
#[derive(Debug)]
#[allow(clippy::upper_case_acronyms)]
pub struct GPOSGSUB<T> {
    /// A list of positioning lookups
    pub lookups: Vec<Lookup<T>>,
    /// A mapping between script tags and `Script` tables.
    pub scripts: ScriptList,
    /// The association between feature tags and the list of indices into the
    /// lookup table used to process this feature, together with any feature
    /// parameters.
    pub features: FeatureList,
}

impl<T> Default for GPOSGSUB<T> {
    fn default() -> (r: Self)
        ensures
            r.lookups@.len() == 0,
            r.scripts.scripts@.len() == 0,
            r.features.0@.len() == 0,
    {
        Self::new()
    }
}

impl<T> GPOSGSUB<T> {
    /// A table with no lookups, scripts or features.
    pub fn new() -> (r: Self)
        ensures
            r.lookups@.len() == 0,
            r.scripts.scripts@.len() == 0,
            r.features.0@.len() == 0,
    {
        GPOSGSUB { lookups: Vec::new(), scripts: ScriptList::new(), features: FeatureList(Vec::new()) }
    }
}


fn write_tag(t: Tag, data: &mut Vec<u8>)
    ensures
        final(data)@ == old(data)@ + be32(t.0),
{
    let _written = t.to_bytes(data);
}

proof fn lemma_arena_grows(nodes: Seq<TableNode>, node: TableNode)
    requires
        arena_wf(nodes),
        node_wf(node, nodes.len() + 1 as int),
    ensures
        arena_wf(nodes.push(node)),
{
    let n2 = nodes.len() + 1 as int;
    assert forall|v: int| 0 <= v < n2 implies node_wf(#[trigger] nodes.push(node)[v], n2) by {
        if v < nodes.len() {
            assert(nodes.push(node)[v] == nodes[v]);
            assert(node_wf(nodes[v], nodes.len() as int));
        }
    }
}

/// Whether the feature count of `ls` fits its 16-bit field.
pub open spec fn lang_sys_counts_fit(ls: LangSys) -> bool {
    ls.featureIndices.0@.len() <= 0xFFFF
}

/// Whether every count of `t` and of its LangSys tables fits: at most
/// 0x2AAA language systems, so that the table's records stay within the
/// 16-bit range that offsets address.
pub open spec fn script_counts_fit(t: ScriptTable) -> bool {
    &&& t.langSysRecords@.len() <= 0x2AAA
    &&& (t.defaultLangSys matches Some(d) ==> lang_sys_counts_fit(d))
    &&& forall|j: int| 0 <= j < t.langSysRecords@.len() ==> lang_sys_counts_fit(#[trigger] t.langSysRecords@[j].1)
}

/// Whether every count of the script list `t` and of its tables fits: at
/// most 0x2AAA scripts, each Script table's counts fitting.
pub open spec fn script_list_counts_fit(t: ScriptListTable) -> bool {
    &&& t.scriptRecords@.len() <= 0x2AAA
    &&& forall|i: int| 0 <= i < t.scriptRecords@.len() ==> script_counts_fit(#[trigger] t.scriptRecords@[i].1)
}

/// Adds a node for `ls` and returns its index.
fn push_lang_sys(nodes: &mut Vec<TableNode>, ls: &LangSys) -> (r: Result<usize, SerializationError>)
    requires
        arena_wf(old(nodes)@),
        arena_descending(old(nodes)@),
    ensures
        arena_wf(final(nodes)@),
        arena_descending(final(nodes)@),
        r is Ok ==> r->Ok_0 < final(nodes)@.len(),
        final(nodes)@.len() >= old(nodes)@.len(),
        r is Ok <==> lang_sys_counts_fit(*ls),
        r is Err ==> r == Err::<usize, SerializationError>(SerializationError::WidthOverflow),
{
    let idx = &ls.featureIndices.0;
    if idx.len() > 0xFFFF {
        return Err(SerializationError::WidthOverflow);
    }
    let mut body: Vec<u8> = Vec::new();
    write_u16(ls.lookupOrderOffset, &mut body);
    write_u16(ls.requiredFeatureIndex, &mut body);
    write_u16(idx.len() as u16, &mut body);
    let mut i: usize = 0;
    while i < idx.len()
        invariant
            i <= idx@.len(),
        decreases idx@.len() - i,
    {
        write_u16(idx[i], &mut body);
        i = i + 1;
    }
    let node = TableNode { body, markers: Vec::new() };
    proof {
        lemma_arena_grows(nodes@, node);
        lemma_descending_grows(nodes@, node);
    }
    nodes.push(node);
    Ok(nodes.len() - 1)
}

/// Adds nodes for `script` and its language systems, and returns the index
/// of the script's node.
fn push_script(nodes: &mut Vec<TableNode>, script: &ScriptTable) -> (r: Result<usize, SerializationError>)
    requires
        arena_wf(old(nodes)@),
        arena_descending(old(nodes)@),
    ensures
        arena_wf(final(nodes)@),
        arena_descending(final(nodes)@),
        r is Ok ==> r->Ok_0 < final(nodes)@.len(),
        final(nodes)@.len() >= old(nodes)@.len(),
        r is Ok <==> script_counts_fit(*script),
        r is Err ==> r == Err::<usize, SerializationError>(SerializationError::WidthOverflow),
{
    let recs = &script.langSysRecords;
    if recs.len() > 0x2AAA {
        return Err(SerializationError::WidthOverflow);
    }
    let mut markers: Vec<OffsetMarker> = Vec::new();
    let mut body: Vec<u8> = Vec::new();
    write_u16(0, &mut body);
    write_u16(recs.len() as u16, &mut body);
    match &script.defaultLangSys {
        Some(d) => {
            let t = match push_lang_sys(nodes, d) {
                Ok(t) => t,
                Err(e) => {
                    return Err(e);
                },
            };
            markers.push(OffsetMarker { at: 0, wide: false, target: t });
        },
        None => {},
    }
    let mut i: usize = 0;
    while i < recs.len()
        invariant
            recs@.len() <= 0x2AAA,
            i <= recs@.len(),
            arena_wf(nodes@),
            arena_descending(nodes@),
            nodes@.len() >= old(nodes)@.len(),
            recs@ == script.langSysRecords@,
            script.defaultLangSys matches Some(d) ==> lang_sys_counts_fit(d),
            forall|k: int| 0 <= k < i ==> lang_sys_counts_fit(#[trigger] recs@[k].1),
            body@.len() == 4 + 6 * i,
            forall|j: int| 0 <= j < markers@.len() ==> (#[trigger] markers@[j]).at + 2 <= body@.len() && markers@[j].target < nodes@.len() && !markers@[j].wide,
        decreases recs@.len() - i,
    {
        let t = match push_lang_sys(nodes, &recs[i].1) {
            Ok(t) => t,
            Err(e) => {
                return Err(e);
            },
        };
        write_tag(recs[i].0, &mut body);
        markers.push(OffsetMarker { at: body.len(), wide: false, target: t });
        write_u16(0, &mut body);
        i = i + 1;
    }
    let node = TableNode { body, markers };
    proof {
        lemma_arena_grows(nodes@, node);
        lemma_descending_grows(nodes@, node);
    }
    nodes.push(node);
    Ok(nodes.len() - 1)
}

impl ScriptListTable {
    /// The table graph of this script list: a node per ScriptList, Script
    /// and LangSys table, joined by 16-bit offset fields; the root, the
    /// ScriptList node, comes last. Its body is the script count, then each
    /// script's tag and offset placeholder, in the order of the records.
    /// Fails with `WidthOverflow` where a count does not fit its field.
    pub fn to_nodes(&self) -> (r: Result<Vec<TableNode>, SerializationError>)
        ensures
            r is Ok <==> script_list_counts_fit(*self),
            r is Err ==> r == Err::<Vec<TableNode>, SerializationError>(SerializationError::WidthOverflow),
            r is Ok ==> arena_descending(r->Ok_0@),
            r is Ok && self.scriptRecords@.len() == 0 ==> r->Ok_0@.len() == 1,
            r is Ok ==> arena_wf(r->Ok_0@) && r->Ok_0@.len() >= 1,
            r is Ok ==> {
                let root = r->Ok_0@.last();
                &&& root.body@.len() == 2 + 6 * self.scriptRecords@.len()
                &&& root.body@.subrange(0, 2) == be16(self.scriptRecords@.len() as u16)
                &&& forall|i: int|
                    0 <= i < self.scriptRecords@.len() ==> root.body@.subrange(2 + 6 * i, 6 + 6 * i)
                        == be32((#[trigger] self.scriptRecords@[i]).0.0)
                &&& root.markers@.len() == self.scriptRecords@.len()
                &&& forall|j: int|
                    0 <= j < root.markers@.len() ==> (#[trigger] root.markers@[j]).at == 6 + 6 * j
                        && !root.markers@[j].wide
            },
    {
        let recs = &self.scriptRecords;
        if recs.len() > 0x2AAA {
            return Err(SerializationError::WidthOverflow);
        }
        let mut nodes: Vec<TableNode> = Vec::new();
        let mut markers: Vec<OffsetMarker> = Vec::new();
        let mut body: Vec<u8> = Vec::new();
        write_u16(recs.len() as u16, &mut body);
        let mut i: usize = 0;
        while i < recs.len()
            invariant
                recs@.len() <= 0x2AAA,
                recs@ == self.scriptRecords@,
                i <= recs@.len(),
                forall|k: int| 0 <= k < i ==> script_counts_fit(#[trigger] recs@[k].1),
                arena_wf(nodes@),
                arena_descending(nodes@),
                i == 0 ==> nodes@.len() == 0,
                body@.len() == 2 + 6 * i,
                body@.subrange(0, 2) == be16(recs@.len() as u16),
                forall|j: int| 0 <= j < i ==> body@.subrange(2 + 6 * j, 6 + 6 * j) == be32((#[trigger] recs@[j]).0.0),
                forall|j: int| 0 <= j < markers@.len() ==> (#[trigger] markers@[j]).at + 2 <= body@.len() && markers@[j].target < nodes@.len() && !markers@[j].wide,
                markers@.len() == i,
                forall|j: int| 0 <= j < markers@.len() ==> (#[trigger] markers@[j]).at == 6 + 6 * j,
            decreases recs@.len() - i,
        {
            let t = match push_script(&mut nodes, &recs[i].1) {
                Ok(t) => t,
                Err(e) => {
                    return Err(e);
                },
            };
            let ghost before = body@;
            write_tag(recs[i].0, &mut body);
            markers.push(OffsetMarker { at: body.len(), wide: false, target: t });
            write_u16(0, &mut body);
            proof {
                assert forall|j: int| 0 <= j <= i implies body@.subrange(2 + 6 * j, 6 + 6 * j) == be32((#[trigger] recs@[j]).0.0) by {
                    if j < i {
                        assert(body@.subrange(2 + 6 * j, 6 + 6 * j) =~= before.subrange(2 + 6 * j, 6 + 6 * j));
                    } else {
                        assert(body@.subrange(2 + 6 * j, 6 + 6 * j) =~= be32(recs@[j].0.0));
                    }
                }
                assert(body@.subrange(0, 2) =~= before.subrange(0, 2));
            }
            i = i + 1;
        }
        let node = TableNode { body, markers };
        proof {
            lemma_arena_grows(nodes@, node);
            lemma_descending_grows(nodes@, node);
        }
        nodes.push(node);
        Ok(nodes)
    }
}

impl ScriptList {
    /// The bytes of the ScriptList table for this list: the scripts in
    /// ascending tag order, each Script and LangSys table laid out after the
    /// table that refers to it, every offset resolved. Fails with
    /// `WidthOverflow` where a value does not fit its field.
    pub fn compile(&self, max_glyph_id: u16) -> (r: Result<Vec<u8>, SerializationError>)
        requires
            self.wf(),
        ensures
            !self.fits() ==> r is Err,
            r != Err::<Vec<u8>, SerializationError>(SerializationError::CyclicGraph),
            self.scripts@.len() == 0 ==> r == Ok::<Vec<u8>, SerializationError>(r->Ok_0) && r->Ok_0@
                == seq![0u8, 0u8],
            r is Ok ==> r->Ok_0@.len() >= 2 + 6 * self.scripts@.len(),
            r is Ok ==> r->Ok_0@.subrange(0, 2) == be16(self.scripts@.len() as u16),
            r is Ok ==> forall|i: int, j: int|
                0 <= i < j < self.scripts@.len() ==> #[trigger] compiled_tags(r->Ok_0@, self.scripts@.len() as int)[i]
                    < #[trigger] compiled_tags(r->Ok_0@, self.scripts@.len() as int)[j],
            r is Ok ==> forall|i: int|
                0 <= i < self.scripts@.len() ==> has_entry(
                    compiled_tags(r->Ok_0@, self.scripts@.len() as int),
                    (#[trigger] self.scripts@[i]).0.0,
                ),
    {
        let table = match self.to_lowlevel(max_glyph_id) {
            Ok(t) => t,
            Err(e) => {
                return Err(e);
            },
        };
        let nodes = match table.to_nodes() {
            Ok(n) => n,
            Err(e) => {
                return Err(e);
            },
        };
        proof {
            lemma_descending_acyclic(nodes@, (nodes@.len() - 1) as usize);
        }
        let r = resolve(&nodes, nodes.len() - 1);
        proof {
            if self.scripts@.len() == 0 {
                lemma_single_root_layout(nodes@, r);
            }
            if r is Ok {
                let out = r->Ok_0@;
                let order = choose|order: Seq<usize>|
                    order_wf(order, nodes@.len() as int) && order_closed(nodes@, order) && order.len() >= 1
                        && order[0] == nodes@.len() - 1 && resolvable(nodes@, order) && out == laid_out(
                        nodes@,
                        order,
                        order.len() as int,
                    );
                let n = self.scripts@.len() as int;
                let root = nodes@.last();
                let recs = table.scriptRecords@;
                assert(root == nodes@[order[0] as int]);
                assert(root.body@.len() <= out.len()) by {
                    lemma_root_byte_kept(nodes@, order, 0, 0);
                }
                assert(out.subrange(0, 2) =~= root.body@.subrange(0, 2)) by {
                    lemma_root_byte_kept(nodes@, order, 0, 0);
                    lemma_root_byte_kept(nodes@, order, 1, 0);
                }
                assert forall|i: int| 0 <= i < n implies #[trigger] compiled_tags(out, n)[i] == recs[i].0.0 by {
                    let q = 2 + 6 * i;
                    lemma_root_byte_kept(nodes@, order, q, i);
                    lemma_root_byte_kept(nodes@, order, q + 1, i);
                    lemma_root_byte_kept(nodes@, order, q + 2, i);
                    lemma_root_byte_kept(nodes@, order, q + 3, i);
                    assert(out[q] == root.body@[q]);
                    assert(out[q + 1] == root.body@[q + 1]);
                    assert(out[q + 2] == root.body@[q + 2]);
                    assert(out[q + 3] == root.body@[q + 3]);
                    assert(root.body@.subrange(q, q + 4) == be32(recs[i].0.0));
                    lemma_read_be32(out, q, recs[i].0.0, root.body@);
                }
                assert forall|i: int| 0 <= i < n implies has_entry(compiled_tags(out, n), (#[trigger] self.scripts@[i]).0.0) by {
                    assert(has_entry(tags_of(recs), self.scripts@[i].0));
                    let j = choose|j: int| 0 <= j < tags_of(recs).len() && tags_of(recs)[j] == self.scripts@[i].0;
                    assert(compiled_tags(out, n)[j] == recs[j].0.0);
                }
            }
        }
        r
    }
}

proof fn lemma_root_byte_kept(nodes: Seq<TableNode>, order: Seq<usize>, p: int, i: int)
    requires
        arena_wf(nodes),
        order_wf(order, nodes.len() as int),
        order.len() >= 1,
        0 <= p < nodes[order[0] as int].body@.len(),
        0 <= i,
        p < 2 || (2 + 6 * i <= p < 6 + 6 * i),
        forall|j: int|
            0 <= j < nodes[order[0] as int].markers@.len() ==> (#[trigger] nodes[order[0] as int].markers@[j]).at
                == 6 + 6 * j && !nodes[order[0] as int].markers@[j].wide,
    ensures
        nodes[order[0] as int].body@.len() <= laid_out(nodes, order, order.len() as int).len(),
        laid_out(nodes, order, order.len() as int)[p] == nodes[order[0] as int].body@[p],
{
    let root = nodes[order[0] as int];
    assert forall|j: int| 0 <= j < root.markers@.len() implies !((#[trigger] root.markers@[j]).at <= p
        < root.markers@[j].at + width(root.markers@[j])) by {
        assert(root.markers@[j].at == 6 + 6 * j);
    }
    lemma_laid_out_starts_with_root(nodes, order, p);
}

proof fn lemma_single_root_layout(nodes: Seq<TableNode>, r: Result<Vec<u8>, SerializationError>)
    requires
        nodes.len() == 1,
        arena_wf(nodes),
        nodes[0].markers@.len() == 0,
        nodes[0].body@.len() == 2,
        r != Err::<Vec<u8>, SerializationError>(SerializationError::CyclicGraph),
        r is Err ==> r == Err::<Vec<u8>, SerializationError>(SerializationError::CyclicGraph) || r
            == Err::<Vec<u8>, SerializationError>(SerializationError::WidthOverflow),
        r == Err::<Vec<u8>, SerializationError>(SerializationError::WidthOverflow) ==> exists|
            order: Seq<usize>,
        |
            order_wf(order, nodes.len() as int) && order_closed(nodes, order) && order.len() >= 1
                && order[0] == 0 && !(start_of(nodes, order, order.len() as int) <= usize::MAX
                && resolvable(nodes, order)),
        r is Ok ==> exists|order: Seq<usize>|
            order_wf(order, nodes.len() as int) && order_closed(nodes, order) && order.len() >= 1
                && order[0] == 0 && resolvable(nodes, order) && r->Ok_0@ == laid_out(
                nodes,
                order,
                order.len() as int,
            ),
    ensures
        r is Ok,
        r->Ok_0@ == nodes[0].body@,
{
    if r is Err {
        let order = choose|order: Seq<usize>|
            order_wf(order, nodes.len() as int) && order_closed(nodes, order) && order.len() >= 1
                && order[0] == 0 && !(start_of(nodes, order, order.len() as int) <= usize::MAX
                && resolvable(nodes, order));
        crate::offsets::lemma_order_len(order, 1);
        assert(start_of(nodes, order, 0) == 0);
        assert(start_of(nodes, order, 1) == 2);
    } else {
        let order = choose|order: Seq<usize>|
            order_wf(order, nodes.len() as int) && order_closed(nodes, order) && order.len() >= 1
                && order[0] == 0 && resolvable(nodes, order) && r->Ok_0@ == laid_out(
                nodes,
                order,
                order.len() as int,
            );
        crate::offsets::lemma_order_len(order, 1);
        assert(laid_out(nodes, order, 0) =~= Seq::<u8>::empty());
        assert(laid_out(nodes, order, 1) =~= nodes[0].body@);
    }
}

/// The script tags in the first `n` records of a compiled ScriptList table.
pub open spec fn compiled_tags(bytes: Seq<u8>, n: int) -> Seq<u32> {
    Seq::new(n as nat, |i: int| read32(bytes, 2 + 6 * i))
}

proof fn lemma_read_be32(out: Seq<u8>, q: int, x: u32, body: Seq<u8>)
    requires
        0 <= q,
        q + 4 <= body.len(),
        q + 4 <= out.len(),
        out[q] == body[q],
        out[q + 1] == body[q + 1],
        out[q + 2] == body[q + 2],
        out[q + 3] == body[q + 3],
        body.subrange(q, q + 4) == be32(x),
    ensures
        read32(out, q) == x,
{
    assert(body[q] == body.subrange(q, q + 4)[0]);
    assert(body[q + 1] == body.subrange(q, q + 4)[1]);
    assert(body[q + 2] == body.subrange(q, q + 4)[2]);
    assert(body[q + 3] == body.subrange(q, q + 4)[3]);
    crate::primitives::lemma_u32_round_trip(x, out.subrange(0, q), out.subrange(q + 4, out.len() as int));
    assert(out.subrange(0, q) + x.ser_spec() + out.subrange(q + 4, out.len() as int) =~= out);
}


impl Serialize for LangSys {
    open spec fn ser_ok(&self) -> bool {
        self.featureIndices.ser_ok()
    }

    open spec fn ser_spec(&self) -> Seq<u8> {
        be16(self.lookupOrderOffset) + be16(self.requiredFeatureIndex) + self.featureIndices.ser_spec()
    }

    fn to_bytes(&self, data: &mut Vec<u8>) -> (r: Result<(), SerializationError>) {
        if self.featureIndices.0.len() > 0xFFFF {
            return Err(SerializationError::WidthOverflow);
        }
        let ghost start = data@;
        write_u16(self.lookupOrderOffset, data);
        write_u16(self.requiredFeatureIndex, data);
        let r = self.featureIndices.to_bytes(data);
        assert(data@ =~= start + self.ser_spec());
        r
    }
}

impl Deserialize for LangSys {
    open spec fn de_spec(input: Seq<u8>, pos: int) -> Option<(LangSysView, int)> {
        if fits(input, pos, 4) {
            match Counted::<u16>::de_spec(input, pos + 4) {
                Some((v, end)) => Some(
                    (
                        LangSysView {
                            lookup_order_offset: read16(input, pos),
                            required_feature_index: read16(input, pos + 2),
                            feature_indices: v,
                        },
                        end,
                    ),
                ),
                None => None,
            }
        } else {
            None
        }
    }

    fn from_bytes(c: &mut ReaderContext) -> (r: Result<Self, DeserializationError>) {
        let lookup_order = match read_u16(c) {
            Ok(v) => v,
            Err(e) => {
                return Err(e);
            },
        };
        let required = match read_u16(c) {
            Ok(v) => v,
            Err(e) => {
                return Err(e);
            },
        };
        match Counted::<u16>::from_bytes(c) {
            Ok(indices) => {
                let ls = LangSys {
                    lookupOrderOffset: lookup_order,
                    requiredFeatureIndex: required,
                    featureIndices: indices,
                };
                assert(ls@.feature_indices =~= indices@);
                Ok(ls)
            },
            Err(e) => Err(e),
        }
    }
}

/// A LangSys table reads back from its bytes, wherever they stand: the
/// "none" value of the required feature and a present one alike.
pub proof fn lemma_lang_sys_codec_round_trip(ls: LangSys, before: Seq<u8>, after: Seq<u8>)
    requires
        ls.ser_ok(),
    ensures
        LangSys::de_spec(before + ls.ser_spec() + after, before.len() as int) == Some(
            (ls@, before.len() + ls.ser_spec().len() as int),
        ),
{
    let input = before + ls.ser_spec() + after;
    let p = before.len() as int;
    let b2 = before + be16(ls.lookupOrderOffset) + be16(ls.requiredFeatureIndex);
    lemma_u16_round_trips();
    lemma_counted_round_trip(ls.featureIndices, b2, after);
    assert(b2 + ls.featureIndices.ser_spec() + after =~= input);
    crate::primitives::lemma_u16_round_trip(ls.lookupOrderOffset, before, be16(ls.requiredFeatureIndex) + ls.featureIndices.ser_spec() + after);
    assert(before + be16(ls.lookupOrderOffset) + (be16(ls.requiredFeatureIndex) + ls.featureIndices.ser_spec() + after) =~= input);
    crate::primitives::lemma_u16_round_trip(ls.requiredFeatureIndex, before + be16(ls.lookupOrderOffset), ls.featureIndices.ser_spec() + after);
    assert(before + be16(ls.lookupOrderOffset) + be16(ls.requiredFeatureIndex) + (ls.featureIndices.ser_spec() + after) =~= input);
    assert(ls.featureIndices@ =~= ls.featureIndices.0@);
}

} // verus!

verus! {

/// What a Script table holds: its default language system, if any, and its
/// language systems by tag.
pub struct ScriptTableView {
    pub default_lang_sys: Option<LangSysView>,
    pub records: Seq<(u32, LangSysView)>,
}

impl View for ScriptTable {
    type V = ScriptTableView;

    open spec fn view(&self) -> ScriptTableView {
        ScriptTableView {
            default_lang_sys: match self.defaultLangSys {
                Some(d) => Some(d@),
                None => None,
            },
            records: self.langSysRecords@.map_values(|e: (Tag, LangSys)| (e.0.0, e.1@)),
        }
    }
}

impl View for ScriptListTable {
    type V = Seq<(u32, ScriptTableView)>;

    open spec fn view(&self) -> Seq<(u32, ScriptTableView)> {
        self.scriptRecords@.map_values(|e: (Tag, ScriptTable)| (e.0.0, e.1@))
    }
}

/// The LangSys table at `p`, if one can be read there.
pub open spec fn lang_sys_at(input: Seq<u8>, p: int) -> Option<LangSysView> {
    match LangSys::de_spec(input, p) {
        Some((v, _)) => Some(v),
        None => None,
    }
}

/// The LangSys table that the record `j` of the Script table at `s` refers to.
pub open spec fn lang_sys_record_at(input: Seq<u8>, s: int, j: int) -> Option<LangSysView> {
    lang_sys_at(input, s + read16(input, s + 8 + 6 * j))
}

/// The Script table at `s`, if it and every LangSys table it refers to can
/// be read. A zero default offset means no default language system.
pub open spec fn script_at(input: Seq<u8>, s: int) -> Option<ScriptTableView> {
    let d = read16(input, s);
    let m = read16(input, s + 2) as int;
    if !fits(input, s, 4) || !fits(input, s, 4 + 6 * m) {
        None
    } else if d != 0 && lang_sys_at(input, s + d) is None {
        None
    } else if exists|j: int| 0 <= j < m && (#[trigger] lang_sys_record_at(input, s, j)) is None {
        None
    } else {
        Some(
            ScriptTableView {
                default_lang_sys: if d == 0 {
                    None
                } else {
                    lang_sys_at(input, s + d)
                },
                records: Seq::new(
                    m as nat,
                    |j: int| (read32(input, s + 4 + 6 * j), lang_sys_record_at(input, s, j).unwrap()),
                ),
            },
        )
    }
}

fn read_tag_offset(c: &mut ReaderContext) -> (r: Result<(Tag, u16), DeserializationError>)
    ensures
        final(c).input@ == old(c).input@,
        final(c).origins() == old(c).origins(),
        fits(old(c).input@, old(c).ptr as int, 6) ==> r is Ok && r->Ok_0.0.0 == read32(
            old(c).input@,
            old(c).ptr as int,
        ) && r->Ok_0.1 == read16(old(c).input@, old(c).ptr + 4) && final(c).ptr == old(c).ptr + 6,
        !fits(old(c).input@, old(c).ptr as int, 6) ==> r is Err,
{
    let t = match Tag::from_bytes(c) {
        Ok(t) => t,
        Err(e) => {
            return Err(e);
        },
    };
    match read_u16(c) {
        Ok(o) => Ok((t, o)),
        Err(e) => Err(e),
    }
}

fn read_lang_sys_at(c: &mut ReaderContext, offset: u16) -> (r: Result<LangSys, DeserializationError>)
    requires
        old(c).wf(),
    ensures
        final(c).input@ == old(c).input@,
        final(c).origins() == old(c).origins(),
        match lang_sys_at(old(c).input@, old(c).origin() + offset) {
            Some(v) => r is Ok && r->Ok_0@ == v,
            None => r is Err,
        },
{
    match c.follow_offset(offset) {
        Ok(()) => {},
        Err(e) => {
            return Err(e);
        },
    }
    LangSys::from_bytes(c)
}

impl ScriptTable {
    /// Reads the Script table at the reader's position and every LangSys
    /// table it refers to, its offsets measured from its own start; the
    /// reader ends after the table's records.
    #[verifier::rlimit(80)]
    #[verifier::spinoff_prover]
    pub fn read(c: &mut ReaderContext) -> (r: Result<ScriptTable, DeserializationError>)
        requires
            old(c).wf(),
        ensures
            final(c).input@ == old(c).input@,
            final(c).origins() == old(c).origins(),
            match script_at(old(c).input@, old(c).ptr as int) {
                Some(v) => r is Ok && r->Ok_0@ == v && final(c).ptr == old(c).ptr + 4 + 6 * read16(
                    old(c).input@,
                    old(c).ptr + 2,
                ),
                None => r is Err,
            },
    {
        let ghost input = c.input@;
        let s = c.ptr;
        c.push();
        let d = match read_u16(c) {
            Ok(v) => v,
            Err(e) => {
                c.pop();
                return Err(e);
            },
        };
        let m = match read_u16(c) {
            Ok(v) => v,
            Err(e) => {
                c.pop();
                return Err(e);
            },
        };
        let mut heads: Vec<(Tag, u16)> = Vec::new();
        let mut j: usize = 0;
        while j < m as usize
            invariant
                input == old(c).input@,
                s == old(c).ptr,
                c.input@ == input,
                c.origins() == old(c).origins().push(s),
                old(c).wf(),
                m == read16(input, s + 2),
                fits(input, s as int, 4),
                j <= m,
                c.ptr == s + 4 + 6 * j,
                c.ptr <= input.len(),
                heads@.len() == j,
                forall|k: int|
                    0 <= k < j ==> (#[trigger] heads@[k]).0.0 == read32(input, s + 4 + 6 * k)
                        && heads@[k].1 == read16(input, s + 8 + 6 * k),
            decreases m - j,
        {
            match read_tag_offset(c) {
                Ok(h) => {
                    heads.push(h);
                },
                Err(e) => {
                    c.pop();
                    return Err(e);
                },
            }
            j = j + 1;
        }
        let end = c.ptr;
        let default_lang_sys = if d == 0 {
            None
        } else {
            match read_lang_sys_at(c, d) {
                Ok(l) => Some(l),
                Err(e) => {
                    c.pop();
                    return Err(e);
                },
            }
        };
        let mut records: Vec<(Tag, LangSys)> = Vec::new();
        let mut k: usize = 0;
        while k < heads.len()
            invariant
                input == old(c).input@,
                c.input@ == input,
                c.origins() == old(c).origins().push(s),
                old(c).wf(),
                m == read16(input, s + 2),
                d == read16(input, s as int),
                s == old(c).ptr,
                end == s + 4 + 6 * m,
                fits(input, s as int, 4 + 6 * m),
                heads@.len() == m,
                forall|i: int|
                    0 <= i < m ==> (#[trigger] heads@[i]).0.0 == read32(input, s + 4 + 6 * i)
                        && heads@[i].1 == read16(input, s + 8 + 6 * i),
                k <= m,
                records@.len() == k,
                forall|i: int| 0 <= i < k ==> (#[trigger] lang_sys_record_at(input, s as int, i)) is Some,
                forall|i: int|
                    0 <= i < k ==> (#[trigger] records@[i]).0.0 == read32(input, s + 4 + 6 * i)
                        && records@[i].1@ == lang_sys_record_at(input, s as int, i).unwrap(),
            decreases m - k,
        {
            let h = heads[k];
            assert(c.origin() == s);
            match read_lang_sys_at(c, h.1) {
                Ok(l) => {
                    records.push((h.0, l));
                },
                Err(e) => {
                    assert(lang_sys_record_at(input, s as int, k as int) is None);
                    c.pop();
                    return Err(e);
                },
            }
            k = k + 1;
        }
        c.pop();
        c.ptr = end;
        let t = ScriptTable { defaultLangSys: default_lang_sys, langSysRecords: records };
        assert(t@.records =~= script_at(input, s as int)->Some_0.records);
        Ok(t)
    }
}

} // verus!

verus! {

/// The Script table that record `i` of the ScriptList table at `l` refers to.
pub open spec fn script_record_at(input: Seq<u8>, l: int, i: int) -> Option<ScriptTableView> {
    script_at(input, l + read16(input, l + 6 + 6 * i))
}

/// The ScriptList table at `l`, if it and every table it refers to can be
/// read.
pub open spec fn script_list_at(input: Seq<u8>, l: int) -> Option<Seq<(u32, ScriptTableView)>> {
    let n = read16(input, l) as int;
    if !fits(input, l, 2) || !fits(input, l, 2 + 6 * n) {
        None
    } else if exists|i: int| 0 <= i < n && (#[trigger] script_record_at(input, l, i)) is None {
        None
    } else {
        Some(Seq::new(n as nat, |i: int| (read32(input, l + 2 + 6 * i), script_record_at(input, l, i).unwrap())))
    }
}

impl ScriptListTable {
    /// Reads the ScriptList table at the reader's position and every table
    /// it refers to, each table's offsets measured from its own start; the
    /// reader ends after the list's records.
    #[verifier::rlimit(80)]
    #[verifier::spinoff_prover]
    pub fn read(c: &mut ReaderContext) -> (r: Result<ScriptListTable, DeserializationError>)
        requires
            old(c).wf(),
        ensures
            final(c).input@ == old(c).input@,
            final(c).origins() == old(c).origins(),
            match script_list_at(old(c).input@, old(c).ptr as int) {
                Some(v) => r is Ok && r->Ok_0@ == v && final(c).ptr == old(c).ptr + 2 + 6 * read16(
                    old(c).input@,
                    old(c).ptr as int,
                ),
                None => r is Err,
            },
    {
        let ghost input = c.input@;
        let l = c.ptr;
        c.push();
        let n = match read_u16(c) {
            Ok(v) => v,
            Err(e) => {
                c.pop();
                return Err(e);
            },
        };
        let mut heads: Vec<(Tag, u16)> = Vec::new();
        let mut j: usize = 0;
        while j < n as usize
            invariant
                input == old(c).input@,
                l == old(c).ptr,
                c.input@ == input,
                c.origins() == old(c).origins().push(l),
                old(c).wf(),
                n == read16(input, l as int),
                fits(input, l as int, 2),
                j <= n,
                c.ptr == l + 2 + 6 * j,
                c.ptr <= input.len(),
                heads@.len() == j,
                forall|k: int|
                    0 <= k < j ==> (#[trigger] heads@[k]).0.0 == read32(input, l + 2 + 6 * k)
                        && heads@[k].1 == read16(input, l + 6 + 6 * k),
            decreases n - j,
        {
            match read_tag_offset(c) {
                Ok(h) => {
                    heads.push(h);
                },
                Err(e) => {
                    c.pop();
                    return Err(e);
                },
            }
            j = j + 1;
        }
        let end = c.ptr;
        let mut records: Vec<(Tag, ScriptTable)> = Vec::new();
        let mut k: usize = 0;
        while k < heads.len()
            invariant
                input == old(c).input@,
                l == old(c).ptr,
                c.input@ == input,
                c.origins() == old(c).origins().push(l),
                old(c).wf(),
                n == read16(input, l as int),
                end == l + 2 + 6 * n,
                fits(input, l as int, 2 + 6 * n),
                heads@.len() == n,
                forall|i: int|
                    0 <= i < n ==> (#[trigger] heads@[i]).0.0 == read32(input, l + 2 + 6 * i)
                        && heads@[i].1 == read16(input, l + 6 + 6 * i),
                k <= n,
                records@.len() == k,
                forall|i: int| 0 <= i < k ==> (#[trigger] script_record_at(input, l as int, i)) is Some,
                forall|i: int|
                    0 <= i < k ==> (#[trigger] records@[i]).0.0 == read32(input, l + 2 + 6 * i)
                        && records@[i].1@ == script_record_at(input, l as int, i).unwrap(),
            decreases n - k,
        {
            let h = heads[k];
            assert(c.origin() == l);
            match c.follow_offset(h.1) {
                Ok(()) => {},
                Err(e) => {
                    assert(script_record_at(input, l as int, k as int) is None);
                    c.pop();
                    return Err(e);
                },
            }
            match ScriptTable::read(c) {
                Ok(t) => {
                    records.push((h.0, t));
                },
                Err(e) => {
                    assert(script_record_at(input, l as int, k as int) is None);
                    c.pop();
                    return Err(e);
                },
            }
            k = k + 1;
        }
        c.pop();
        c.ptr = end;
        let t = ScriptListTable { scriptRecords: records };
        assert(t@ =~= script_list_at(input, l as int)->Some_0);
        Ok(t)
    }
}

} // verus!

verus! {

/// A language system written as its LangSys table, then as bytes, reads
/// back as the same language system: the "none" value of the required
/// feature on the wire becomes `None` again, a present one comes back as it
/// was.
pub proof fn lemma_language_system_bytes_round_trip(ls: LanguageSystem, low: LangSys, before: Seq<u8>, after: Seq<u8>)
    requires
        language_system_fits(ls@),
        low@ == lang_sys_of(ls@),
        low.ser_ok(),
    ensures
        match LangSys::de_spec(before + low.ser_spec() + after, before.len() as int) {
            Some((v, _)) => language_system_of(v) == ls@ && v.required_feature_index == match ls.required_feature {
                Some(f) => f as u16,
                None => NO_REQUIRED_FEATURE,
            },
            None => false,
        },
{
    lemma_lang_sys_codec_round_trip(low, before, after);
    lemma_language_system_round_trip(ls@);
}

} // verus!
