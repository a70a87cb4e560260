//! Extraction of a structured profile body from a parsed document: the
//! creator from the `general` section, and one geo-referenced section for
//! every other document section that carries a `pushback_pos` key. A section
//! without a parseable primary position key is dropped outright, never
//! represented empty; pushback sides are kept only as label/position pairs.

use vstd::prelude::*;

use crate::assoc::{assoc_get, assoc_has};
use crate::coords::{position_of_value, GeoPosition};
use crate::ids::fresh_id;
use crate::ini::{DocModel, IniDocument, KvModel};
use crate::text::{eq_ignore_case, lemma_split_on_nonempty, split_char, split_on, to_lower_seq, views_of};

verus! {

/// A secondary pushback point: its label and its position.
pub struct LabeledPosition {
    pub label: String,
    pub position: GeoPosition,
}

/// One geo-referenced section of a profile body.
pub struct Section {
    pub id: u128,
    pub name: String,
    pub position: GeoPosition,
    pub pushback_left: Option<LabeledPosition>,
    pub pushback_right: Option<LabeledPosition>,
}

/// A structured profile body: creator metadata and the geo-referenced
/// sections in document order.
pub struct ProfileBody {
    pub creator: String,
    pub sections: Vec<Section>,
}

/// A section as the contracts speak of it: name, primary position, and the
/// optional left and right labelled pushback points.
pub type SectionModel = (
    Seq<char>,
    (int, int),
    Option<(Seq<char>, (int, int))>,
    Option<(Seq<char>, (int, int))>,
);

/// The creator named in the `general` section, empty when absent.
pub open spec fn creator_of(doc: DocModel) -> Seq<char> {
    match assoc_get(doc, "general"@) {
        Option::Some(kv) => match assoc_get(kv, "creator"@) {
            Option::Some(v) => v,
            Option::None => Seq::empty(),
        },
        Option::None => Seq::empty(),
    }
}

/// Whether a document section becomes a body section: it must carry a
/// `pushback_pos` key and its name must not be `general` in any casing.
pub open spec fn section_included(name: Seq<char>, kv: KvModel) -> bool {
    assoc_has(kv, "pushback_pos"@) && to_lower_seq(name) != to_lower_seq("general"@)
}

/// The document indices of the sections that become body sections, in order.
pub open spec fn included_indices(doc: DocModel, k: int) -> Seq<int>
    decreases k,
{
    if k <= 0 {
        Seq::empty()
    } else {
        let rest = included_indices(doc, k - 1);
        if section_included(doc[k - 1].0, doc[k - 1].1) {
            rest.push(k - 1)
        } else {
            rest
        }
    }
}

/// The body section derived from one included document section.
pub open spec fn section_model(name: Seq<char>, kv: KvModel) -> SectionModel {
    let pos = position_of_value(assoc_get(kv, "pushback_pos"@).unwrap());
    let left = if assoc_has(kv, "pushbacklabels"@) && assoc_has(kv, "pushbackleftpos"@) {
        Some(
            (
                split_on(assoc_get(kv, "pushbacklabels"@).unwrap(), '|')[0],
                position_of_value(assoc_get(kv, "pushbackleftpos"@).unwrap()),
            ),
        )
    } else {
        None
    };
    let right = if assoc_has(kv, "pushbacklabels"@) && split_on(
        assoc_get(kv, "pushbacklabels"@).unwrap(),
        '|',
    ).len() > 1 && assoc_has(kv, "pushbackrightpos"@) {
        Some(
            (
                split_on(assoc_get(kv, "pushbacklabels"@).unwrap(), '|')[1],
                position_of_value(assoc_get(kv, "pushbackrightpos"@).unwrap()),
            ),
        )
    } else {
        None
    };
    (name, pos, left, right)
}

/// Whether an executable section carries exactly the modelled fields; the
/// identifier is left free, it is freshly drawn.
pub open spec fn section_matches(s: Section, m: SectionModel) -> bool {
    &&& s.name@ == m.0
    &&& (s.position.lat_micro as int, s.position.lon_micro as int) == m.1
    &&& (match (s.pushback_left, m.2) {
        (Option::Some(lp), Option::Some(mm)) => lp.label@ == mm.0 && (
            lp.position.lat_micro as int,
            lp.position.lon_micro as int,
        ) == mm.1,
        (Option::None, Option::None) => true,
        _ => false,
    })
    &&& (match (s.pushback_right, m.3) {
        (Option::Some(rp), Option::Some(mm)) => rp.label@ == mm.0 && (
            rp.position.lat_micro as int,
            rp.position.lon_micro as int,
        ) == mm.1,
        (Option::None, Option::None) => true,
        _ => false,
    })
}

/// Law: a document section that carries no `pushback_pos` key is absent from
/// the body: no element of the included-index list points at it.
pub proof fn lemma_section_without_position_excluded(doc: DocModel, k: int, i: int)
    requires
        0 <= i < doc.len(),
        !assoc_has(doc[i].1, "pushback_pos"@),
    ensures
        forall|a: int|
            0 <= a < included_indices(doc, k).len() ==> included_indices(doc, k)[a] != i,
    decreases k,
{
    if k > 0 {
        lemma_section_without_position_excluded(doc, k - 1, i);
        let rest = included_indices(doc, k - 1);
        if section_included(doc[k - 1].0, doc[k - 1].1) {
            assert(forall|a: int|
                0 <= a < rest.len() ==> included_indices(doc, k)[a] == rest[a]);
        }
    }
}

/// Extracts the structured body of one parsed profile document. It never
/// fails: missing or malformed fields degrade to omission or to the origin
/// fallback, as `section_model` spells out.
pub fn extract_body(doc: &IniDocument) -> (r: ProfileBody)
    ensures
        r.creator@ == creator_of(doc@),
        r.sections@.len() == included_indices(doc@, doc@.len() as int).len(),
        forall|i: int|
            0 <= i < r.sections@.len() ==> section_matches(
                r.sections@[i],
                section_model(
                    doc@[included_indices(doc@, doc@.len() as int)[i]].0,
                    doc@[included_indices(doc@, doc@.len() as int)[i]].1,
                ),
            ),
{
    let creator = match doc.get_value("general", "creator") {
        Option::Some(v) => v.clone(),
        Option::None => String::new(),
    };
    let mut sections: Vec<Section> = Vec::new();
    let count = doc.section_count();
    let mut i: usize = 0;
    while i < count
        invariant
            0 <= i <= count,
            count == doc@.len(),
            sections@.len() == included_indices(doc@, i as int).len(),
            forall|a: int|
                0 <= a < sections@.len() ==> section_matches(
                    sections@[a],
                    section_model(
                        doc@[included_indices(doc@, i as int)[a]].0,
                        doc@[included_indices(doc@, i as int)[a]].1,
                    ),
                ),
        decreases count - i,
    {
        let ghost pre = included_indices(doc@, i as int);
        let sec = doc.section_at(i);
        let has_pos = sec.contains_key("pushback_pos");
        let is_general = eq_ignore_case(sec.name.as_str(), "general");
        if has_pos && !is_general {
            let position = match sec.get("pushback_pos") {
                Option::Some(v) => crate::coords::parse_position(v.as_str()),
                Option::None => {
                    proof {
                        assert(false);
                    }
                    GeoPosition { lat_micro: 0, lon_micro: 0 }
                },
            };
            let mut pushback_left: Option<LabeledPosition> = None;
            let mut pushback_right: Option<LabeledPosition> = None;
            match sec.get("pushbacklabels") {
                Option::Some(labels_value) => {
                    let parts = split_char(labels_value.as_str(), '|');
                    proof {
                        lemma_split_on_nonempty(labels_value@, '|');
                        assert(views_of(parts@).len() == parts@.len());
                        assert(views_of(parts@)[0] == parts@[0]@);
                    }
                    match sec.get("pushbackleftpos") {
                        Option::Some(pv) => {
                            pushback_left = Some(
                                LabeledPosition {
                                    label: parts[0].clone(),
                                    position: crate::coords::parse_position(pv.as_str()),
                                },
                            );
                        },
                        Option::None => {},
                    }
                    if parts.len() > 1 {
                        proof {
                            assert(views_of(parts@)[1] == parts@[1]@);
                        }
                        match sec.get("pushbackrightpos") {
                            Option::Some(pv) => {
                                pushback_right = Some(
                                    LabeledPosition {
                                        label: parts[1].clone(),
                                        position: crate::coords::parse_position(pv.as_str()),
                                    },
                                );
                            },
                            Option::None => {},
                        }
                    }
                },
                Option::None => {},
            }
            let section = Section {
                id: fresh_id(),
                name: sec.name.clone(),
                position,
                pushback_left,
                pushback_right,
            };
            proof {
                assert(doc@[i as int] == (sec.name@, sec.kv()));
                assert(section_matches(section, section_model(doc@[i as int].0, doc@[i as int].1)));
                assert(included_indices(doc@, i + 1) == pre.push(i as int));
            }
            sections.push(section);
        } else {
            proof {
                assert(doc@[i as int] == (sec.name@, sec.kv()));
                assert(!section_included(doc@[i as int].0, doc@[i as int].1));
                assert(included_indices(doc@, i + 1) == pre);
            }
        }
        i = i + 1;
    }
    ProfileBody { creator, sections }
}

} // verus!
