//! Parser for the loosely structured INI dialect used by ground-handling
//! profiles. Lines are handled one by one after trimming: `[name]` opens (or
//! resets) a section, a line starting with an ASCII letter and holding exactly
//! one `=` stores a key/value pair under the current section, and every other
//! line is ignored. Malformed content is tolerated by skipping, never an error.

use vstd::prelude::*;

use crate::assoc::{assoc_get, assoc_has, assoc_index, assoc_upsert, lemma_assoc_index};
use crate::text::{
    count_char, count_char_in, find_char, first_index_of, is_ascii_alpha, is_ascii_alpha_char,
    lemma_count_char_zero, lemma_first_index_of, split_char, split_on, str_eq, trim, trim_str,
    views_of,
};

verus! {

/// One `key = value` pair of a section.
pub struct IniEntry {
    pub key: String,
    pub value: String,
}

/// One named section with its entries in insertion order; a later write to an
/// existing key overwrites that entry in place.
pub struct IniSection {
    pub name: String,
    pub entries: Vec<IniEntry>,
}

/// A parsed profile file: sections in the order they were first opened.
pub struct IniDocument {
    pub sections: Vec<IniSection>,
}

/// The entries of one section: key/value pairs in order.
pub type KvModel = Seq<(Seq<char>, Seq<char>)>;

/// A whole document: named sections in order, each with its entries.
pub type DocModel = Seq<(Seq<char>, KvModel)>;

impl View for IniEntry {
    type V = (Seq<char>, Seq<char>);

    open spec fn view(&self) -> Self::V {
        (self.key@, self.value@)
    }
}

impl View for IniSection {
    type V = (Seq<char>, KvModel);

    open spec fn view(&self) -> Self::V {
        (self.name@, self.entries@.map_values(|e: IniEntry| e@))
    }
}

impl View for IniDocument {
    type V = DocModel;

    open spec fn view(&self) -> Self::V {
        self.sections@.map_values(|s: IniSection| s@)
    }
}

/// The section name a header line opens: the trimmed line must be `[`,
/// interior, `]`, and the interior must be non-empty after its own trim.
pub open spec fn header_name(line: Seq<char>) -> Option<Seq<char>> {
    let t = trim(line);
    if t.len() >= 3 && t[0] == '[' && t[t.len() - 1] == ']' {
        let interior = trim(t.subrange(1, t.len() - 1));
        if interior.len() > 0 {
            Some(interior)
        } else {
            None
        }
    } else {
        None
    }
}

/// The key/value pair carried by a line: defined exactly when the trimmed
/// line holds exactly one `=`; key and value are the trimmed pieces on
/// either side of it.
pub open spec fn kv_of_line(line: Seq<char>) -> Option<(Seq<char>, Seq<char>)> {
    let t = trim(line);
    if count_char(t, '=') == 1 {
        let i = first_index_of(t, '=');
        Some((trim(t.take(i)), trim(t.skip(i + 1))))
    } else {
        None
    }
}

/// Effect of a key/value line: stored under the current section when one is
/// active and the line carries a pair; otherwise the document is unchanged.
pub open spec fn kv_step(d: DocModel, cur: Option<Seq<char>>, line: Seq<char>) -> DocModel {
    match cur {
        Option::None => d,
        Option::Some(name) => match kv_of_line(line) {
            Option::Some(kv) => {
                if assoc_has(d, name) {
                    let i = assoc_index(d, name);
                    d.update(i, (name, assoc_upsert(d[i].1, kv.0, kv.1)))
                } else {
                    d
                }
            },
            Option::None => d,
        },
    }
}

/// Effect of one line on the document and the current-section context. An
/// empty line, a malformed header and a line starting with anything but `[`
/// or an ASCII letter all leave both unchanged; in particular a rejected
/// header (such as an empty interior) does not close the current section.
pub open spec fn ini_step(d: DocModel, cur: Option<Seq<char>>, line: Seq<char>) -> (
    DocModel,
    Option<Seq<char>>,
) {
    let t = trim(line);
    if t.len() == 0 {
        (d, cur)
    } else if t[0] == '[' {
        match header_name(line) {
            Option::Some(name) => (assoc_upsert(d, name, Seq::empty()), Some(name)),
            Option::None => (d, cur),
        }
    } else if is_ascii_alpha_char(t[0]) {
        (kv_step(d, cur, line), cur)
    } else {
        (d, cur)
    }
}

/// The parser state after the first `k` lines, folded from an empty document
/// with no current section.
pub open spec fn parse_prefix(lines: Seq<Seq<char>>, k: int) -> (DocModel, Option<Seq<char>>)
    decreases k,
{
    if k <= 0 {
        (Seq::empty(), None)
    } else {
        let p = parse_prefix(lines, k - 1);
        ini_step(p.0, p.1, lines[k - 1])
    }
}

/// The document denoted by a whole file: its text split at newlines, then all
/// lines folded through `ini_step`.
pub open spec fn parse_text_model(text: Seq<char>) -> DocModel {
    let lines = split_on(text, '\n');
    parse_prefix(lines, lines.len() as int).0
}

impl IniSection {
    /// The entries of this section as a key/value model.
    pub open spec fn kv(&self) -> KvModel {
        self@.1
    }

    /// The value stored under `key`, if any.
    pub fn get(&self, key: &str) -> (r: Option<&String>)
        ensures
            match r {
                Some(v) => assoc_get(self.kv(), key@) == Some(v@),
                None => assoc_get(self.kv(), key@) is None,
            },
    {
        let n = self.entries.len();
        let mut i: usize = 0;
        while i < n
            invariant
                0 <= i <= n,
                n == self.entries@.len(),
                forall|j: int| 0 <= j < i ==> self.entries@[j].key@ != key@,
            decreases n - i,
        {
            if str_eq(self.entries[i].key.as_str(), key) {
                proof {
                    assert(self.kv()[i as int] == self.entries@[i as int]@);
                    assert(assoc_has(self.kv(), key@));
                    lemma_assoc_index(self.kv(), key@);
                    assert forall|j: int| 0 <= j < i implies self.kv()[j].0 != key@ by {
                        assert(self.kv()[j] == self.entries@[j]@);
                    }
                    assert(assoc_index(self.kv(), key@) == i as int);
                }
                return Some(&self.entries[i].value);
            }
            i = i + 1;
        }
        proof {
            if assoc_has(self.kv(), key@) {
                lemma_assoc_index(self.kv(), key@);
                let ix = assoc_index(self.kv(), key@);
                assert(self.kv()[ix] == self.entries@[ix]@);
            }
        }
        None
    }

    /// Whether this section stores a value under `key`.
    pub fn contains_key(&self, key: &str) -> (r: bool)
        ensures
            r == assoc_has(self.kv(), key@),
    {
        self.get(key).is_some()
    }
}

impl IniDocument {
    /// An empty document.
    pub fn new() -> (r: Self)
        ensures
            r@ == Seq::<(Seq<char>, KvModel)>::empty(),
    {
        let r = IniDocument { sections: Vec::new() };
        proof {
            assert(r@ =~= Seq::<(Seq<char>, KvModel)>::empty());
        }
        r
    }

    /// How many sections the document holds.
    pub fn section_count(&self) -> (r: usize)
        ensures
            r == self@.len(),
    {
        self.sections.len()
    }

    /// The section at position `i`.
    pub fn section_at(&self, i: usize) -> (r: &IniSection)
        requires
            i < self@.len(),
        ensures
            r@ == self@[i as int],
    {
        let r = &self.sections[i];
        proof {
            assert(self@[i as int] == self.sections@[i as int]@);
        }
        r
    }

    /// The section named `name` (case-sensitively), if any.
    pub fn get_section(&self, name: &str) -> (r: Option<&IniSection>)
        ensures
            match r {
                Some(sec) => sec@.0 == name@ && assoc_get(self@, name@) == Some(sec@.1),
                None => assoc_get(self@, name@) is None,
            },
    {
        let n = self.sections.len();
        let mut i: usize = 0;
        while i < n
            invariant
                0 <= i <= n,
                n == self.sections@.len(),
                forall|j: int| 0 <= j < i ==> self.sections@[j].name@ != name@,
            decreases n - i,
        {
            if str_eq(self.sections[i].name.as_str(), name) {
                proof {
                    assert(self@[i as int] == self.sections@[i as int]@);
                    assert(assoc_has(self@, name@));
                    lemma_assoc_index(self@, name@);
                    assert forall|j: int| 0 <= j < i implies self@[j].0 != name@ by {
                        assert(self@[j] == self.sections@[j]@);
                    }
                    assert(assoc_index(self@, name@) == i as int);
                }
                return Some(&self.sections[i]);
            }
            i = i + 1;
        }
        proof {
            if assoc_has(self@, name@) {
                lemma_assoc_index(self@, name@);
                let ix = assoc_index(self@, name@);
                assert(self@[ix] == self.sections@[ix]@);
            }
        }
        None
    }

    /// Whether the document holds a section named `name`.
    pub fn contains_section(&self, name: &str) -> (r: bool)
        ensures
            r == assoc_has(self@, name@),
    {
        self.get_section(name).is_some()
    }

    /// The value under `key` in the section named `section`, if both exist.
    pub fn get_value(&self, section: &str, key: &str) -> (r: Option<&String>)
        ensures
            match r {
                Some(v) => match assoc_get(self@, section@) {
                    Some(kv) => assoc_get(kv, key@) == Some(v@),
                    None => false,
                },
                None => match assoc_get(self@, section@) {
                    Some(kv) => assoc_get(kv, key@) is None,
                    None => true,
                },
            },
    {
        match self.get_section(section) {
            Some(sec) => sec.get(key),
            None => None,
        }
    }
}

/// The view of an optional current-section name.
pub open spec fn opt_name_view(o: Option<String>) -> Option<Seq<char>> {
    match o {
        Option::Some(s) => Some(s@),
        Option::None => None,
    }
}

/// Handles one header line. When the trimmed line is `[name]` with a
/// non-empty trimmed name, that section is created empty (or reset to empty
/// if already present) and its name returned; on any other line the document
/// is unchanged and `None` is returned.
pub fn handle_section_line(line: &str, doc: &mut IniDocument) -> (r: Option<String>)
    ensures
        match r {
            Some(name) => header_name(line@) == Some(name@) && final(doc)@ == assoc_upsert(
                old(doc)@,
                name@,
                Seq::<(Seq<char>, Seq<char>)>::empty(),
            ),
            None => header_name(line@) is None && final(doc)@ == old(doc)@,
        },
{
    let t = trim_str(line);
    let tlen = t.unicode_len();
    if tlen >= 3 && t.get_char(0) == '[' && t.get_char(tlen - 1) == ']' {
        let interior = t.substring_char(1, tlen - 1);
        let name_slice = trim_str(interior);
        if name_slice.unicode_len() > 0 {
            let name = name_slice.to_owned();
            proof {
                assert(interior@ == t@.subrange(1, t@.len() - 1));
                assert(header_name(line@) == Some(name@));
            }
            let n = doc.sections.len();
            let mut i: usize = 0;
            while i < n
                invariant
                    0 <= i <= n,
                    n == doc.sections@.len(),
                    *doc == *old(doc),
                    header_name(line@) == Some(name@),
                    forall|j: int| 0 <= j < i ==> doc.sections@[j].name@ != name@,
                decreases n - i,
            {
                if str_eq(doc.sections[i].name.as_str(), name.as_str()) {
                    proof {
                        assert(doc@[i as int] == doc.sections@[i as int]@);
                        assert(assoc_has(doc@, name@));
                        lemma_assoc_index(doc@, name@);
                        assert forall|j: int| 0 <= j < i implies doc@[j].0 != name@ by {
                            assert(doc@[j] == doc.sections@[j]@);
                        }
                        assert(assoc_index(doc@, name@) == i as int);
                    }
                    let fresh = IniSection { name: name.clone(), entries: Vec::new() };
                    proof {
                        assert(fresh@.1 =~= Seq::<(Seq<char>, Seq<char>)>::empty());
                    }
                    doc.sections[i] = fresh;
                    proof {
                        assert(doc@ =~= assoc_upsert(
                            old(doc)@,
                            name@,
                            Seq::<(Seq<char>, Seq<char>)>::empty(),
                        ));
                    }
                    return Some(name);
                }
                i = i + 1;
            }
            proof {
                assert forall|j: int| 0 <= j < doc@.len() implies doc@[j].0 != name@ by {
                    assert(doc@[j] == doc.sections@[j]@);
                }
                assert(!assoc_has(doc@, name@));
            }
            let fresh = IniSection { name: name.clone(), entries: Vec::new() };
            proof {
                assert(fresh@.1 =~= Seq::<(Seq<char>, Seq<char>)>::empty());
            }
            doc.sections.push(fresh);
            proof {
                assert(doc@ =~= assoc_upsert(
                    old(doc)@,
                    name@,
                    Seq::<(Seq<char>, Seq<char>)>::empty(),
                ));
            }
            return Some(name);
        }
    }
    None
}

/// Handles one candidate key/value line under the given current section, as
/// `kv_step` describes: the pair is stored only when a section is active, the
/// trimmed line holds exactly one `=`, and the active section exists in the
/// document; otherwise the document is unchanged.
pub fn handle_key_value_line(line: &str, current_section: &Option<String>, doc: &mut IniDocument)
    ensures
        final(doc)@ == kv_step(old(doc)@, opt_name_view(*current_section), line@),
{
    let name = match current_section {
        Option::None => {
            return ;
        },
        Option::Some(n) => n,
    };
    let t = trim_str(line);
    let eq_count = count_char_in(t, '=');
    if eq_count != 1 {
        return ;
    }
    proof {
        lemma_count_char_zero(t@, '=');
        let j = choose|j: int| 0 <= j < t@.len() && t@[j] == '=';
        assert(t@.contains('='));
    }
    let found = find_char(t, '=');
    if found.is_none() {
        proof {
            assert(false);
        }
        return ;
    }
    let i = found.unwrap();
    proof {
        lemma_first_index_of(t@, '=');
        assert(first_index_of(t@, '=') == i as int);
    }
    let tlen = t.unicode_len();
    let key_slice = trim_str(t.substring_char(0, i));
    let val_slice = trim_str(t.substring_char(i + 1, tlen));
    proof {
        assert(t@.subrange(0, i as int) =~= t@.take(i as int));
        assert(t@.subrange(i + 1, tlen as int) =~= t@.skip(i + 1));
    }
    let key = key_slice.to_owned();
    let value = val_slice.to_owned();
    let ghost kview = key@;
    let ghost vview = value@;
    proof {
        assert(kv_of_line(line@) == Some((kview, vview)));
    }
    let n = doc.sections.len();
    let mut si: usize = 0;
    while si < n
        invariant
            0 <= si <= n,
            n == doc.sections@.len(),
            *doc == *old(doc),
            kview == key@,
            vview == value@,
            kv_of_line(line@) == Some((kview, vview)),
            opt_name_view(*current_section) == Some(name@),
            forall|j: int| 0 <= j < si ==> doc.sections@[j].name@ != name@,
        decreases n - si,
    {
        if str_eq(doc.sections[si].name.as_str(), name.as_str()) {
            proof {
                assert(doc@[si as int] == doc.sections@[si as int]@);
                assert(assoc_has(doc@, name@));
                lemma_assoc_index(doc@, name@);
                assert forall|j: int| 0 <= j < si implies doc@[j].0 != name@ by {
                    assert(doc@[j] == doc.sections@[j]@);
                }
                assert(assoc_index(doc@, name@) == si as int);
            }
            let ghost old_doc_view = doc@;
            let ghost old_kv = doc@[si as int].1;
            let m = doc.sections[si].entries.len();
            let mut ei: usize = 0;
            while ei < m
                invariant
                    0 <= ei <= m,
                    si < doc.sections@.len(),
                    m == doc.sections@[si as int].entries@.len(),
                    *doc == *old(doc),
                    kview == key@,
                    vview == value@,
                    kv_of_line(line@) == Some((kview, vview)),
                    opt_name_view(*current_section) == Some(name@),
                    old_doc_view == doc@,
                    old_kv == doc@[si as int].1,
                    assoc_has(old_doc_view, name@),
                    assoc_index(old_doc_view, name@) == si as int,
                    doc@[si as int] == doc.sections@[si as int]@,
                    doc.sections@[si as int].name@ == name@,
                    forall|j: int|
                        0 <= j < ei ==> doc.sections@[si as int].entries@[j].key@ != kview,
                decreases m - ei,
            {
                if str_eq(doc.sections[si].entries[ei].key.as_str(), key.as_str()) {
                    proof {
                        assert(old_kv[ei as int] == doc.sections@[si as int].entries@[ei as int]@);
                        assert(assoc_has(old_kv, kview));
                        lemma_assoc_index(old_kv, kview);
                        assert forall|j: int| 0 <= j < ei implies old_kv[j].0 != kview by {
                            assert(old_kv[j] == doc.sections@[si as int].entries@[j]@);
                        }
                        assert(assoc_index(old_kv, kview) == ei as int);
                    }
                    doc.sections[si].entries[ei] = IniEntry { key, value };
                    proof {
                        assert(doc.sections@[si as int].entries@[ei as int]@ == (kview, vview));
                        assert(doc@[si as int] == doc.sections@[si as int]@);
                        assert(doc@[si as int].1 =~= assoc_upsert(old_kv, kview, vview));
                        assert(doc@ =~= old_doc_view.update(
                            si as int,
                            (name@, assoc_upsert(old_kv, kview, vview)),
                        ));
                        assert(doc@ == kv_step(old_doc_view, opt_name_view(*current_section), line@));
                    }
                    return ;
                }
                ei = ei + 1;
            }
            proof {
                assert forall|j: int| 0 <= j < old_kv.len() implies old_kv[j].0 != kview by {
                    assert(old_kv[j] == doc.sections@[si as int].entries@[j]@);
                }
                assert(!assoc_has(old_kv, kview));
            }
            doc.sections[si].entries.push(IniEntry { key, value });
            proof {
                assert(doc.sections@[si as int].entries@[m as int]@ == (kview, vview));
                assert(doc@[si as int] == doc.sections@[si as int]@);
                assert(doc@[si as int].1 =~= assoc_upsert(old_kv, kview, vview));
                assert(doc@ =~= old_doc_view.update(
                    si as int,
                    (name@, assoc_upsert(old_kv, kview, vview)),
                ));
                assert(doc@ == kv_step(old_doc_view, opt_name_view(*current_section), line@));
            }
            return ;
        }
        si = si + 1;
    }
    proof {
        assert forall|j: int| 0 <= j < doc@.len() implies doc@[j].0 != name@ by {
            assert(doc@[j] == doc.sections@[j]@);
        }
        assert(!assoc_has(doc@, name@));
    }
}

/// Parses a whole file's text into a document. Never fails: malformed lines
/// are skipped, and a rejected header leaves the current section as it was.
pub fn parse_file(contents: &str) -> (r: IniDocument)
    ensures
        r@ == parse_text_model(contents@),
{
    let lines = split_char(contents, '\n');
    let mut doc = IniDocument::new();
    let mut current: Option<String> = None;
    let n = lines.len();
    let mut idx: usize = 0;
    while idx < n
        invariant
            0 <= idx <= n,
            n == lines@.len(),
            views_of(lines@) == split_on(contents@, '\n'),
            doc@ == parse_prefix(views_of(lines@), idx as int).0,
            opt_name_view(current) == parse_prefix(views_of(lines@), idx as int).1,
        decreases n - idx,
    {
        let line: &String = &lines[idx];
        proof {
            assert(views_of(lines@)[idx as int] == lines@[idx as int]@);
        }
        let t = trim_str(line.as_str());
        let tlen = t.unicode_len();
        if tlen > 0 {
            let c0 = t.get_char(0);
            if c0 == '[' {
                match handle_section_line(line.as_str(), &mut doc) {
                    Some(name) => {
                        current = Some(name);
                    },
                    None => {},
                }
            } else if is_ascii_alpha(c0) {
                handle_key_value_line(line.as_str(), &current, &mut doc);
            }
        }
        idx = idx + 1;
    }
    doc
}

/// Law: a bracketed line whose trimmed interior is non-empty opens that
/// section as the current context; a bracketed line that is rejected (for
/// instance because its interior trims to nothing) opens no section and
/// loses no prior context — document and context stay exactly as they were.
pub proof fn lemma_section_header_context(
    d: DocModel,
    cur: Option<Seq<char>>,
    line: Seq<char>,
)
    ensures
        header_name(line) matches Some(name) ==> ini_step(d, cur, line) == (
            assoc_upsert(d, name, Seq::<(Seq<char>, Seq<char>)>::empty()),
            Some(name),
        ),
        trim(line).len() > 0 && trim(line)[0] == '[' && header_name(line) is None ==> ini_step(
            d,
            cur,
            line,
        ) == (d, cur),
{
    if header_name(line) is Some {
        assert(trim(line).len() >= 3);
    }
}

/// Law: writing the same key twice under an active section stored in the
/// document leaves the value of the second write.
pub proof fn lemma_last_write_wins(
    d: DocModel,
    name: Seq<char>,
    line1: Seq<char>,
    line2: Seq<char>,
    k: Seq<char>,
    v1: Seq<char>,
    v2: Seq<char>,
)
    requires
        assoc_has(d, name),
        kv_of_line(line1) == Some((k, v1)),
        kv_of_line(line2) == Some((k, v2)),
    ensures
        ({
            let d2 = kv_step(kv_step(d, Some(name), line1), Some(name), line2);
            &&& assoc_get(d2, name) matches Some(kv)
            &&& assoc_get(assoc_get(d2, name).unwrap(), k) == Some(v2)
        }),
{
    lemma_assoc_index(d, name);
    let i = assoc_index(d, name);
    let kv1 = assoc_upsert(d[i].1, k, v1);
    let d1 = d.update(i, (name, kv1));
    assert(kv_step(d, Some(name), line1) == d1);
    assert(d1[i].0 == name);
    assert(assoc_has(d1, name));
    lemma_assoc_index(d1, name);
    let i1 = assoc_index(d1, name);
    if i1 < i {
        assert(d1[i1] == d[i1]);
    }
    assert(i1 == i);
    let kv2 = assoc_upsert(kv1, k, v2);
    let d2 = d1.update(i, (name, kv2));
    assert(kv_step(d1, Some(name), line2) == d2);
    assert(d2[i].0 == name);
    assert(assoc_has(d2, name));
    lemma_assoc_index(d2, name);
    let i2 = assoc_index(d2, name);
    if i2 < i {
        assert(d2[i2] == d[i2]);
    }
    assert(i2 == i);
    assert(assoc_get(d2, name) == Some(kv2));
    crate::assoc::lemma_assoc_upsert_get(kv1, k, v2);
}

/// Law: a candidate key/value line holding no `=` at all, or two or more,
/// adds no entry — the document after the step is the document before, and
/// under the line dispatch the current context is untouched as well.
pub proof fn lemma_malformed_key_value_ignored(
    d: DocModel,
    cur: Option<Seq<char>>,
    line: Seq<char>,
)
    requires
        count_char(trim(line), '=') != 1,
    ensures
        kv_step(d, cur, line) == d,
        trim(line).len() > 0 && is_ascii_alpha_char(trim(line)[0]) ==> ini_step(d, cur, line) == (
            d,
            cur,
        ),
{
}

} // verus!
