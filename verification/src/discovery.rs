//! Profile discovery: filtering a directory listing by the profile file-name
//! pattern, resolving the embedded four-letter code against the airport
//! table, locating the optional companion script, and flagging duplicate
//! airports. The catalog is rebuilt wholesale on every scan; record identity
//! is by identifier, which is regenerated per scan.

use vstd::prelude::*;

use crate::airports::{Airport, AirportEntry, AirportTable};
use crate::assoc::{assoc_get, assoc_has};
use crate::body::ProfileBody;
use crate::ids::fresh_id;
use crate::text::{str_eq, to_ascii_upper, to_upper_seq};

verus! {

/// One directory entry handed to the scanner: the plain file name, the full
/// path, and the modification time in seconds since the epoch.
pub struct FileEntry {
    pub file_name: String,
    pub file_path: String,
    pub last_modified: i64,
}

impl View for FileEntry {
    type V = (Seq<char>, Seq<char>, int);

    open spec fn view(&self) -> Self::V {
        (self.file_name@, self.file_path@, self.last_modified as int)
    }
}

pub open spec fn entry_views(s: Seq<FileEntry>) -> Seq<(Seq<char>, Seq<char>, int)> {
    s.map_values(|e: FileEntry| e@)
}

/// One discovered profile: its file, its airport, its optional companion
/// script, and the duplicate-conflict flag. The body stays empty until it is
/// extracted on demand and cached here.
pub struct ProfileRecord {
    pub id: u128,
    pub file_name: String,
    pub file_path: String,
    pub airport: Airport,
    pub companion_script: Option<String>,
    pub last_modified: i64,
    pub has_duplicate_conflict: bool,
    pub body: Option<ProfileBody>,
}

/// A word character of the file-name pattern: ASCII letter, digit or `_`.
pub open spec fn is_word_char(c: char) -> bool {
    (48 <= c as u32 && c as u32 <= 57) || (65 <= c as u32 && c as u32 <= 90) || (97 <= c as u32
        && c as u32 <= 122) || c == '_'
}

/// Four word characters followed by a dash.
pub open spec fn has_word_prefix(s: Seq<char>) -> bool {
    s.len() >= 5 && is_word_char(s[0]) && is_word_char(s[1]) && is_word_char(s[2]) && is_word_char(
        s[3],
    ) && s[4] == '-'
}

pub open spec fn ends_with_ini(s: Seq<char>) -> bool {
    s.len() >= 4 && s[s.len() - 4] == '.' && s[s.len() - 3] == 'i' && s[s.len() - 2] == 'n' && s[s.len()
        - 1] == 'i'
}

pub open spec fn ends_with_py(s: Seq<char>) -> bool {
    s.len() >= 3 && s[s.len() - 3] == '.' && s[s.len() - 2] == 'p' && s[s.len() - 1] == 'y'
}

/// A primary profile candidate: four word characters, a dash, anything,
/// and the `.ini` suffix.
pub open spec fn is_profile_name(s: Seq<char>) -> bool {
    has_word_prefix(s) && s.len() >= 9 && ends_with_ini(s)
}

/// Any ground-handling artifact: the same prefix with `.ini` or `.py`.
pub open spec fn is_artifact_name(s: Seq<char>) -> bool {
    has_word_prefix(s) && (s.len() >= 9 && ends_with_ini(s) || s.len() >= 8 && ends_with_py(s))
}

/// The upper-cased four-letter code of a qualifying file name.
pub open spec fn icao_of(s: Seq<char>) -> Seq<char> {
    to_upper_seq(s.take(4))
}

/// The expected companion script name: the `.ini` name with its suffix
/// replaced by `.py`.
pub open spec fn companion_name(s: Seq<char>) -> Seq<char> {
    s.take(s.len() - 4) + ".py"@
}

fn word_char(c: char) -> (r: bool)
    ensures
        r == is_word_char(c),
{
    let u = c as u32;
    (48 <= u && u <= 57) || (65 <= u && u <= 90) || (97 <= u && u <= 122) || c == '_'
}

fn check_word_prefix(name: &str) -> (r: bool)
    ensures
        r == has_word_prefix(name@),
{
    let len = name.unicode_len();
    len >= 5 && word_char(name.get_char(0)) && word_char(name.get_char(1)) && word_char(
        name.get_char(2),
    ) && word_char(name.get_char(3)) && name.get_char(4) == '-'
}

/// Whether `name` is a primary profile candidate (`XXXX-....ini`).
pub fn is_profile_file_name(name: &str) -> (r: bool)
    ensures
        r == is_profile_name(name@),
{
    let len = name.unicode_len();
    check_word_prefix(name) && len >= 9 && name.get_char(len - 4) == '.' && name.get_char(len - 3)
        == 'i' && name.get_char(len - 2) == 'n' && name.get_char(len - 1) == 'i'
}

/// Whether `name` is any ground-handling artifact (`XXXX-....ini` or
/// `XXXX-....py`); anything else is skipped by the scan.
pub fn is_gsx_artifact_name(name: &str) -> (r: bool)
    ensures
        r == is_artifact_name(name@),
{
    let len = name.unicode_len();
    check_word_prefix(name) && (len >= 9 && name.get_char(len - 4) == '.' && name.get_char(len - 3)
        == 'i' && name.get_char(len - 2) == 'n' && name.get_char(len - 1) == 'i' || len >= 8
        && name.get_char(len - 3) == '.' && name.get_char(len - 2) == 'p' && name.get_char(len - 1)
        == 'y')
}

/// A directory entry that yields a record: its name matches the profile
/// pattern and its code is in the airport table.
pub open spec fn entry_qualifies(e: (Seq<char>, Seq<char>, int), table: Seq<AirportEntry>) -> bool {
    is_profile_name(e.0) && assoc_has(table, icao_of(e.0))
}

/// The entry indices that yield records among the first `k` entries.
pub open spec fn scan_sources(
    entries: Seq<(Seq<char>, Seq<char>, int)>,
    table: Seq<AirportEntry>,
    k: int,
) -> Seq<int>
    decreases k,
{
    if k <= 0 {
        Seq::empty()
    } else {
        let rest = scan_sources(entries, table, k - 1);
        if entry_qualifies(entries[k - 1], table) {
            rest.push(k - 1)
        } else {
            rest
        }
    }
}

/// Whether the listing holds the companion script of the named profile file.
pub open spec fn companion_in(
    entries: Seq<(Seq<char>, Seq<char>, int)>,
    ini_name: Seq<char>,
) -> bool {
    exists|j: int| 0 <= j < entries.len() && entries[j].0 == companion_name(ini_name)
}

/// Whether another qualifying entry of the same listing resolves to the same
/// airport code as entry `i`.
pub open spec fn dup_in_entries(
    entries: Seq<(Seq<char>, Seq<char>, int)>,
    table: Seq<AirportEntry>,
    i: int,
) -> bool {
    exists|j: int|
        0 <= j < entries.len() && j != i && entry_qualifies(entries[j], table) && icao_of(
            entries[j].0,
        ) == icao_of(entries[i].0)
}

/// What one record of the scan promises, relative to its source entry.
pub open spec fn record_matches(
    r: ProfileRecord,
    entries: Seq<(Seq<char>, Seq<char>, int)>,
    table: Seq<AirportEntry>,
    src: int,
) -> bool {
    let e = entries[src];
    &&& r.file_name@ == e.0
    &&& r.file_path@ == e.1
    &&& r.last_modified as int == e.2
    &&& r.airport@.0 == icao_of(e.0)
    &&& Some(r.airport@.1) == assoc_get(table, icao_of(e.0))
    &&& (match r.companion_script {
        Option::Some(c) => companion_in(entries, e.0) && c@ == companion_name(e.0),
        Option::None => !companion_in(entries, e.0),
    })
    &&& r.has_duplicate_conflict == dup_in_entries(entries, table, src)
    &&& r.body is None
}

/// What one whole scan promises: one record per qualifying entry, in listing
/// order, each as `record_matches` spells out.
pub open spec fn scan_matches(
    entries: Seq<(Seq<char>, Seq<char>, int)>,
    table: Seq<AirportEntry>,
    recs: Seq<ProfileRecord>,
) -> bool {
    let srcs = scan_sources(entries, table, entries.len() as int);
    &&& recs.len() == srcs.len()
    &&& forall|i: int| 0 <= i < recs.len() ==> record_matches(recs[i], entries, table, srcs[i])
}

/// Law: an entry that does not qualify — its name fails the profile pattern,
/// or its code is not in the airport table — yields no record: no scan
/// source points at it.
pub proof fn lemma_unqualified_entry_skipped(
    entries: Seq<(Seq<char>, Seq<char>, int)>,
    table: Seq<AirportEntry>,
    k: int,
    i: int,
)
    requires
        !entry_qualifies(entries[i], table),
    ensures
        forall|a: int|
            0 <= a < scan_sources(entries, table, k).len() ==> scan_sources(entries, table, k)[a]
                != i,
    decreases k,
{
    if k > 0 {
        lemma_unqualified_entry_skipped(entries, table, k - 1, i);
        let rest = scan_sources(entries, table, k - 1);
        if entry_qualifies(entries[k - 1], table) {
            assert(forall|a: int|
                0 <= a < rest.len() ==> scan_sources(entries, table, k)[a] == rest[a]);
        }
    }
}

/// Law: the duplicate flag is symmetric: for any two distinct qualifying
/// entries of one listing that resolve to the same airport code, both carry
/// the duplicate conflict, not just the later one.
pub proof fn lemma_duplicate_flag_symmetric(
    entries: Seq<(Seq<char>, Seq<char>, int)>,
    table: Seq<AirportEntry>,
    i: int,
    j: int,
)
    requires
        0 <= i < entries.len(),
        0 <= j < entries.len(),
        i != j,
        entry_qualifies(entries[i], table),
        entry_qualifies(entries[j], table),
        icao_of(entries[i].0) == icao_of(entries[j].0),
    ensures
        dup_in_entries(entries, table, i),
        dup_in_entries(entries, table, j),
{
    assert(dup_in_entries(entries, table, i)) by {
        assert(0 <= j < entries.len() && j != i && entry_qualifies(entries[j], table) && icao_of(
            entries[j].0,
        ) == icao_of(entries[i].0));
    }
    assert(dup_in_entries(entries, table, j)) by {
        assert(0 <= i < entries.len() && i != j && entry_qualifies(entries[i], table) && icao_of(
            entries[i].0,
        ) == icao_of(entries[j].0));
    }
}

proof fn lemma_scan_sources_props(
    entries: Seq<(Seq<char>, Seq<char>, int)>,
    table: Seq<AirportEntry>,
    k: int,
)
    ensures
        forall|a: int|
            0 <= a < scan_sources(entries, table, k).len() ==> 0 <= scan_sources(
                entries,
                table,
                k,
            )[a] < k && entry_qualifies(entries[scan_sources(entries, table, k)[a]], table),
        forall|a: int, b: int|
            0 <= a < b < scan_sources(entries, table, k).len() ==> scan_sources(
                entries,
                table,
                k,
            )[a] < scan_sources(entries, table, k)[b],
    decreases k,
{
    if k > 0 {
        lemma_scan_sources_props(entries, table, k - 1);
        let rest = scan_sources(entries, table, k - 1);
        if entry_qualifies(entries[k - 1], table) {
            assert(forall|a: int|
                0 <= a < rest.len() ==> scan_sources(entries, table, k)[a] == rest[a]);
            assert(scan_sources(entries, table, k)[rest.len() as int] == k - 1);
        }
    }
}

/// Law: two distinct records of one scan whose airports carry the same code
/// both end flagged as duplicate conflicts — the flag is set on all records
/// that share an airport, not just on the later one found.
pub proof fn lemma_scan_duplicates_flagged(
    entries: Seq<(Seq<char>, Seq<char>, int)>,
    table: Seq<AirportEntry>,
    recs: Seq<ProfileRecord>,
    a: int,
    b: int,
)
    requires
        scan_matches(entries, table, recs),
        0 <= a < recs.len(),
        0 <= b < recs.len(),
        a != b,
        recs[a].airport@.0 == recs[b].airport@.0,
    ensures
        recs[a].has_duplicate_conflict,
        recs[b].has_duplicate_conflict,
{
    let srcs = scan_sources(entries, table, entries.len() as int);
    lemma_scan_sources_props(entries, table, entries.len() as int);
    assert(record_matches(recs[a], entries, table, srcs[a]));
    assert(record_matches(recs[b], entries, table, srcs[b]));
    if a < b {
        assert(srcs[a] < srcs[b]);
    } else {
        assert(srcs[b] < srcs[a]);
    }
    lemma_duplicate_flag_symmetric(entries, table, srcs[a], srcs[b]);
}

/// Law: scanning an unchanged listing against the same table twice yields
/// catalogs that agree position by position on file name, airport code and
/// duplicate flag; only the record identifiers may differ.
pub proof fn lemma_rescan_stable(
    entries: Seq<(Seq<char>, Seq<char>, int)>,
    table: Seq<AirportEntry>,
    r1: Seq<ProfileRecord>,
    r2: Seq<ProfileRecord>,
)
    requires
        scan_matches(entries, table, r1),
        scan_matches(entries, table, r2),
    ensures
        r1.len() == r2.len(),
        forall|i: int|
            0 <= i < r1.len() ==> r1[i].file_name@ == r2[i].file_name@ && r1[i].airport@.0
                == r2[i].airport@.0 && r1[i].has_duplicate_conflict
                == r2[i].has_duplicate_conflict,
{
    let srcs = scan_sources(entries, table, entries.len() as int);
    assert forall|i: int|
        0 <= i < r1.len() implies r1[i].file_name@ == r2[i].file_name@ && r1[i].airport@.0
        == r2[i].airport@.0 && r1[i].has_duplicate_conflict == r2[i].has_duplicate_conflict by {
        assert(record_matches(r1[i], entries, table, srcs[i]));
        assert(record_matches(r2[i], entries, table, srcs[i]));
    }
}

/// Scans one directory listing against the airport table and builds the
/// catalog: one record per entry whose name matches the profile pattern and
/// whose upper-cased four-letter prefix is a known airport; each record
/// carries its companion script if the listing holds the exact `.py` name,
/// and the duplicate flag exactly when another qualifying entry resolves to
/// the same code. Output order follows the listing.
pub fn scan_profiles(entries: &Vec<FileEntry>, table: &AirportTable) -> (r: Vec<ProfileRecord>)
    ensures
        scan_matches(entry_views(entries@), table@, r@),
{
    let ghost ev = entry_views(entries@);
    let mut records: Vec<ProfileRecord> = Vec::new();
    let n = entries.len();
    let mut i: usize = 0;
    proof {
        assert(scan_sources(ev, table@, 0).len() == 0);
    }
    while i < n
        invariant
            0 <= i <= n,
            n == entries@.len(),
            ev == entry_views(entries@),
            records@.len() == scan_sources(ev, table@, i as int).len(),
            forall|a: int|
                0 <= a < records@.len() ==> record_matches(
                    records@[a],
                    ev,
                    table@,
                    scan_sources(ev, table@, i as int)[a],
                ),
        decreases n - i,
    {
        proof {
            assert(ev[i as int] == entries@[i as int]@);
        }
        let qualifies_name = is_profile_file_name(entries[i].file_name.as_str());
        if qualifies_name {
            let prefix = entries[i].file_name.as_str().substring_char(0, 4);
            proof {
                assert(entries@[i as int].file_name@.take(4) =~= entries@[i as int].file_name@.subrange(
                    0,
                    4,
                ));
            }
            match table.lookup(prefix) {
                Option::None => {
                    proof {
                        assert(!entry_qualifies(ev[i as int], table@));
                        assert(scan_sources(ev, table@, i + 1) == scan_sources(
                            ev,
                            table@,
                            i as int,
                        ));
                    }
                },
                Option::Some(found) => {
                    let airport = found.duplicate();
                    let name_len = entries[i].file_name.as_str().unicode_len();
                    let stem = entries[i].file_name.as_str().substring_char(0, name_len - 4);
                    let mut comp = stem.to_owned();
                    comp.append(".py");
                    proof {
                        assert(entries@[i as int].file_name@.take(name_len - 4)
                            =~= entries@[i as int].file_name@.subrange(0, name_len - 4));
                        assert(comp@ == companion_name(ev[i as int].0));
                    }
                    let mut found_comp = false;
                    let mut j: usize = 0;
                    while j < n
                        invariant
                            0 <= j <= n,
                            n == entries@.len(),
                            ev == entry_views(entries@),
                            comp@ == companion_name(ev[i as int].0),
                            i < n,
                            found_comp == (exists|b: int|
                                0 <= b < j && entries@[b].file_name@ == comp@),
                        decreases n - j,
                    {
                        if str_eq(entries[j].file_name.as_str(), comp.as_str()) {
                            found_comp = true;
                        }
                        j = j + 1;
                    }
                    proof {
                        if found_comp {
                            let b = choose|b: int|
                                0 <= b < n && entries@[b].file_name@ == comp@;
                            assert(ev[b].0 == comp@);
                            assert(companion_in(ev, ev[i as int].0));
                        } else {
                            if companion_in(ev, ev[i as int].0) {
                                let b = choose|b: int|
                                    0 <= b < ev.len() && ev[b].0 == companion_name(
                                        ev[i as int].0,
                                    );
                                assert(entries@[b].file_name@ == comp@);
                            }
                        }
                    }
                    let companion_script = if found_comp {
                        Some(comp)
                    } else {
                        None
                    };
                    let key = to_ascii_upper(prefix);
                    proof {
                        assert(key@ == icao_of(ev[i as int].0));
                    }
                    let mut dup = false;
                    let mut j2: usize = 0;
                    while j2 < n
                        invariant
                            0 <= j2 <= n,
                            n == entries@.len(),
                            ev == entry_views(entries@),
                            i < n,
                            key@ == icao_of(ev[i as int].0),
                            assoc_has(table@, icao_of(ev[i as int].0)),
                            dup == (exists|b: int|
                                0 <= b < j2 && b != i && is_profile_name(ev[b].0) && icao_of(
                                    ev[b].0,
                                ) == icao_of(ev[i as int].0)),
                        decreases n - j2,
                    {
                        proof {
                            assert(ev[j2 as int] == entries@[j2 as int]@);
                        }
                        if j2 != i && is_profile_file_name(entries[j2].file_name.as_str()) {
                            let p2 = entries[j2].file_name.as_str().substring_char(0, 4);
                            let u2 = to_ascii_upper(p2);
                            proof {
                                assert(entries@[j2 as int].file_name@.take(4)
                                    =~= entries@[j2 as int].file_name@.subrange(0, 4));
                                assert(u2@ == icao_of(ev[j2 as int].0));
                            }
                            if str_eq(u2.as_str(), key.as_str()) {
                                dup = true;
                            }
                        }
                        j2 = j2 + 1;
                    }
                    proof {
                        if dup {
                            let b = choose|b: int|
                                0 <= b < n && b != i && is_profile_name(ev[b].0) && icao_of(
                                    ev[b].0,
                                ) == icao_of(ev[i as int].0);
                            assert(entry_qualifies(ev[b], table@));
                            assert(dup_in_entries(ev, table@, i as int));
                        } else {
                            if dup_in_entries(ev, table@, i as int) {
                                let b = choose|b: int|
                                    0 <= b < ev.len() && b != i && entry_qualifies(
                                        ev[b],
                                        table@,
                                    ) && icao_of(ev[b].0) == icao_of(ev[i as int].0);
                                assert(0 <= b < n && b != i && is_profile_name(ev[b].0)
                                    && icao_of(ev[b].0) == icao_of(ev[i as int].0));
                            }
                        }
                    }
                    let record = ProfileRecord {
                        id: fresh_id(),
                        file_name: entries[i].file_name.clone(),
                        file_path: entries[i].file_path.clone(),
                        airport,
                        companion_script,
                        last_modified: entries[i].last_modified,
                        has_duplicate_conflict: dup,
                        body: None,
                    };
                    proof {
                        assert(record_matches(record, ev, table@, i as int));
                        assert(entry_qualifies(ev[i as int], table@));
                        assert(scan_sources(ev, table@, i + 1) == scan_sources(
                            ev,
                            table@,
                            i as int,
                        ).push(i as int));
                    }
                    records.push(record);
                },
            }
        } else {
            proof {
                assert(!entry_qualifies(ev[i as int], table@));
                assert(scan_sources(ev, table@, i + 1) == scan_sources(ev, table@, i as int));
            }
        }
        i = i + 1;
    }
    records
}

/// Whether the catalog holds a record with this identifier.
pub open spec fn has_id(s: Seq<ProfileRecord>, id: u128) -> bool {
    exists|i: int| 0 <= i < s.len() && s[i].id == id
}

/// Index of the first record with this identifier (meaningful when present).
pub open spec fn id_index(s: Seq<ProfileRecord>, id: u128) -> int
    decreases s.len(),
{
    if s.len() == 0 {
        0
    } else if s[0].id == id {
        0
    } else {
        1 + id_index(s.skip(1), id)
    }
}

proof fn lemma_id_index(s: Seq<ProfileRecord>, id: u128)
    requires
        has_id(s, id),
    ensures
        0 <= id_index(s, id) < s.len(),
        s[id_index(s, id)].id == id,
        forall|j: int| 0 <= j < id_index(s, id) ==> s[j].id != id,
    decreases s.len(),
{
    if s[0].id == id {
    } else {
        let i = choose|i: int| 0 <= i < s.len() && s[i].id == id;
        assert(s.skip(1)[i - 1].id == id);
        lemma_id_index(s.skip(1), id);
        assert(forall|j: int| 1 <= j < id_index(s, id) ==> s[j] == s.skip(1)[j - 1]);
    }
}

/// The first record with this identifier, if any. Selection survives a
/// re-scan only through the identifier, never through the position.
pub fn find_record(catalog: &Vec<ProfileRecord>, id: u128) -> (r: Option<&ProfileRecord>)
    ensures
        match r {
            Some(rec) => has_id(catalog@, id) && *rec == catalog@[id_index(catalog@, id)],
            None => !has_id(catalog@, id),
        },
{
    let n = catalog.len();
    let mut i: usize = 0;
    while i < n
        invariant
            0 <= i <= n,
            n == catalog@.len(),
            forall|j: int| 0 <= j < i ==> catalog@[j].id != id,
        decreases n - i,
    {
        if catalog[i].id == id {
            proof {
                assert(has_id(catalog@, id));
                lemma_id_index(catalog@, id);
                assert(id_index(catalog@, id) == i as int);
            }
            return Some(&catalog[i]);
        }
        i = i + 1;
    }
    None
}

/// Removes the first record with this identifier; reports whether one was
/// there. All other records keep their order.
pub fn remove_record(catalog: &mut Vec<ProfileRecord>, id: u128) -> (r: bool)
    ensures
        r == has_id(old(catalog)@, id),
        r ==> final(catalog)@ == old(catalog)@.remove(id_index(old(catalog)@, id)),
        !r ==> final(catalog)@ == old(catalog)@,
{
    let n = catalog.len();
    let mut i: usize = 0;
    while i < n
        invariant
            0 <= i <= n,
            n == catalog@.len(),
            *catalog == *old(catalog),
            forall|j: int| 0 <= j < i ==> catalog@[j].id != id,
        decreases n - i,
    {
        if catalog[i].id == id {
            proof {
                assert(has_id(catalog@, id));
                lemma_id_index(catalog@, id);
                assert(id_index(catalog@, id) == i as int);
            }
            catalog.remove(i);
            return true;
        }
        i = i + 1;
    }
    false
}

/// Stores an extracted body on the first record with this identifier;
/// reports whether one was there. Every other field and every other record
/// is untouched.
pub fn store_body(catalog: &mut Vec<ProfileRecord>, id: u128, body: ProfileBody) -> (r: bool)
    ensures
        r == has_id(old(catalog)@, id),
        !r ==> final(catalog)@ == old(catalog)@,
        r ==> {
            let ix = id_index(old(catalog)@, id);
            &&& final(catalog)@.len() == old(catalog)@.len()
            &&& forall|j: int|
                0 <= j < old(catalog)@.len() && j != ix ==> final(catalog)@[j] == old(catalog)@[j]
            &&& final(catalog)@[ix].id == old(catalog)@[ix].id
            &&& final(catalog)@[ix].file_name == old(catalog)@[ix].file_name
            &&& final(catalog)@[ix].file_path == old(catalog)@[ix].file_path
            &&& final(catalog)@[ix].airport == old(catalog)@[ix].airport
            &&& final(catalog)@[ix].companion_script == old(catalog)@[ix].companion_script
            &&& final(catalog)@[ix].last_modified == old(catalog)@[ix].last_modified
            &&& final(catalog)@[ix].has_duplicate_conflict == old(
                catalog,
            )@[ix].has_duplicate_conflict
            &&& final(catalog)@[ix].body == Some(body)
        },
{
    let n = catalog.len();
    let mut i: usize = 0;
    while i < n
        invariant
            0 <= i <= n,
            n == catalog@.len(),
            *catalog == *old(catalog),
            forall|j: int| 0 <= j < i ==> catalog@[j].id != id,
        decreases n - i,
    {
        if catalog[i].id == id {
            proof {
                assert(has_id(catalog@, id));
                lemma_id_index(catalog@, id);
                assert(id_index(catalog@, id) == i as int);
            }
            catalog[i].body = Some(body);
            return true;
        }
        i = i + 1;
    }
    false
}

} // verus!
