//! The airport reference table: a read-only mapping from upper-cased ICAO
//! code to airport name and location, loaded once from a bundled
//! comma-separated dataset whose first line names the columns. A corrupt
//! dataset yields no table at all; it is never partially loaded.

use vstd::prelude::*;

use crate::assoc::{assoc_get, assoc_has, assoc_index, assoc_upsert, lemma_assoc_index};
use crate::coords::{micro_of_decimal, parse_coordinate, GeoPosition};
use crate::csv::{csv_fields, parse_csv_line};
use crate::text::{
    lemma_split_on_nonempty, split_char, split_on, str_eq, to_ascii_upper, to_upper_seq, views_of,
};

verus! {

/// One airport of the reference table.
pub struct Airport {
    pub icao: String,
    pub name: String,
    pub location: GeoPosition,
}

/// A table row as the contracts speak of it: the upper-cased code, then the
/// name and the location in millionths of a degree.
pub type AirportEntry = (Seq<char>, (Seq<char>, (int, int)));

impl View for Airport {
    type V = AirportEntry;

    open spec fn view(&self) -> Self::V {
        (
            self.icao@,
            (self.name@, (self.location.lat_micro as int, self.location.lon_micro as int)),
        )
    }
}

impl Airport {
    /// An identical copy.
    pub fn duplicate(&self) -> (r: Airport)
        ensures
            r == *self,
    {
        Airport {
            icao: self.icao.clone(),
            name: self.name.clone(),
            location: self.location,
        }
    }
}

/// The reference table, keyed by upper-cased ICAO code.
pub struct AirportTable {
    pub airports: Vec<Airport>,
}

impl View for AirportTable {
    type V = Seq<AirportEntry>;

    open spec fn view(&self) -> Self::V {
        self.airports@.map_values(|a: Airport| a@)
    }
}

/// `line` without one trailing carriage return.
pub open spec fn strip_cr(line: Seq<char>) -> Seq<char> {
    if line.len() > 0 && line[line.len() - 1] == '\r' {
        line.drop_last()
    } else {
        line
    }
}

/// The table entry of one data row, `None` when the row is corrupt: fewer
/// than four fields, or third or fourth field not a decimal coordinate.
pub open spec fn row_entry(fields: Seq<Seq<char>>) -> Option<AirportEntry> {
    if fields.len() < 4 {
        None
    } else {
        match (micro_of_decimal(fields[2]), micro_of_decimal(fields[3])) {
            (Some(la), Some(lo)) => Some((to_upper_seq(fields[0]), (fields[1], (la, lo)))),
            _ => None,
        }
    }
}

/// The table after the first `k` lines (line 0 is the header and carries no
/// data; blank lines are skipped), or `None` once any line is corrupt: not
/// parseable as CSV, of another width than the header, or rejected by
/// `row_entry`. A code seen twice keeps its later row.
pub open spec fn table_fold(lines: Seq<Seq<char>>, k: int, ncols: nat) -> Option<
    Seq<AirportEntry>,
>
    decreases k,
{
    if k <= 1 {
        Some(Seq::empty())
    } else {
        match table_fold(lines, k - 1, ncols) {
            Option::None => None,
            Option::Some(t) => {
                let line = strip_cr(lines[k - 1]);
                if line.len() == 0 {
                    Some(t)
                } else {
                    match csv_fields(line) {
                        Option::None => None,
                        Option::Some(fs) => {
                            if fs.len() != ncols {
                                None
                            } else {
                                match row_entry(fs) {
                                    Option::None => None,
                                    Option::Some(e) => Some(assoc_upsert(t, e.0, e.1)),
                                }
                            }
                        },
                    }
                }
            },
        }
    }
}

/// The table denoted by a whole dataset text, `None` when it is corrupt.
pub open spec fn table_of_text(text: Seq<char>) -> Option<Seq<AirportEntry>> {
    let lines = split_on(text, '\n');
    match csv_fields(strip_cr(lines[0])) {
        Option::None => None,
        Option::Some(hs) => table_fold(lines, lines.len() as int, hs.len()),
    }
}

proof fn lemma_table_fold_sticky(lines: Seq<Seq<char>>, k: int, m: int, ncols: nat)
    requires
        table_fold(lines, k, ncols) is None,
        k <= m,
    ensures
        table_fold(lines, m, ncols) is None,
    decreases m - k,
{
    if k < m {
        lemma_table_fold_sticky(lines, k, m - 1, ncols);
    }
}

fn strip_cr_exec<'a>(line: &'a str) -> (r: &'a str)
    ensures
        r@ == strip_cr(line@),
{
    let len = line.unicode_len();
    if len > 0 && line.get_char(len - 1) == '\r' {
        let r = line.substring_char(0, len - 1);
        proof {
            assert(line@.subrange(0, len - 1) =~= line@.drop_last());
        }
        r
    } else {
        line
    }
}

/// Loads the airport table from its dataset text. The first line names the
/// columns; every further non-blank line holds `code,name,lat,lon` (further
/// columns are allowed and ignored). Returns `None` when the dataset is
/// corrupt in any row; codes are upper-cased on insertion and a code seen
/// twice keeps its later row.
pub fn load_airport_table(text: &str) -> (r: Option<AirportTable>)
    ensures
        match r {
            Some(t) => table_of_text(text@) == Some(t@),
            None => table_of_text(text@) is None,
        },
{
    let lines = split_char(text, '\n');
    proof {
        lemma_split_on_nonempty(text@, '\n');
        assert(views_of(lines@)[0] == lines@[0]@);
    }
    let header = strip_cr_exec(lines[0].as_str());
    let hf = match parse_csv_line(header) {
        Option::None => {
            return None;
        },
        Option::Some(f) => f,
    };
    let ncols = hf.len();
    let ghost hview = views_of(hf@);
    let mut table: Vec<Airport> = Vec::new();
    let mut k: usize = 1;
    proof {
        assert(table@.map_values(|a: Airport| a@) =~= Seq::<AirportEntry>::empty());
    }
    while k < lines.len()
        invariant
            1 <= k <= lines@.len(),
            views_of(lines@) == split_on(text@, '\n'),
            csv_fields(strip_cr(views_of(lines@)[0])) == Some(hview),
            hview.len() == ncols,
            table_fold(views_of(lines@), k as int, ncols as nat) == Some(
                table@.map_values(|a: Airport| a@),
            ),
        decreases lines@.len() - k,
    {
        let ghost pre_fold = table@.map_values(|a: Airport| a@);
        proof {
            assert(views_of(lines@)[k as int] == lines@[k as int]@);
        }
        let line = strip_cr_exec(lines[k].as_str());
        if line.unicode_len() > 0 {
            let fs = match parse_csv_line(line) {
                Option::None => {
                    proof {
                        lemma_table_fold_sticky(
                            views_of(lines@),
                            k + 1,
                            views_of(lines@).len() as int,
                            ncols as nat,
                        );
                    }
                    return None;
                },
                Option::Some(f) => f,
            };
            if fs.len() != ncols || fs.len() < 4 {
                proof {
                    lemma_table_fold_sticky(
                        views_of(lines@),
                        k + 1,
                        views_of(lines@).len() as int,
                        ncols as nat,
                    );
                }
                return None;
            }
            proof {
                assert(views_of(fs@)[0] == fs@[0]@);
                assert(views_of(fs@)[1] == fs@[1]@);
                assert(views_of(fs@)[2] == fs@[2]@);
                assert(views_of(fs@)[3] == fs@[3]@);
            }
            let la = match parse_coordinate(fs[2].as_str()) {
                Option::None => {
                    proof {
                        lemma_table_fold_sticky(
                            views_of(lines@),
                            k + 1,
                            views_of(lines@).len() as int,
                            ncols as nat,
                        );
                    }
                    return None;
                },
                Option::Some(v) => v,
            };
            let lo = match parse_coordinate(fs[3].as_str()) {
                Option::None => {
                    proof {
                        lemma_table_fold_sticky(
                            views_of(lines@),
                            k + 1,
                            views_of(lines@).len() as int,
                            ncols as nat,
                        );
                    }
                    return None;
                },
                Option::Some(v) => v,
            };
            let icao = to_ascii_upper(fs[0].as_str());
            let name = fs[1].clone();
            let airport = Airport {
                icao,
                name,
                location: GeoPosition { lat_micro: la, lon_micro: lo },
            };
            let ghost entry = airport@;
            proof {
                assert(row_entry(views_of(fs@)) == Some(entry));
            }
            let n = table.len();
            let mut i: usize = 0;
            let mut replaced = false;
            while i < n && !replaced
                invariant
                    0 <= i <= n,
                    n == table@.len(),
                    entry == airport@,
                    !replaced ==> table@.map_values(|a: Airport| a@) == pre_fold,
                    !replaced ==> forall|j: int| 0 <= j < i ==> table@[j].icao@ != entry.0,
                    replaced ==> table@.map_values(|a: Airport| a@) == assoc_upsert(
                        pre_fold,
                        entry.0,
                        entry.1,
                    ),
                decreases n - i, (if replaced {
                    0int
                } else {
                    1int
                }),
            {
                if str_eq(table[i].icao.as_str(), airport.icao.as_str()) {
                    let ghost tv = table@.map_values(|a: Airport| a@);
                    proof {
                        assert(tv[i as int] == table@[i as int]@);
                        assert(assoc_has(tv, entry.0));
                        lemma_assoc_index(tv, entry.0);
                        assert forall|j: int| 0 <= j < i implies tv[j].0 != entry.0 by {
                            assert(tv[j] == table@[j]@);
                        }
                        assert(assoc_index(tv, entry.0) == i as int);
                    }
                    table[i] = airport.duplicate();
                    proof {
                        assert(table@.map_values(|a: Airport| a@) =~= assoc_upsert(
                            pre_fold,
                            entry.0,
                            entry.1,
                        ));
                    }
                    replaced = true;
                } else {
                    i = i + 1;
                }
            }
            if !replaced {
                proof {
                    let tv = table@.map_values(|a: Airport| a@);
                    assert forall|j: int| 0 <= j < tv.len() implies tv[j].0 != entry.0 by {
                        assert(tv[j] == table@[j]@);
                    }
                    assert(!assoc_has(tv, entry.0));
                }
                table.push(airport);
                proof {
                    assert(table@.map_values(|a: Airport| a@) =~= assoc_upsert(
                        pre_fold,
                        entry.0,
                        entry.1,
                    ));
                }
            }
        }
        k = k + 1;
    }
    proof {
        assert(views_of(lines@).len() == lines@.len());
    }
    Some(AirportTable { airports: table })
}

impl AirportTable {
    /// How many airports the table holds.
    pub fn len(&self) -> (r: usize)
        ensures
            r == self@.len(),
    {
        self.airports.len()
    }

    /// The airport stored under the upper-cased form of `icao`, if any.
    pub fn lookup(&self, icao: &str) -> (r: Option<&Airport>)
        ensures
            match r {
                Some(a) => a@.0 == to_upper_seq(icao@) && assoc_get(self@, to_upper_seq(icao@))
                    == Some(a@.1),
                None => assoc_get(self@, to_upper_seq(icao@)) is None,
            },
    {
        let key = to_ascii_upper(icao);
        let n = self.airports.len();
        let mut i: usize = 0;
        while i < n
            invariant
                0 <= i <= n,
                n == self.airports@.len(),
                key@ == to_upper_seq(icao@),
                forall|j: int| 0 <= j < i ==> self.airports@[j].icao@ != key@,
            decreases n - i,
        {
            if str_eq(self.airports[i].icao.as_str(), key.as_str()) {
                proof {
                    assert(self@[i as int] == self.airports@[i as int]@);
                    assert(assoc_has(self@, key@));
                    lemma_assoc_index(self@, key@);
                    assert forall|j: int| 0 <= j < i implies self@[j].0 != key@ by {
                        assert(self@[j] == self.airports@[j]@);
                    }
                    assert(assoc_index(self@, key@) == i as int);
                }
                return Some(&self.airports[i]);
            }
            i = i + 1;
        }
        proof {
            if assoc_has(self@, key@) {
                lemma_assoc_index(self@, key@);
                let ix = assoc_index(self@, key@);
                assert(self@[ix] == self.airports@[ix]@);
            }
        }
        None
    }
}

} // verus!
