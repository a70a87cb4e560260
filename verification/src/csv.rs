//! Comma-separated fields with double-quote quoting: a field is either raw
//! text up to the next comma, or `"..."` where a doubled quote stands for one
//! literal quote. A line is rejected when a quoted field is left unterminated
//! or when anything but a comma follows a closing quote.

use vstd::prelude::*;

use crate::text::views_of;

verus! {

/// Position of the scanner inside one line.
#[derive(Clone, Copy, PartialEq, Eq, Structural, Debug)]
pub enum CsvMode {
    /// At the start of a field.
    FieldStart,
    /// Inside an unquoted field.
    Unquoted,
    /// Inside a quoted field.
    Quoted,
    /// Just after a quote character inside a quoted field.
    QuoteSeen,
    /// The line is malformed; this mode is never left.
    Rejected,
}

/// One scanner step: the mode, the finished fields and the current field
/// after reading `c`.
pub open spec fn csv_step(st: (CsvMode, Seq<Seq<char>>, Seq<char>), c: char) -> (
    CsvMode,
    Seq<Seq<char>>,
    Seq<char>,
) {
    match st.0 {
        CsvMode::FieldStart => {
            if c == '"' {
                (CsvMode::Quoted, st.1, st.2)
            } else if c == ',' {
                (CsvMode::FieldStart, st.1.push(st.2), Seq::empty())
            } else {
                (CsvMode::Unquoted, st.1, st.2.push(c))
            }
        },
        CsvMode::Unquoted => {
            if c == ',' {
                (CsvMode::FieldStart, st.1.push(st.2), Seq::empty())
            } else {
                (CsvMode::Unquoted, st.1, st.2.push(c))
            }
        },
        CsvMode::Quoted => {
            if c == '"' {
                (CsvMode::QuoteSeen, st.1, st.2)
            } else {
                (CsvMode::Quoted, st.1, st.2.push(c))
            }
        },
        CsvMode::QuoteSeen => {
            if c == '"' {
                (CsvMode::Quoted, st.1, st.2.push('"'))
            } else if c == ',' {
                (CsvMode::FieldStart, st.1.push(st.2), Seq::empty())
            } else {
                (CsvMode::Rejected, st.1, st.2)
            }
        },
        CsvMode::Rejected => st,
    }
}

/// The scanner state after the first `k` characters of `line`.
pub open spec fn csv_scan(line: Seq<char>, k: int) -> (CsvMode, Seq<Seq<char>>, Seq<char>)
    decreases k,
{
    if k <= 0 {
        (CsvMode::FieldStart, Seq::empty(), Seq::empty())
    } else {
        csv_step(csv_scan(line, k - 1), line[k - 1])
    }
}

/// The fields of one line, or `None` when the line is malformed.
pub open spec fn csv_fields(line: Seq<char>) -> Option<Seq<Seq<char>>> {
    let st = csv_scan(line, line.len() as int);
    match st.0 {
        CsvMode::Quoted => None,
        CsvMode::Rejected => None,
        _ => Some(st.1.push(st.2)),
    }
}

/// Splits one line into its comma-separated, optionally quoted fields.
pub fn parse_csv_line(line: &str) -> (r: Option<Vec<String>>)
    ensures
        match r {
            Some(fields) => csv_fields(line@) == Some(views_of(fields@)),
            None => csv_fields(line@) is None,
        },
{
    let len = line.unicode_len();
    let mut fields: Vec<String> = Vec::new();
    let mut cur = String::new();
    let mut mode = CsvMode::FieldStart;
    let mut i: usize = 0;
    proof {
        assert(views_of(fields@) =~= Seq::<Seq<char>>::empty());
    }
    while i < len
        invariant
            0 <= i <= len,
            len == line@.len(),
            csv_scan(line@, i as int).0 == mode,
            csv_scan(line@, i as int).1 == views_of(fields@),
            csv_scan(line@, i as int).2 == cur@,
        decreases len - i,
    {
        let c = line.get_char(i);
        let ghost pre = csv_scan(line@, i as int);
        proof {
            assert(csv_scan(line@, i + 1) == csv_step(pre, c));
        }
        match mode {
            CsvMode::FieldStart => {
                if c == '"' {
                    mode = CsvMode::Quoted;
                    proof {
                        assert(csv_step(pre, c) == (CsvMode::Quoted, views_of(fields@), cur@));
                    }
                } else if c == ',' {
                    mode = CsvMode::FieldStart;
                    fields.push(cur);
                    cur = String::new();
                    proof {
                        assert(views_of(fields@) =~= pre.1.push(pre.2));
                        assert(csv_step(pre, c) == (CsvMode::FieldStart, views_of(fields@), cur@));
                    }
                } else {
                    mode = CsvMode::Unquoted;
                    crate::text::push_char(&mut cur, c);
                    proof {
                        assert(csv_step(pre, c) == (CsvMode::Unquoted, views_of(fields@), cur@));
                    }
                }
            },
            CsvMode::Unquoted => {
                if c == ',' {
                    mode = CsvMode::FieldStart;
                    fields.push(cur);
                    cur = String::new();
                    proof {
                        assert(views_of(fields@) =~= pre.1.push(pre.2));
                        assert(csv_step(pre, c) == (CsvMode::FieldStart, views_of(fields@), cur@));
                    }
                } else {
                    crate::text::push_char(&mut cur, c);
                    proof {
                        assert(csv_step(pre, c) == (CsvMode::Unquoted, views_of(fields@), cur@));
                    }
                }
            },
            CsvMode::Quoted => {
                if c == '"' {
                    mode = CsvMode::QuoteSeen;
                    proof {
                        assert(csv_step(pre, c) == (CsvMode::QuoteSeen, views_of(fields@), cur@));
                    }
                } else {
                    crate::text::push_char(&mut cur, c);
                    proof {
                        assert(csv_step(pre, c) == (CsvMode::Quoted, views_of(fields@), cur@));
                    }
                }
            },
            CsvMode::QuoteSeen => {
                if c == '"' {
                    mode = CsvMode::Quoted;
                    crate::text::push_char(&mut cur, '"');
                    proof {
                        assert(csv_step(pre, c) == (CsvMode::Quoted, views_of(fields@), cur@));
                    }
                } else if c == ',' {
                    mode = CsvMode::FieldStart;
                    fields.push(cur);
                    cur = String::new();
                    proof {
                        assert(views_of(fields@) =~= pre.1.push(pre.2));
                        assert(csv_step(pre, c) == (CsvMode::FieldStart, views_of(fields@), cur@));
                    }
                } else {
                    mode = CsvMode::Rejected;
                    proof {
                        assert(csv_step(pre, c) == (CsvMode::Rejected, views_of(fields@), cur@));
                    }
                }
            },
            CsvMode::Rejected => {
                proof {
                    assert(csv_step(pre, c) == (CsvMode::Rejected, views_of(fields@), cur@));
                }
            },
        }
        i = i + 1;
    }
    proof {
        assert(csv_scan(line@, line@.len() as int) == csv_scan(line@, i as int));
    }
    match mode {
        CsvMode::Quoted => None,
        CsvMode::Rejected => None,
        _ => {
            fields.push(cur);
            proof {
                assert(views_of(fields@) =~= csv_scan(line@, line@.len() as int).1.push(
                    csv_scan(line@, line@.len() as int).2,
                ));
            }
            Some(fields)
        },
    }
}

} // verus!
