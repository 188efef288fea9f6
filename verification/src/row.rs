//! One line of the table: splitting on commas, trimming the fields, and
//! validating the four numeric columns.

use vstd::prelude::*;

use crate::numeric::is_numeric;
use crate::numeric::parses_as_float;
use crate::text::trim_range;
use crate::text::trim_spec;

verus! {

/// What `str::split` yields on the comma delimiter: the segments between
/// commas, in order, kept even when empty. An empty line yields one empty
/// segment.
pub open spec fn split_commas(s: Seq<char>) -> Seq<Seq<char>>
    decreases s.len(),
{
    if s.len() == 0 {
        seq![Seq::<char>::empty()]
    } else if s.last() == ',' {
        split_commas(s.drop_last()).push(Seq::<char>::empty())
    } else {
        let r = split_commas(s.drop_last());
        r.update(r.len() - 1, r.last().push(s.last()))
    }
}

/// The fields of a line: the comma-separated segments, each trimmed of
/// surrounding whitespace.
pub open spec fn row_fields(line: Seq<char>) -> Seq<Seq<char>> {
    split_commas(line).map_values(|f: Seq<char>| trim_spec(f))
}

/// The positions of the four columns that are read from each row.
pub open spec fn year_column() -> int {
    5
}

pub open spec fn engine_column() -> int {
    7
}

pub open spec fn kilometers_column() -> int {
    8
}

pub open spec fn price_column() -> int {
    11
}

/// The least number of fields a row must have to be considered.
pub open spec fn min_columns() -> int {
    12
}

/// A row is kept exactly when it has at least twelve fields and the year,
/// engine size, kilometre and price fields are numeric.
pub open spec fn row_is_valid(line: Seq<char>) -> bool {
    let f = row_fields(line);
    &&& f.len() >= min_columns()
    &&& parses_as_float(f[year_column()])
    &&& parses_as_float(f[engine_column()])
    &&& parses_as_float(f[kilometers_column()])
    &&& parses_as_float(f[price_column()])
}

/// A validated listing: the four numeric fields of one kept row, still as
/// the trimmed text they were read from. Each of them parses as a 64-bit
/// floating-point number.
pub struct CarRecord {
    pub kilometers: String,
    pub year: String,
    pub engine: String,
    pub price: String,
}

/// The mathematical value of a `CarRecord`: its four fields as character
/// sequences.
pub struct RecordModel {
    pub kilometers: Seq<char>,
    pub year: Seq<char>,
    pub engine: Seq<char>,
    pub price: Seq<char>,
}

impl View for CarRecord {
    type V = RecordModel;

    open spec fn view(&self) -> RecordModel {
        RecordModel {
            kilometers: self.kilometers@,
            year: self.year@,
            engine: self.engine@,
            price: self.price@,
        }
    }
}

impl DeepView for CarRecord {
    type V = RecordModel;

    open spec fn deep_view(&self) -> RecordModel {
        self.view()
    }
}

impl CarRecord {
    /// Every field of a validated record is numeric.
    pub open spec fn wf(self) -> bool {
        &&& parses_as_float(self.kilometers@)
        &&& parses_as_float(self.year@)
        &&& parses_as_float(self.engine@)
        &&& parses_as_float(self.price@)
    }
}

/// The record a valid row yields: kilometres, year, engine size and price,
/// in that order — reordered relative to the column order of the file.
pub open spec fn record_of(line: Seq<char>) -> RecordModel {
    let f = row_fields(line);
    RecordModel {
        kilometers: f[kilometers_column()],
        year: f[year_column()],
        engine: f[engine_column()],
        price: f[price_column()],
    }
}

/// Splits `line` on commas and trims each segment of surrounding
/// whitespace.
pub fn split_and_trim(line: &str) -> (fields: Vec<String>)
    ensures
        fields@.len() == row_fields(line@).len(),
        forall|k: int| 0 <= k < fields@.len() ==> fields@[k]@ == row_fields(line@)[k],
{
    let n = line.unicode_len();
    let mut fields: Vec<String> = Vec::new();
    let mut start: usize = 0;
    let mut i: usize = 0;
    let ghost mut raw: Seq<Seq<char>> = Seq::empty();
    proof {
        assert(line@.subrange(0, 0) =~= Seq::<char>::empty());
        assert(split_commas(line@.subrange(0, 0)) =~~= raw.push(line@.subrange(0, 0)));
    }
    while i < n
        invariant
            0 <= start <= i <= n == line@.len(),
            split_commas(line@.subrange(0, i as int)) == raw.push(
                line@.subrange(start as int, i as int),
            ),
            fields@.len() == raw.len(),
            forall|k: int| 0 <= k < raw.len() ==> fields@[k]@ == trim_spec(#[trigger] raw[k]),
        decreases n - i,
    {
        let ghost prev = line@.subrange(0, i as int);
        let ghost curf = line@.subrange(start as int, i as int);
        let c = line.get_char(i);
        proof {
            assert(line@.subrange(0, i + 1).drop_last() =~= prev);
            assert(line@.subrange(0, i + 1).last() == line@[i as int]);
        }
        if c == ',' {
            let f = trim_range(line, start, i);
            fields.push(f);
            proof {
                raw = raw.push(curf);
                assert(split_commas(line@.subrange(0, i + 1)) =~~= raw.push(
                    line@.subrange(i + 1, i + 1),
                ));
            }
            start = i + 1;
        } else {
            proof {
                let r = raw.push(curf);
                assert(r.last() == curf);
                assert(curf.push(line@[i as int]) =~= line@.subrange(start as int, i + 1));
                assert(r.update(r.len() - 1, curf.push(line@[i as int])) =~~= raw.push(
                    line@.subrange(start as int, i + 1),
                ));
            }
        }
        i = i + 1;
    }
    let f = trim_range(line, start, n);
    fields.push(f);
    proof {
        assert(line@.subrange(0, n as int) =~= line@);
        let full = raw.push(line@.subrange(start as int, n as int));
        assert(split_commas(line@) == full);
        assert forall|k: int| 0 <= k < fields@.len() implies fields@[k]@ == row_fields(line@)[k] by {
            assert(row_fields(line@)[k] == trim_spec(full[k]));
            if k < raw.len() {
                assert(full[k] == raw[k]);
            }
        }
    }
    fields
}

/// Validates one data line: splits it on commas, trims the fields, and,
/// when there are at least twelve fields whose year, engine size, kilometre
/// and price entries are all numeric, returns the record made of those four
/// fields. Returns `None` exactly on the rows that are to be skipped.
pub fn parse_row(line: &str) -> (r: Option<CarRecord>)
    ensures
        r is Some <==> row_is_valid(line@),
        r is Some ==> r->0@ == record_of(line@) && r->0.wf(),
{
    let fields = split_and_trim(line);
    if fields.len() < 12 {
        return None;
    }
    let year_ok = is_numeric(fields[5].as_str());
    let engine_ok = is_numeric(fields[7].as_str());
    let km_ok = is_numeric(fields[8].as_str());
    let price_ok = is_numeric(fields[11].as_str());
    if year_ok && engine_ok && km_ok && price_ok {
        Some(
            CarRecord {
                kilometers: fields[8].clone(),
                year: fields[5].clone(),
                engine: fields[7].clone(),
                price: fields[11].clone(),
            },
        )
    } else {
        None
    }
}

} // verus!
