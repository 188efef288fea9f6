//! The whole parsing pass: a header line, then data rows, each either kept
//! in the dataset or counted as skipped.

use vstd::prelude::*;

use crate::row::parse_row;
use crate::row::record_of;
use crate::row::row_is_valid;
use crate::row::CarRecord;
use crate::row::RecordModel;

verus! {

/// The dataset the data rows yield: the records of the valid rows, in input
/// order. A row read as `None` stands for a line that could not be read.
pub open spec fn dataset_of(rows: Seq<Option<Seq<char>>>) -> Seq<RecordModel>
    decreases rows.len(),
{
    if rows.len() == 0 {
        Seq::<RecordModel>::empty()
    } else {
        let rest = dataset_of(rows.drop_last());
        match rows.last() {
            Some(l) => if row_is_valid(l) {
                rest.push(record_of(l))
            } else {
                rest
            },
            None => rest,
        }
    }
}

/// How many of the data rows are skipped: the invalid ones and the ones
/// that could not be read.
pub open spec fn skipped_of(rows: Seq<Option<Seq<char>>>) -> nat
    decreases rows.len(),
{
    if rows.len() == 0 {
        0
    } else {
        skipped_of(rows.drop_last()) + match rows.last() {
            Some(l) => if row_is_valid(l) {
                0nat
            } else {
                1nat
            },
            None => 1nat,
        }
    }
}

/// The data rows of a file: everything after the header line. The header,
/// when the file has one, is dropped unconditionally and never counted.
pub open spec fn data_rows(lines: Seq<Option<Seq<char>>>) -> Seq<Option<Seq<char>>> {
    if lines.len() == 0 {
        lines
    } else {
        lines.drop_first()
    }
}

/// Every data row is accounted for exactly once: it is either parsed into
/// the dataset or counted as skipped, so dataset size and skip count sum to
/// the number of data rows.
pub proof fn lemma_rows_accounted_for(rows: Seq<Option<Seq<char>>>)
    ensures
        dataset_of(rows).len() + skipped_of(rows) == rows.len(),
    decreases rows.len(),
{
    if rows.len() > 0 {
        lemma_rows_accounted_for(rows.drop_last());
    }
}

/// Parses a whole file, given line by line: drops the header (line 0,
/// never counted as a skip), keeps each valid data row as a record, in
/// input order, and counts every other data row — too few fields, a
/// non-numeric target field, or a line that could not be read (`None`) —
/// as skipped.
pub fn parse_lines(lines: &Vec<Option<String>>) -> (r: (Vec<CarRecord>, usize))
    ensures
        r.0.deep_view() == dataset_of(data_rows(lines.deep_view())),
        r.1 == skipped_of(data_rows(lines.deep_view())),
        r.0@.len() + r.1 == if lines@.len() == 0 {
            0int
        } else {
            lines@.len() - 1
        },
        forall|k: int| 0 <= k < r.0@.len() ==> (#[trigger] r.0@[k]).wf(),
{
    let ghost ldv = lines.deep_view();
    let ghost rows = data_rows(ldv);
    let mut records: Vec<CarRecord> = Vec::new();
    let mut skipped: usize = 0;
    if lines.len() == 0 {
        proof {
            assert(records.deep_view() =~~= dataset_of(rows));
        }
        return (records, skipped);
    }
    let end = lines.len();
    let mut i: usize = 1;
    while i < end
        invariant
            1 <= i <= end == lines@.len(),
            ldv == lines.deep_view(),
            ldv.len() == lines@.len(),
            records.deep_view() == dataset_of(ldv.subrange(1, i as int)),
            skipped == skipped_of(ldv.subrange(1, i as int)),
            skipped <= i - 1,
            forall|k: int| 0 <= k < records@.len() ==> (#[trigger] records@[k]).wf(),
        decreases end - i,
    {
        let ghost pre = ldv.subrange(1, i as int);
        let ghost cur = ldv.subrange(1, i + 1);
        proof {
            assert(cur.drop_last() =~= pre);
            assert(cur.last() == ldv[i as int]);
            lemma_rows_accounted_for(pre);
        }
        match &lines[i] {
            Some(line) => {
                proof {
                    assert(ldv[i as int] == Some(line@));
                }
                match parse_row(line.as_str()) {
                    Some(rec) => {
                        records.push(rec);
                        proof {
                            assert(records.deep_view() =~~= dataset_of(cur));
                        }
                    },
                    None => {
                        skipped = skipped + 1;
                        proof {
                            assert(records.deep_view() =~~= dataset_of(cur));
                        }
                    },
                }
            },
            None => {
                skipped = skipped + 1;
                proof {
                    assert(ldv[i as int] is None);
                    assert(records.deep_view() =~~= dataset_of(cur));
                }
            },
        }
        i = i + 1;
    }
    proof {
        assert(ldv.subrange(1, end as int) =~= rows);
        lemma_rows_accounted_for(rows);
    }
    (records, skipped)
}

} // verus!
