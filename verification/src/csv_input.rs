//! The input tables: CSV text read into records, and the fields that each
//! table needs from every record.
use vstd::prelude::*;

verus! {

/// The records of a CSV text, after its header line, each as its fields, as
/// the `csv` crate reads them with its default settings; `None` when the
/// text is not valid CSV for that reader (not UTF-8, or records whose field
/// counts differ).
pub uninterp spec fn csv_records(text: Seq<u8>) -> Option<Seq<Seq<Seq<char>>>>;

/// The fields of each row as character sequences.
pub open spec fn rows_view(rows: Seq<Vec<String>>) -> Seq<Seq<Seq<char>>> {
    Seq::new(rows.len(), |i: int| Seq::new(rows[i]@.len(), |j: int| rows[i]@[j]@))
}

/// `csv::Reader::from_reader(text).records()`, collected: every record as
/// its fields, or `None` at the first record the reader refuses.
#[verifier::external_body]
fn parse_csv(text: &[u8]) -> (r: Option<Vec<Vec<String>>>)
    ensures
        match r {
            Some(rows) => csv_records(text@) == Some(rows_view(rows@)),
            None => csv_records(text@) is None,
        },
{
    csv::Reader::from_reader(text)
        .records()
        .map(|rec| rec.map(|rec| rec.iter().map(String::from).collect()))
        .collect::<Result<Vec<Vec<String>>, csv::Error>>()
        .ok()
}

/// Why a table could not be read.
#[derive(Debug, Clone, Copy, PartialEq, Eq)]
pub enum TableError {
    /// The text is not valid CSV.
    Malformed,
    /// A record has fewer fields than the table needs.
    TooFewFields,
}

/// The first `k` fields of each record, when every record has that many.
pub open spec fn leading_fields(records: Seq<Seq<Seq<char>>>, k: nat) -> Option<Seq<Seq<Seq<char>>>> {
    if forall|i: int| 0 <= i < records.len() ==> #[trigger] records[i].len() >= k {
        Some(Seq::new(records.len(), |i: int| records[i].take(k as int)))
    } else {
        None
    }
}

/// The first `k` fields of each record (parsed CSV records), or
/// `TooFewFields` when some record has fewer.
pub fn table_fields(records: &Vec<Vec<String>>, k: usize) -> (r: Result<Vec<Vec<String>>, TableError>)
    ensures
        match r {
            Ok(rows) => leading_fields(rows_view(records@), k as nat) == Some(rows_view(rows@)),
            Err(e) => e == TableError::TooFewFields && leading_fields(rows_view(records@), k as nat) is None,
        },
{
    let ghost all = rows_view(records@);
    let mut out: Vec<Vec<String>> = Vec::new();
    let mut i: usize = 0;
    while i < records.len()
        invariant
            i <= records@.len(),
            all == rows_view(records@),
            out@.len() == i,
            forall|x: int| 0 <= x < i ==> #[trigger] all[x].len() >= k,
            forall|x: int| 0 <= x < i ==> (#[trigger] rows_view(out@)[x]) == all[x].take(k as int),
        decreases records@.len() - i,
    {
        let rec = &records[i];
        if rec.len() < k {
            proof {
                assert(all[i as int].len() == rec@.len());
                assert(!(all[i as int].len() >= k));
            }
            return Err(TableError::TooFewFields);
        }
        let mut fields: Vec<String> = Vec::new();
        let mut j: usize = 0;
        while j < k
            invariant
                j <= k,
                k <= rec@.len(),
                fields@.len() == j,
                forall|y: int| 0 <= y < j ==> (#[trigger] fields@[y])@ == rec@[y]@,
            decreases k - j,
        {
            fields.push(rec[j].clone());
            j = j + 1;
        }
        let ghost before = out@;
        out.push(fields);
        proof {
            assert(all[i as int].len() == rec@.len());
            assert forall|x: int| 0 <= x < i + 1 implies (#[trigger] rows_view(out@)[x]) == all[x].take(k as int) by {
                if x < i {
                    assert(rows_view(out@)[x] == rows_view(before)[x]);
                } else {
                    assert(rows_view(out@)[x] =~= all[x].take(k as int));
                }
            }
        }
        i = i + 1;
    }
    proof {
        assert(rows_view(out@) =~= Seq::new(all.len(), |x: int| all[x].take(k as int)));
    }
    Ok(out)
}

/// The first `k` fields of each record of a CSV text: `Malformed` when the
/// text is not valid CSV, `TooFewFields` when a record has fewer than `k`
/// fields.
pub fn read_table(text: &[u8], k: usize) -> (r: Result<Vec<Vec<String>>, TableError>)
    ensures
        match csv_records(text@) {
            None => r == Err::<Vec<Vec<String>>, TableError>(TableError::Malformed),
            Some(recs) => match r {
                Ok(rows) => leading_fields(recs, k as nat) == Some(rows_view(rows@)),
                Err(e) => e == TableError::TooFewFields && leading_fields(recs, k as nat) is None,
            },
        },
{
    match parse_csv(text) {
        Some(records) => table_fields(&records, k),
        None => Err(TableError::Malformed),
    }
}

} // verus!
