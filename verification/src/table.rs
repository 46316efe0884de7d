//! The dataset: one range record per line, fields separated by commas.
//! Fields 0 and 1 are the inclusive numeric bounds of the range, fields 2, 4
//! and 5 the country, region and city labels; field 3 is carried by the file
//! format but unused. Loading fails as a whole on any malformed record.

use vstd::prelude::*;
use vstd::string::*;

use crate::text::{is_numeral, numeral_val, split_on, split_str};

verus! {

/// One contiguous, closed interval of 32-bit addresses mapped to a location.
#[derive(Debug)]
pub struct IpRange {
    pub start: u32,
    pub end: u32,
    pub country: String,
    pub region: String,
    pub city: String,
}

/// Mathematical model of one range record.
pub ghost struct RangeModel {
    pub start: u32,
    pub end: u32,
    pub country: Seq<char>,
    pub region: Seq<char>,
    pub city: Seq<char>,
}

impl View for IpRange {
    type V = RangeModel;

    open spec fn view(&self) -> RangeModel {
        RangeModel {
            start: self.start,
            end: self.end,
            country: self.country@,
            region: self.region@,
            city: self.city@,
        }
    }
}

impl Clone for IpRange {
    /// An owned copy equal to the original.
    fn clone(&self) -> (r: Self)
        ensures
            r == *self,
    {
        IpRange {
            start: self.start,
            end: self.end,
            country: self.country.clone(),
            region: self.region.clone(),
            city: self.city.clone(),
        }
    }
}

/// The dataset text could not be read as a table: some record had fewer
/// than six fields, or a bound that is not a 32-bit numeral.
#[derive(Debug, Clone, Copy, PartialEq, Eq)]
pub struct LoadError;

/// The models of a sequence of records.
pub open spec fn table_view(t: Seq<IpRange>) -> Seq<RangeModel> {
    t.map_values(|r: IpRange| r@)
}

/// A line with one trailing carriage return removed, so that files with
/// either line ending read the same.
pub open spec fn strip_cr(l: Seq<char>) -> Seq<char> {
    if l.len() > 0 && l.last() == '\r' {
        l.drop_last()
    } else {
        l
    }
}

/// Interpret one non-empty record line.
pub open spec fn line_to_range(l: Seq<char>) -> Option<RangeModel> {
    let fs = split_on(l, ',');
    if fs.len() < 6 {
        None
    } else if !(is_numeral(fs[0]) && numeral_val(fs[0]) <= u32::MAX) {
        None
    } else if !(is_numeral(fs[1]) && numeral_val(fs[1]) <= u32::MAX) {
        None
    } else {
        Some(
            RangeModel {
                start: numeral_val(fs[0]) as u32,
                end: numeral_val(fs[1]) as u32,
                country: fs[2],
                region: fs[4],
                city: fs[5],
            },
        )
    }
}

/// The table described by a sequence of lines, in order; empty lines are
/// skipped, and any malformed record spoils the whole table.
pub open spec fn lines_to_table(ls: Seq<Seq<char>>) -> Option<Seq<RangeModel>>
    decreases ls.len(),
{
    if ls.len() == 0 {
        Some(Seq::<RangeModel>::empty())
    } else {
        let rest = lines_to_table(ls.drop_last());
        let l = strip_cr(ls.last());
        if l.len() == 0 {
            rest
        } else {
            match (rest, line_to_range(l)) {
                (Some(t), Some(m)) => Some(t.push(m)),
                _ => None,
            }
        }
    }
}

/// The whole dataset text as a table, if every record is well formed.
pub open spec fn parse_table(s: Seq<char>) -> Option<Seq<RangeModel>> {
    lines_to_table(split_on(s, '\n'))
}

/// Once some prefix of the lines fails to parse, the whole sequence fails.
proof fn lemma_lines_to_table_none(ls: Seq<Seq<char>>, i: int)
    requires
        0 <= i <= ls.len(),
        lines_to_table(ls.take(i)) is None,
    ensures
        lines_to_table(ls) is None,
    decreases ls.len() - i,
{
    if i == ls.len() {
        assert(ls.take(i) =~= ls);
    } else {
        assert(ls.take(i + 1).drop_last() =~= ls.take(i));
        assert(ls.take(i + 1).last() == ls[i]);
        lemma_lines_to_table_none(ls, i + 1);
    }
}

/// Read the dataset text into the table it describes, in file order, or
/// report `LoadError` if any record is malformed.
pub fn read_ip_ranges(data: &str) -> (r: Result<Vec<IpRange>, LoadError>)
    ensures
        r is Ok <==> parse_table(data@) is Some,
        r matches Ok(t) ==> Some(table_view(t@)) == parse_table(data@),
{
    let lines = split_str(data, '\n');
    let ghost ls = split_on(data@, '\n');
    let mut table: Vec<IpRange> = Vec::new();
    let mut i: usize = 0;
    while i < lines.len()
        invariant
            0 <= i <= lines@.len(),
            ls == split_on(data@, '\n'),
            lines@.len() == ls.len(),
            forall|j: int| 0 <= j < ls.len() ==> #[trigger] lines@[j]@ == ls[j],
            lines_to_table(ls.take(i as int)) == Some(table_view(table@)),
        decreases lines@.len() - i,
    {
        proof {
            assert(ls.take(i + 1).drop_last() =~= ls.take(i as int));
            assert(ls.take(i + 1).last() == ls[i as int]);
        }
        let line = lines[i].as_str();
        let n = line.unicode_len();
        let stripped: &str = if n > 0 && line.get_char(n - 1) == '\r' {
            line.substring_char(0, n - 1)
        } else {
            line
        };
        assert(stripped@ == strip_cr(ls[i as int]));
        if stripped.unicode_len() > 0 {
            let fields = split_str(stripped, ',');
            let ghost fs = split_on(strip_cr(ls[i as int]), ',');
            proof {
                assert(fields@.len() == fs.len());
            }
            if fields.len() < 6 {
                proof {
                    assert(line_to_range(strip_cr(ls[i as int])) is None);
                    assert(lines_to_table(ls.take(i + 1)) is None);
                    lemma_lines_to_table_none(ls, i + 1);
                }
                return Err(LoadError);
            }
            proof {
                assert(fields@[0]@ == fs[0]);
                assert(fields@[1]@ == fs[1]);
                assert(fields@[2]@ == fs[2]);
                assert(fields@[4]@ == fs[4]);
                assert(fields@[5]@ == fs[5]);
            }
            let start = match crate::text::parse_u32(fields[0].as_str()) {
                Some(v) => v,
                None => {
                    proof {
                        assert(line_to_range(strip_cr(ls[i as int])) is None);
                        assert(lines_to_table(ls.take(i + 1)) is None);
                        lemma_lines_to_table_none(ls, i + 1);
                    }
                    return Err(LoadError);
                },
            };
            let end = match crate::text::parse_u32(fields[1].as_str()) {
                Some(v) => v,
                None => {
                    proof {
                        assert(line_to_range(strip_cr(ls[i as int])) is None);
                        assert(lines_to_table(ls.take(i + 1)) is None);
                        lemma_lines_to_table_none(ls, i + 1);
                    }
                    return Err(LoadError);
                },
            };
            let rec = IpRange {
                start,
                end,
                country: fields[2].clone(),
                region: fields[4].clone(),
                city: fields[5].clone(),
            };
            proof {
                assert(rec@ == line_to_range(strip_cr(ls[i as int]))->Some_0);
                assert(table_view(table@.push(rec)) =~= table_view(table@).push(rec@));
            }
            table.push(rec);
        }
        i = i + 1;
    }
    proof {
        assert(ls.take(lines@.len() as int) =~= ls);
    }
    Ok(table)
}

} // verus!
