//! The range resolver: a binary search over a table of disjoint, ascending
//! ranges, with a three-way containment comparator.

use vstd::prelude::*;

use crate::table::{table_view, IpRange, RangeModel};

verus! {

/// The closed interval `[start, end]` contains the address.
pub open spec fn in_range(m: RangeModel, ip: u32) -> bool {
    m.start <= ip <= m.end
}

/// A single range is well formed: its bounds are in order.
pub open spec fn range_wf(m: RangeModel) -> bool {
    m.start <= m.end
}

/// The table invariant the resolver relies on: every range is well formed,
/// and the ranges are mutually disjoint in ascending order.
pub open spec fn table_wf(t: Seq<RangeModel>) -> bool {
    &&& forall|i: int| 0 <= i < t.len() ==> range_wf(#[trigger] t[i])
    &&& forall|i: int, j: int|
        #![trigger t[i], t[j]]
        0 <= i < j < t.len() ==> t[i].end < t[j].start
}

/// Some range of the table contains the address.
pub open spec fn contains_ip(t: Seq<RangeModel>, ip: u32) -> bool {
    exists|i: int| 0 <= i < t.len() && in_range(#[trigger] t[i], ip)
}

/// What a search over `t` for `ip` may answer: a returned range is a
/// containing member of the table, and over a well-formed table the search
/// answers exactly when some range contains the address.
pub open spec fn lookup_post(t: Seq<RangeModel>, ip: u32, r: Option<RangeModel>) -> bool {
    &&& r matches Some(m) ==> exists|i: int|
        0 <= i < t.len() && #[trigger] t[i] == m && in_range(m, ip)
    &&& table_wf(t) ==> (r is Some <==> contains_ip(t, ip))
}

/// The model of an optional record.
pub open spec fn opt_view(r: Option<IpRange>) -> Option<RangeModel> {
    match r {
        Some(x) => Some(x@),
        None => None,
    }
}

/// In a well-formed table, at most one range contains a given address.
pub proof fn lemma_match_unique(t: Seq<RangeModel>, ip: u32, i: int, j: int)
    requires
        table_wf(t),
        0 <= i < t.len(),
        0 <= j < t.len(),
        in_range(t[i], ip),
        in_range(t[j], ip),
    ensures
        i == j,
{
}

/// Searching a well-formed table is a function of the table and the address:
/// any two answers that the search contract admits are equal.
pub proof fn lemma_lookup_deterministic(
    t: Seq<RangeModel>,
    ip: u32,
    r1: Option<RangeModel>,
    r2: Option<RangeModel>,
)
    requires
        table_wf(t),
        lookup_post(t, ip, r1),
        lookup_post(t, ip, r2),
    ensures
        r1 == r2,
{
    if r1 is Some && r2 is Some {
        let i = choose|i: int| 0 <= i < t.len() && t[i] == r1->Some_0 && in_range(r1->Some_0, ip);
        let j = choose|j: int| 0 <= j < t.len() && t[j] == r2->Some_0 && in_range(r2->Some_0, ip);
        lemma_match_unique(t, ip, i, j);
    } else if r1 is Some {
        assert(contains_ip(t, ip));
    } else if r2 is Some {
        assert(contains_ip(t, ip));
    }
}

/// Locate the range containing `ip` by binary search, and return an owned
/// copy of it. Over a table that violates the ordering invariant the search
/// still terminates and any range it returns still contains `ip`, but a miss
/// is then meaningless.
pub fn find_ip_range(ip: u32, ranges: &[IpRange]) -> (r: Option<IpRange>)
    ensures
        lookup_post(table_view(ranges@), ip, opt_view(r)),
{
    let ghost t = table_view(ranges@);
    let mut lo: usize = 0;
    let mut hi: usize = ranges.len();
    while lo < hi
        invariant
            lo <= hi <= ranges@.len(),
            t == table_view(ranges@),
            t.len() == ranges@.len(),
            forall|k: int|
                0 <= k < t.len() && in_range(#[trigger] t[k], ip) && table_wf(t) ==> lo <= k < hi,
        decreases hi - lo,
    {
        let mid = lo + (hi - lo) / 2;
        let cand = &ranges[mid];
        proof {
            assert(t[mid as int] == ranges@[mid as int]@);
        }
        if ip < cand.start {
            hi = mid;
        } else if ip > cand.end {
            lo = mid + 1;
        } else {
            let found = cand.clone();
            proof {
                assert(in_range(t[mid as int], ip));
            }
            return Some(found);
        }
    }
    proof {
        if table_wf(t) && contains_ip(t, ip) {
            let k = choose|k: int| 0 <= k < t.len() && in_range(t[k], ip);
            assert(lo <= k < hi);
        }
    }
    None
}

} // verus!
