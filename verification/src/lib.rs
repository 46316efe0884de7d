//! Resolve an IPv4 address to a geographic location using a dataset of
//! sorted, disjoint numeric address ranges read from delimited text.
//!
//! The library is split into the textual building blocks (`text`), the
//! dotted-quad address conversion (`address`), the dataset loader (`table`),
//! and the binary-search resolver (`search`). `look_up` composes them.

pub mod address;
pub mod search;
pub mod table;
pub mod text;

pub use address::{ip_to_decimal, InvalidAddress};
pub use search::find_ip_range;
pub use table::{read_ip_ranges, IpRange, LoadError};

use vstd::prelude::*;

verus! {

use crate::address::{ipv4_value, valid_ipv4};
use crate::search::{lookup_post, opt_view};
use crate::table::parse_table;

/// Resolve the dotted-quad `ip` against the dataset text `data`.
///
/// Either failure (malformed address, malformed dataset) collapses into the
/// same answer as a genuine miss: no match. Callers that must tell the
/// outcomes apart call the three steps themselves.
pub fn look_up(ip: &str, data: &str) -> (r: Option<IpRange>)
    ensures
        !valid_ipv4(ip@) ==> r is None,
        parse_table(data@) is None ==> r is None,
        valid_ipv4(ip@) ==> (parse_table(data@) matches Some(t) ==> lookup_post(
            t,
            ipv4_value(ip@),
            opt_view(r),
        )),
{
    let addr = match ip_to_decimal(ip) {
        Ok(a) => a,
        Err(_) => {
            return None;
        },
    };
    let ranges = match read_ip_ranges(data) {
        Ok(t) => t,
        Err(_) => {
            return None;
        },
    };
    find_ip_range(addr, ranges.as_slice())
}

} // verus!
