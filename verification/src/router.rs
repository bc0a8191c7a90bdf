//! The request router: which service a request path addresses. The
//! path's second slash-separated segment names the service.

use vstd::prelude::*;
use vstd::string::StringSliceAdditionalSpecFns;

use crate::net::transaction::TransactionService;
use crate::net::utility::UtilityService;
use crate::rpc::slice_eq;

verus! {

/// The services the router can address.
#[derive(Copy, Clone, PartialEq, Eq, Structural, Debug)]
pub enum Route {
    Utility,
    Transaction,
}

/// The router over the services it dispatches to.
pub struct Router {
    pub utility_service: UtilityService,
    pub transaction_service: TransactionService,
}

/// The index of the first slash at or past `i`, or the length when
/// none follows.
pub open spec fn find_slash(p: Seq<u8>, i: int) -> int
    decreases p.len() - i,
{
    if i < 0 || i >= p.len() {
        p.len() as int
    } else if p[i] == 0x2f {
        i
    } else {
        find_slash(p, i + 1)
    }
}

/// The path segment between the first slash and the next: the
/// service name a request path addresses.
pub open spec fn service_segment(p: Seq<u8>) -> Seq<u8> {
    let a = find_slash(p, 0);
    p.subrange(a + 1, find_slash(p, a + 1))
}

/// Find the first slash at or past `from`.
fn find_slash_from(path: &Vec<u8>, from: usize) -> (r: usize)
    requires
        from <= path@.len(),
    ensures
        r == find_slash(path@, from as int),
        from <= r <= path@.len(),
        r < path@.len() ==> path@[r as int] == 0x2f,
{
    let n = path.len();
    let mut i: usize = from;
    while i < n
        invariant
            from <= i <= n,
            n == path@.len(),
            find_slash(path@, from as int) == find_slash(path@, i as int),
        decreases n - i,
    {
        if path[i] == 0x2f {
            return i;
        }
        i = i + 1;
    }
    i
}

impl Router {
    /// The service a path addresses, or nothing for an unknown
    /// service name. The path must contain a slash, as every routed
    /// request URI does.
    pub fn call(&self, path: &Vec<u8>) -> (r: Option<Route>)
        requires
            find_slash(path@, 0) < path@.len(),
        ensures
            r == (if service_segment(path@) == "utility.Utility".spec_bytes() {
                Some(Route::Utility)
            } else if service_segment(path@) == "transaction.Transaction".spec_bytes() {
                Some(Route::Transaction)
            } else {
                None::<Route>
            }),
    {
        let n = path.len();
        let a = find_slash_from(path, 0);
        assert(a < n);
        let b = find_slash_from(path, a + 1);
        let seg = crate::codec::copy_range(path.as_slice(), a + 1, b);
        assert(seg@ == service_segment(path@));
        if slice_eq(seg.as_slice(), "utility.Utility".as_bytes()) {
            Some(Route::Utility)
        } else if slice_eq(seg.as_slice(), "transaction.Transaction".as_bytes()) {
            Some(Route::Transaction)
        } else {
            None
        }
    }
}

} // verus!
