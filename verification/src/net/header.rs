//! The header service: ranges of stored headers, and the shape of
//! the live header notifications its subscription stream carries.

use vstd::prelude::*;

use crate::net::{Code, RpcStatus};
use crate::codec::bytes_views;
use crate::store::{header_scan, take_up_to, Database};

verus! {

/// An ordered range of raw headers.
pub struct HeadersResponse {
    pub headers: Vec<Vec<u8>>,
}

/// One live header notification: the height and the 80-byte header.
pub struct HeaderNotification {
    pub height: u32,
    pub header: Vec<u8>,
}

/// The header service over the index store.
pub struct HeaderService {
    pub db: Database,
}

impl HeaderService {
    /// A header service over the given store.
    pub fn new(db: Database) -> (r: HeaderService)
        ensures
            r.db == db,
    {
        HeaderService { db }
    }

    /// The headers from `start_height`: up to `count` of them, all
    /// to the end of the range when `count` is zero.
    pub fn headers(&self, start_height: u32, count: u32) -> (r: Result<HeadersResponse, RpcStatus>)
        requires
            self.db.wf(),
        ensures
            r matches Ok(v) ==> bytes_views(v.headers@) == take_up_to(
                header_scan(self.db.entries(), start_height),
                count,
            ),
            r is Ok,
    {
        match self.db.get_headers(start_height, count) {
            Ok(headers) => Ok(HeadersResponse { headers }),
            Err(_) => Err(
                RpcStatus { code: Code::Internal, message: String::new() },
            ),
        }
    }

    /// Shape one header-bus item for a subscriber.
    pub fn subscribe_item(height: u32, header: &[u8; 80]) -> (r: HeaderNotification)
        ensures
            r.height == height,
            r.header@ == header@,
    {
        HeaderNotification { height, header: vstd::slice::slice_to_vec(header.as_slice()) }
    }
}

} // verus!
