//! The utility service: the banner, the donation address, the ping,
//! and the agent version.

use vstd::prelude::*;

use crate::settings::Settings;

verus! {

/// The server banner.
pub struct BannerResponse {
    pub banner: String,
}

/// The donation address.
pub struct DonationAddressResponse {
    pub address: String,
}

/// The serving agent and its version.
pub struct VersionResponse {
    pub agent: String,
    pub version: String,
}

/// The utility service.
pub struct UtilityService {}

impl UtilityService {
    /// The configured banner.
    pub fn banner(&self, settings: &Settings) -> (r: BannerResponse)
        ensures
            r.banner@ == settings.banner@,
    {
        BannerResponse { banner: settings.banner.clone() }
    }

    /// The configured donation address.
    pub fn donation_address(&self, settings: &Settings) -> (r: DonationAddressResponse)
        ensures
            r.address@ == settings.donation_address@,
    {
        DonationAddressResponse { address: settings.donation_address.clone() }
    }

    /// Liveness probe: nothing to say.
    pub fn ping(&self) {
    }

    /// The agent string and the version the caller was built as.
    pub fn version(&self, version: String) -> (r: VersionResponse)
        ensures
            r.agent@ == Seq::<char>::empty(),
            r.version@ == version@,
    {
        VersionResponse { agent: String::new(), version }
    }
}

} // verus!
