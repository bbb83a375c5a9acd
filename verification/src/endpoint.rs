//! The participants of a distributed account and how each is reached.

use vstd::prelude::*;
use vstd::string::*;
use crate::text::{decimal, push_decimal};

verus! {

/// One remote signer of a distributed account.
#[derive(Clone, Debug)]
pub struct Endpoint {
    /// Host name of the signer.
    pub name: String,
    /// Port on which the signer listens.
    pub port: u32,
    /// The signer's share index: the point at which its share of the key
    /// was taken. Non-zero and unique within one account.
    pub id: u64,
}

/// The address of a signer that listens on `port` of the host `name`.
pub open spec fn url_text(name: Seq<char>, port: u32) -> Seq<char> {
    "https://"@ + name + ":"@ + decimal(port as nat)
}

/// Build the participant URL for the given endpoint: `https://name:port`.
pub fn participant_url(endpoint: &Endpoint) -> (url: String)
    ensures
        url@ == url_text(endpoint.name@, endpoint.port),
{
    let mut url = String::from_str("https://");
    url.append(endpoint.name.as_str());
    url.append(":");
    push_decimal(&mut url, endpoint.port as u64);
    url
}

} // verus!
