//! The remote padding oracle of the original attack target: one HTTP GET
//! per query, with the candidate ciphertext hex-encoded into the URL.
//! Nothing is assumed of the remote endpoint's answers: the oracle is not
//! `reliable`, and the search treats its verdicts as bare booleans.

use vstd::prelude::*;

use crate::oracle::PaddingOracle;

verus! {

/// reqwest's blocking HTTP client, declared so it can stand in a field.
#[verifier::external_type_specification]
#[verifier::external_body]
pub struct ExClient(reqwest::blocking::Client);

/// A padding oracle reached over HTTP: status 404 means the padding was
/// accepted, 403 that it was rejected, and any other status — or no
/// response at all — is conservatively folded into a rejection, so the
/// search always terminates instead of blocking on an unclear answer. The
/// last status seen is kept for diagnosis.
pub struct HttpOracle {
    client: reqwest::blocking::Client,
    serv_url: String,
    count: u64,
    last_status: Option<u16>,
}

impl HttpOracle {
    /// Relies on reqwest's blocking `Client::new` to build the transport.
    #[verifier::external_body]
    pub fn new(url: String) -> (r: HttpOracle)
        ensures
            r.queries() == 0,
    {
        HttpOracle {
            client: reqwest::blocking::Client::new(),
            serv_url: url,
            count: 0,
            last_status: None,
        }
    }

    /// How many queries this oracle has sent (saturating).
    pub fn query_count(&self) -> (r: u64)
        ensures
            r as nat == self.queries(),
    {
        self.count
    }

    /// The HTTP status of the last answered query, if any: kept so that
    /// an unexpected status stays observable even though the verdict
    /// folds it into a rejection.
    pub fn last_status(&self) -> Option<u16> {
        self.last_status
    }
}

impl PaddingOracle for HttpOracle {
    /// A network answer may be lost or wrong: no verdict is trusted.
    open spec fn reliable(&self) -> bool {
        false
    }

    open spec fn accepts(&self, candidate: Seq<u8>) -> bool {
        false
    }

    closed spec fn queries(&self) -> nat {
        self.count as nat
    }

    fn query(&mut self, candidate: &Vec<u8>) -> (r: bool) {
        if self.count < u64::MAX {
            self.count = self.count + 1;
        }
        let (verdict, status) = http_query(&self.client, &self.serv_url, candidate);
        self.last_status = status;
        verdict
    }
}

/// Relies on hex's `encode` to put the candidate on the wire and on
/// reqwest's blocking `get`/`send`/`status` for one HTTP round trip: the
/// verdict is true exactly when the endpoint answered with status 404.
#[verifier::external_body]
fn http_query(client: &reqwest::blocking::Client, serv_url: &String, candidate: &Vec<u8>) -> (r:
    (bool, Option<u16>))
    ensures
        r.0 <==> (r.1 matches Some(s) && s == 404),
{
    let url = format!("{}{}", serv_url, hex::encode(candidate.as_slice()));
    match client.get(url).send() {
        Err(_) => (false, None),
        Ok(response) => {
            let status = response.status().as_u16();
            (status == 404, Some(status))
        },
    }
}

} // verus!
