//! Connection settings of the object store that holds logs and results.
use vstd::prelude::*;

verus! {

broadcast use vstd::string::group_string_axioms;

#[derive(Debug, Clone)]
pub struct MinioConfig {
    pub endpoint: String,
    pub access_key: String,
    pub secret_key: String,
    pub bucket: String,
    pub region: String,
}

pub open spec fn default_region() -> Seq<char> {
    "us-east-1"@
}

impl MinioConfig {
    /// Settings given directly, in the default region `us-east-1`.
    pub fn new(endpoint: String, access_key: String, secret_key: String, bucket: String) -> (c: Self)
        ensures
            c.endpoint@ == endpoint@,
            c.access_key@ == access_key@,
            c.secret_key@ == secret_key@,
            c.bucket@ == bucket@,
            c.region@ == default_region(),
    {
        MinioConfig {
            endpoint,
            access_key,
            secret_key,
            bucket,
            region: "us-east-1".to_owned(),
        }
    }

    /// The same settings for another bucket.
    pub fn with_bucket(&self, bucket: &str) -> (c: Self)
        ensures
            c.endpoint@ == self.endpoint@,
            c.access_key@ == self.access_key@,
            c.secret_key@ == self.secret_key@,
            c.bucket@ == bucket@,
            c.region@ == self.region@,
    {
        MinioConfig {
            endpoint: self.endpoint.clone(),
            access_key: self.access_key.clone(),
            secret_key: self.secret_key.clone(),
            bucket: bucket.to_owned(),
            region: self.region.clone(),
        }
    }
}

} // verus!
