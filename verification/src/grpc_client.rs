//! Connection parameters for a gRPC streaming endpoint.  Opening the
//! transport itself is a collaborator concern; the library holds the
//! parameters and serves them back.

use vstd::prelude::*;

verus! {

/// Parameters of one gRPC endpoint.
#[derive(Debug, Clone)]
pub struct GrpcClient {
    endpoint_name: String,
    url: String,
    token: Option<String>,
}

impl GrpcClient {
    /// The endpoint's display name.
    pub closed spec fn spec_endpoint_name(&self) -> String {
        self.endpoint_name
    }

    /// The endpoint's URL.
    pub closed spec fn spec_url(&self) -> String {
        self.url
    }

    /// The authentication token, if one is configured.
    pub closed spec fn spec_token(&self) -> Option<String> {
        self.token
    }

    /// Holds the parameters of an endpoint.
    pub fn new(url: &str, token: Option<&str>, endpoint_name: String) -> (c: Self)
        ensures
            c.spec_endpoint_name() == endpoint_name,
            c.spec_url()@ == url@,
            (c.spec_token() is Some <==> token is Some),
            token is Some ==> c.spec_token()->0@ == token->0@,
    {
        let token = match token {
            Some(t) => Some(t.to_owned()),
            None => None,
        };
        GrpcClient { endpoint_name, url: url.to_owned(), token }
    }

    pub fn get_endpoint_name(&self) -> (r: &str)
        ensures
            r@ == self.spec_endpoint_name()@,
    {
        self.endpoint_name.as_str()
    }

    pub fn get_url(&self) -> (r: &str)
        ensures
            r@ == self.spec_url()@,
    {
        self.url.as_str()
    }

    pub fn get_token(&self) -> (r: Option<&str>)
        ensures
            (r is Some <==> self.spec_token() is Some),
            r is Some ==> r->0@ == self.spec_token()->0@,
    {
        match &self.token {
            Some(t) => Some(t.as_str()),
            None => None,
        }
    }
}

} // verus!
