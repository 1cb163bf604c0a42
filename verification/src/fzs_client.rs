//! Connection parameters for a custom binary streaming endpoint.  Opening
//! the transport itself is a collaborator concern; the library holds the
//! parameters and serves them back.

use vstd::prelude::*;

verus! {

/// Parameters of one streaming endpoint.
#[derive(Debug, Clone)]
pub struct FzsClient {
    endpoint_name: String,
    endpoint: String,
    auth_token: Option<String>,
}

impl FzsClient {
    /// The endpoint's display name.
    pub closed spec fn spec_endpoint_name(&self) -> String {
        self.endpoint_name
    }

    /// The endpoint's address.
    pub closed spec fn spec_endpoint(&self) -> String {
        self.endpoint
    }

    /// The authentication token, if one is configured.
    pub closed spec fn spec_auth_token(&self) -> Option<String> {
        self.auth_token
    }

    /// Holds the parameters of an endpoint.
    pub fn new(endpoint: &str, auth_token: Option<&str>, endpoint_name: String) -> (c: Self)
        ensures
            c.spec_endpoint_name() == endpoint_name,
            c.spec_endpoint()@ == endpoint@,
            (c.spec_auth_token() is Some <==> auth_token is Some),
            auth_token is Some ==> c.spec_auth_token()->0@ == auth_token->0@,
    {
        let auth_token = match auth_token {
            Some(t) => Some(t.to_owned()),
            None => None,
        };
        FzsClient { endpoint_name, endpoint: endpoint.to_owned(), auth_token }
    }

    pub fn get_endpoint_name(&self) -> (r: &str)
        ensures
            r@ == self.spec_endpoint_name()@,
    {
        self.endpoint_name.as_str()
    }

    pub fn get_endpoint(&self) -> (r: &str)
        ensures
            r@ == self.spec_endpoint()@,
    {
        self.endpoint.as_str()
    }

    pub fn get_auth_token(&self) -> (r: Option<&str>)
        ensures
            (r is Some <==> self.spec_auth_token() is Some),
            r is Some ==> r->0@ == self.spec_auth_token()->0@,
    {
        match &self.auth_token {
            Some(t) => Some(t.as_str()),
            None => None,
        }
    }
}

} // verus!
