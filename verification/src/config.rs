//! Server configuration carried into the service at startup.

use vstd::prelude::*;

verus! {

/// One username and password for the simple authenticator.
#[derive(Clone, PartialEq, Eq, Debug)]
pub struct SimpleAuthConfig {
    pub username: String,
    pub password: String,
}

/// The whole configuration: the simple authenticator's one credential
/// pair, when it is enabled at all.
#[derive(Clone, PartialEq, Eq, Debug)]
pub struct Config {
    pub simple_auth: Option<SimpleAuthConfig>,
}

} // verus!
