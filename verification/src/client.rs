//! Where the command-line client sends its requests.
use vstd::prelude::*;
use vstd::string::StringExecFns;

verus! {

/// The node the client talks to: the target given, else a local node.
pub fn target_host(target: Option<String>) -> (host: String)
    ensures
        host@ == (match target {
            Some(t) => t@,
            None => "http://localhost:3000"@,
        }),
{
    match target {
        Some(t) => t,
        None => String::from_str("http://localhost:3000"),
    }
}

/// The address of one key on `host`: `{host}/key/{key}`.
pub fn key_url(host: &String, key: &String) -> (url: String)
    ensures
        url@ == host@ + "/key/"@ + key@,
{
    let mut url = host.clone();
    url.append("/key/");
    url.append(key.as_str());
    url
}

/// The address that takes new values on `host`: `{host}/key`.
pub fn keys_url(host: &String) -> (url: String)
    ensures
        url@ == host@ + "/key"@,
{
    let mut url = host.clone();
    url.append("/key");
    url
}

} // verus!
