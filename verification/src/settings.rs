use vstd::prelude::*;

verus! {

/// The server's configuration.
#[derive(Debug, Clone)]
pub struct AppSettings {
    /// Port to listen on, over UDP and TCP.
    pub port: u16,
    /// Upstream DNS servers, each as `ip:port`; several give failover.
    pub upstream_dns: Vec<String>,
    /// URLs of the blocklists.
    pub blocklist_urls: Vec<String>,
}

} // verus!
