use vstd::prelude::*;

verus! {

/// Where the server listens, where it relays, and where its rules are kept.
pub struct Config {
    /// Local socket address for incoming queries.
    pub listen_addr: String,
    /// Upstream resolver that unmatched queries are relayed to.
    pub remote_addr: String,
    /// Rule file mapping domain names to addresses.
    pub rule_file: String,
}

impl Config {
    /// The default configuration.
    pub fn default() -> (r: Config)
        ensures
            r.listen_addr@ == "127.0.0.1:53"@,
            r.remote_addr@ == "114.114.114.114:53"@,
            r.rule_file@ == "rules/config.txt"@,
    {
        Config {
            listen_addr: String::from_str("127.0.0.1:53"),
            remote_addr: String::from_str("114.114.114.114:53"),
            rule_file: String::from_str("rules/config.txt"),
        }
    }
}

} // verus!
