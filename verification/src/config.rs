//! Checking the QUIC configuration file's fields.
use vstd::prelude::*;

verus! {

/// Whether `webpki` accepts a name as a DNS name.
pub uninterp spec fn dns_name_valid(name: Seq<char>) -> bool;

/// `webpki::DnsNameRef::try_from_ascii_str` of the `webpki` crate: whether it
/// accepts `name` (what it accepts depends on the name alone).
#[verifier::external_body]
pub(crate) fn is_valid_dns_name(name: &str) -> (r: bool)
    ensures
        r == dns_name_valid(name@),
{
    webpki::DnsNameRef::try_from_ascii_str(name).is_ok()
}

/// Why a configuration is refused.
#[derive(Debug, PartialEq, Eq, Structural, Clone, Copy)]
pub enum ConfigError {
    /// `config_version` is not 1.
    UnsupportedVersion,
    /// `server_dns_name` is not a DNS name.
    InvalidServerDnsName,
    /// One of `client_dns_names` is not a DNS name.
    InvalidClientDnsName,
}

/// The configuration version this program reads.
pub const CONFIG_VERSION: u16 = 1;

/// The verdict on a configuration, given whether its server name and each of
/// its client names are DNS names: the version is checked first, then the
/// server name, then the client names.
pub open spec fn config_verdict(config_version: u16, server_ok: bool, clients_ok: Seq<bool>) -> Result<
    (),
    ConfigError,
> {
    if config_version != CONFIG_VERSION {
        Err(ConfigError::UnsupportedVersion)
    } else if !server_ok {
        Err(ConfigError::InvalidServerDnsName)
    } else if exists|i: int| 0 <= i < clients_ok.len() && !#[trigger] clients_ok[i] {
        Err(ConfigError::InvalidClientDnsName)
    } else {
        Ok(())
    }
}

/// Decides on a configuration from whether its names are DNS names.
pub fn check_config(config_version: u16, server_ok: bool, clients_ok: &Vec<bool>) -> (r: Result<
    (),
    ConfigError,
>)
    ensures
        r == config_verdict(config_version, server_ok, clients_ok@),
{
    if config_version != CONFIG_VERSION {
        return Err(ConfigError::UnsupportedVersion);
    }
    if !server_ok {
        return Err(ConfigError::InvalidServerDnsName);
    }
    let mut i: usize = 0;
    while i < clients_ok.len()
        invariant
            0 <= i <= clients_ok@.len(),
            config_version == CONFIG_VERSION,
            server_ok,
            forall|j: int| 0 <= j < i ==> #[trigger] clients_ok@[j],
        decreases clients_ok@.len() - i,
    {
        if !clients_ok[i] {
            assert(!clients_ok@[i as int]);
            return Err(ConfigError::InvalidClientDnsName);
        }
        i += 1;
    }
    Ok(())
}

/// Checks the fields of a configuration file: version 1, and DNS names for
/// the server and for every client.
pub fn validate_config(
    config_version: u16,
    server_dns_name: &String,
    client_dns_names: &Vec<String>,
) -> (r: Result<(), ConfigError>)
    ensures
        r == config_verdict(
            config_version,
            dns_name_valid(server_dns_name@),
            client_dns_names@.map_values(|n: String| dns_name_valid(n@)),
        ),
{
    let server_ok = is_valid_dns_name(server_dns_name.as_str());
    let mut clients_ok: Vec<bool> = Vec::new();
    let mut i: usize = 0;
    while i < client_dns_names.len()
        invariant
            0 <= i <= client_dns_names@.len(),
            clients_ok@ == client_dns_names@.take(i as int).map_values(
                |n: String| dns_name_valid(n@),
            ),
        decreases client_dns_names@.len() - i,
    {
        let ok = is_valid_dns_name(client_dns_names[i].as_str());
        clients_ok.push(ok);
        assert(clients_ok@ =~= client_dns_names@.take(i + 1).map_values(
            |n: String| dns_name_valid(n@),
        ));
        i += 1;
    }
    assert(client_dns_names@.take(client_dns_names@.len() as int) =~= client_dns_names@);
    check_config(config_version, server_ok, &clients_ok)
}

} // verus!
