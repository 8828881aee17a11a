//! Where to find the first peer.

use vstd::prelude::*;

verus! {

/// The port of a bootstrap peer when its URL names none.
pub const DEFAULT_PORT: u16 = 4433;

/// A host: a name that has to be looked up, or an address.
#[derive(Debug, PartialEq, Eq)]
pub enum Host {
    /// A domain name.
    Domain(String),
    /// An IPv4 address, as the number that its four bytes spell.
    V4(u32),
    /// An IPv6 address, as the number that its sixteen bytes spell.
    V6(u128),
}

/// A host, with its name as characters.
pub enum HostName {
    Domain(Seq<char>),
    V4(u32),
    V6(u128),
}

impl View for Host {
    type V = HostName;

    open spec fn view(&self) -> HostName {
        match self {
            Host::Domain(name) => HostName::Domain(name@),
            Host::V4(ip) => HostName::V4(*ip),
            Host::V6(ip) => HostName::V6(*ip),
        }
    }
}

/// The host and the port of a URL, as far as it has them.
#[derive(Debug, PartialEq, Eq)]
pub struct UrlParts {
    pub host: Option<Host>,
    pub port: Option<u16>,
}

impl View for UrlParts {
    type V = (Option<HostName>, Option<u16>);

    open spec fn view(&self) -> (Option<HostName>, Option<u16>) {
        match self.host {
            Some(host) => (Some(host@), self.port),
            None => (None, self.port),
        }
    }
}

/// The host of the URL that `url::Url::parse` reads from a text, and its port,
/// which is that of its scheme if the text names none and the scheme has one;
/// `None` if the text is no URL.
pub uninterp spec fn url_parts(text: Seq<char>) -> Option<(Option<HostName>, Option<u16>)>;

/// The parts of a URL, if there are any.
pub open spec fn parts_in(parts: Option<UrlParts>) -> Option<(Option<HostName>, Option<u16>)> {
    match parts {
        Some(p) => Some(p@),
        None => None,
    }
}

/// Runs `url::Url::parse` and reads `host` and `port_or_known_default` of what
/// it gives. What these are depends on the text alone.
#[verifier::external_body]
fn parse_url(text: &str) -> (r: Option<UrlParts>)
    ensures
        parts_in(r) == url_parts(text@),
{
    let parsed = url::Url::parse(text).ok()?;
    let host = match parsed.host() {
        Some(url::Host::Domain(name)) => Some(Host::Domain(name.to_string())),
        Some(url::Host::Ipv4(ip)) => Some(Host::V4(u32::from(ip))),
        Some(url::Host::Ipv6(ip)) => Some(Host::V6(u128::from(ip))),
        None => None,
    };
    Some(UrlParts { host, port: parsed.port_or_known_default() })
}

/// Why a URL does not lead to a peer.
#[derive(Copy, Clone, Debug, PartialEq, Eq, Structural)]
pub enum BootstrapError {
    /// It is no URL.
    NoUrl,
    /// It has no host.
    NoHost,
}

/// The host and the port that the parts of a URL lead to.
pub fn target_of(parts: Option<UrlParts>) -> (r: Result<(Host, u16), BootstrapError>)
    ensures
        match parts {
            None => r matches Err(BootstrapError::NoUrl),
            Some(UrlParts { host: None, .. }) => r matches Err(BootstrapError::NoHost),
            Some(UrlParts { host: Some(host), port }) => {
                &&& r matches Ok(target)
                &&& target.0 == host
                &&& target.1 == (match port {
                    Some(named) => named,
                    None => DEFAULT_PORT,
                })
            },
        },
{
    match parts {
        None => Err(BootstrapError::NoUrl),
        Some(UrlParts { host: None, .. }) => Err(BootstrapError::NoHost),
        Some(UrlParts { host: Some(host), port: Some(port) }) => Ok((host, port)),
        Some(UrlParts { host: Some(host), port: None }) => Ok((host, DEFAULT_PORT)),
    }
}

/// The host and the port of the peer that a URL names.
pub fn bootstrap_target(url: &str) -> (r: Result<(Host, u16), BootstrapError>)
    ensures
        match url_parts(url@) {
            None => r matches Err(BootstrapError::NoUrl),
            Some((None, _)) => r matches Err(BootstrapError::NoHost),
            Some((Some(host), port)) => {
                &&& r matches Ok(target)
                &&& target.0@ == host
                &&& target.1 == (match port {
                    Some(named) => named,
                    None => DEFAULT_PORT,
                })
            },
        },
{
    target_of(parse_url(url))
}

/// A URL leads to its host, at the port that it has, or else at the default one;
/// it leads nowhere only if it has no host or is no URL.
pub proof fn law_url_leads_to_its_host(
    parts: Option<UrlParts>,
    r: Result<(Host, u16), BootstrapError>,
)
    requires
        call_ensures(target_of, (parts,), r),
    ensures
        parts is None ==> r == Err::<(Host, u16), BootstrapError>(BootstrapError::NoUrl),
        parts matches Some(p) ==> {
            &&& p.host is None ==> r == Err::<(Host, u16), BootstrapError>(BootstrapError::NoHost)
            &&& p.host matches Some(host) ==> {
                &&& p.port matches Some(port) ==> r == Ok::<(Host, u16), BootstrapError>(
                    (host, port),
                )
                &&& p.port is None ==> r == Ok::<(Host, u16), BootstrapError>((host, 4433u16))
            }
        },
{
}

} // verus!
