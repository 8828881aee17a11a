use worlddat::bootstrap::{
    bootstrap_target, target_of, BootstrapError, Host, UrlParts, DEFAULT_PORT,
};

fn domain(name: &str) -> Host {
    Host::Domain(name.to_string())
}

#[test]
fn url_names_host_and_port() {
    assert_eq!(
        bootstrap_target("quic://[::1]:5544/"),
        Ok((Host::V6(1), 5544))
    );
    assert_eq!(
        bootstrap_target("quic://127.0.0.1:4444"),
        Ok((domain("127.0.0.1"), 4444))
    );
    assert_eq!(
        bootstrap_target("https://127.0.0.1"),
        Ok((Host::V4(0x7f00_0001), 443))
    );
}

#[test]
fn port_has_a_default() {
    assert_eq!(DEFAULT_PORT, 4433);
    assert_eq!(
        bootstrap_target("quic://example.org"),
        Ok((domain("example.org"), 4433))
    );
    assert_eq!(
        target_of(Some(UrlParts {
            host: Some(Host::V4(7)),
            port: None
        })),
        Ok((Host::V4(7), 4433))
    );
    assert_eq!(
        target_of(Some(UrlParts {
            host: Some(Host::V4(7)),
            port: Some(1)
        })),
        Ok((Host::V4(7), 1))
    );
}

#[test]
fn text_that_leads_nowhere_is_an_error() {
    assert_eq!(bootstrap_target("no url"), Err(BootstrapError::NoUrl));
    assert_eq!(
        bootstrap_target("mailto:somebody"),
        Err(BootstrapError::NoHost)
    );
    assert_eq!(target_of(None), Err(BootstrapError::NoUrl));
    assert_eq!(
        target_of(Some(UrlParts {
            host: None,
            port: Some(1)
        })),
        Err(BootstrapError::NoHost)
    );
}
