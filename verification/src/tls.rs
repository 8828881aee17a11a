//! The keys and certificates that a peer shows to others.

use rustls::internal::pemfile;
use vstd::prelude::*;

verus! {

/// The DER contents of the RSA private keys in a PEM text, as
/// `rustls::internal::pemfile::rsa_private_keys` extracts them; `None` if it
/// cannot.
pub uninterp spec fn pem_rsa_keys(pem: Seq<u8>) -> Option<Seq<Seq<u8>>>;

/// The DER contents of the certificates in a PEM text, as
/// `rustls::internal::pemfile::certs` extracts them; `None` if it cannot.
pub uninterp spec fn pem_certs(pem: Seq<u8>) -> Option<Seq<Seq<u8>>>;

/// The contents of a list of byte vectors.
pub open spec fn ders(list: Seq<Vec<u8>>) -> Seq<Seq<u8>> {
    list.map_values(|d: Vec<u8>| d@)
}

/// The contents of a list of byte vectors, if there is one.
pub open spec fn ders_in(list: Option<Vec<Vec<u8>>>) -> Option<Seq<Seq<u8>>> {
    match list {
        Some(v) => Some(ders(v@)),
        None => None,
    }
}

/// Runs `rustls::internal::pemfile::rsa_private_keys` over the bytes of a PEM
/// text. What it extracts, and whether it can, depends on the bytes alone.
#[verifier::external_body]
fn rsa_private_keys(pem: &[u8]) -> (r: Option<Vec<Vec<u8>>>)
    ensures
        ders_in(r) == pem_rsa_keys(pem@),
{
    let mut reader = pem;
    match pemfile::rsa_private_keys(&mut reader) {
        Ok(keys) => Some(keys.into_iter().map(|key| key.0).collect()),
        Err(()) => None,
    }
}

/// Runs `rustls::internal::pemfile::certs` over the bytes of a PEM text. What it
/// extracts, and whether it can, depends on the bytes alone.
#[verifier::external_body]
fn certs(pem: &[u8]) -> (r: Option<Vec<Vec<u8>>>)
    ensures
        ders_in(r) == pem_certs(pem@),
{
    let mut reader = pem;
    match pemfile::certs(&mut reader) {
        Ok(chain) => Some(chain.into_iter().map(|cert| cert.0).collect()),
        Err(()) => None,
    }
}

/// Why keys and certificates could not be loaded.
#[derive(Copy, Clone, Debug, PartialEq, Eq, Structural)]
pub enum TlsKeysError {
    /// The private key could not be read.
    Key,
    /// The certificates could not be read.
    Certificate,
}

/// Puts keys and certificates together, if both could be read. The key is
/// looked at first.
pub fn keys_and_chain(
    keys: Option<Vec<Vec<u8>>>,
    chain: Option<Vec<Vec<u8>>>,
) -> (r: Result<(Vec<Vec<u8>>, Vec<Vec<u8>>), TlsKeysError>)
    ensures
        match (keys, chain) {
            (None, _) => r matches Err(TlsKeysError::Key),
            (Some(_), None) => r matches Err(TlsKeysError::Certificate),
            (Some(k), Some(c)) => r matches Ok(p) && p.0 == k && p.1 == c,
        },
{
    match (keys, chain) {
        (None, _) => Err(TlsKeysError::Key),
        (Some(_), None) => Err(TlsKeysError::Certificate),
        (Some(k), Some(c)) => Ok((k, c)),
    }
}

/// Loads RSA private keys and a chain of certificates from the contents of the
/// files that hold them, and returns them in DER format.
pub fn load_tls_keys(key_pem: &[u8], cert_pem: &[u8]) -> (r: Result<
    (Vec<Vec<u8>>, Vec<Vec<u8>>),
    TlsKeysError,
>)
    ensures
        match (pem_rsa_keys(key_pem@), pem_certs(cert_pem@)) {
            (None, _) => r matches Err(TlsKeysError::Key),
            (Some(_), None) => r matches Err(TlsKeysError::Certificate),
            (Some(keys), Some(chain)) => r matches Ok(p) && ders(p.0@) == keys && ders(p.1@)
                == chain,
        },
{
    keys_and_chain(rsa_private_keys(key_pem), certs(cert_pem))
}

/// A list of byte vectors has their contents, one for one.
pub proof fn law_contents_one_for_one(list: Seq<Vec<u8>>, i: int)
    requires
        0 <= i < list.len(),
    ensures
        ders(list).len() == list.len(),
        ders(list)[i] == list[i]@,
{
}

/// Keys and certificates are handed on as they are, if there are both; the error
/// names the first that is missing.
pub proof fn law_keys_are_handed_on(
    keys: Option<Vec<Vec<u8>>>,
    chain: Option<Vec<Vec<u8>>>,
    r: Result<(Vec<Vec<u8>>, Vec<Vec<u8>>), TlsKeysError>,
)
    requires
        call_ensures(keys_and_chain, (keys, chain), r),
    ensures
        keys is None ==> r == Err::<(Vec<Vec<u8>>, Vec<Vec<u8>>), TlsKeysError>(TlsKeysError::Key),
        keys is Some && chain is None ==> r == Err::<(Vec<Vec<u8>>, Vec<Vec<u8>>), TlsKeysError>(
            TlsKeysError::Certificate,
        ),
        keys matches Some(k) ==> chain matches Some(c) ==> r == Ok::<
            (Vec<Vec<u8>>, Vec<Vec<u8>>),
            TlsKeysError,
        >((k, c)),
{
}

} // verus!
