//! What is read out of the PEM files that TLS is served with.
//!
//! The files are opened elsewhere; here their bytes become certificates and a
//! key, or the reason why there are none.

use crate::text::join;
use tokio_rustls::rustls::pki_types::PrivateKeyDer;
use vstd::prelude::*;

verus! {

/// A private key in DER, by its encoding.
#[derive(Debug, PartialEq, Eq)]
pub enum PrivateKey {
    Pkcs1(Vec<u8>),
    Sec1(Vec<u8>),
    Pkcs8(Vec<u8>),
}

/// A private key as a value.
pub enum KeyBytes {
    Pkcs1(Seq<u8>),
    Sec1(Seq<u8>),
    Pkcs8(Seq<u8>),
}

impl View for PrivateKey {
    type V = KeyBytes;

    open spec fn view(&self) -> KeyBytes {
        match *self {
            PrivateKey::Pkcs1(der) => KeyBytes::Pkcs1(der@),
            PrivateKey::Sec1(der) => KeyBytes::Sec1(der@),
            PrivateKey::Pkcs8(der) => KeyBytes::Pkcs8(der@),
        }
    }
}

/// The certificates of a PEM text, each in DER, or what is wrong with the text.
pub uninterp spec fn pem_certificates(pem: Seq<u8>) -> Result<Seq<Seq<u8>>, Seq<char>>;

/// The first private key of a PEM text, if it has one, or what is wrong with the
/// text.
pub uninterp spec fn pem_private_key(pem: Seq<u8>) -> Result<Option<KeyBytes>, Seq<char>>;

/// Certificates as values.
pub open spec fn der_of(certificates: Seq<Vec<u8>>) -> Seq<Seq<u8>> {
    certificates.map_values(|der: Vec<u8>| der@)
}

/// What was read of certificates, as a value.
pub open spec fn certificates_read(r: Result<Vec<Vec<u8>>, String>) -> Result<Seq<Seq<u8>>, Seq<char>> {
    match r {
        Ok(certificates) => Ok(der_of(certificates@)),
        Err(why) => Err(why@),
    }
}

/// What was read of a key, as a value.
pub open spec fn key_read(r: Result<Option<PrivateKey>, String>) -> Result<Option<KeyBytes>, Seq<char>> {
    match r {
        Ok(Some(key)) => Ok(Some(key@)),
        Ok(None) => Ok(None),
        Err(why) => Err(why@),
    }
}

/// `rustls_pemfile::certs` on bytes: the certificates up to the end of the text,
/// or the text of the first error. Both depend on the bytes alone.
#[verifier::external_body]
fn read_certificates(pem: &[u8]) -> (r: Result<Vec<Vec<u8>>, String>)
    ensures
        certificates_read(r) == pem_certificates(pem@),
{
    let mut reader: &[u8] = pem;
    rustls_pemfile::certs(&mut reader)
        .map(|read| match read {
            Ok(der) => Ok(der.as_ref().to_vec()),
            Err(e) => Err(e.to_string()),
        })
        .collect()
}

/// `rustls_pemfile::private_key` on bytes: the first private key, in one of
/// three encodings, or the text of the error. Both depend on the bytes alone.
#[verifier::external_body]
fn read_private_key(pem: &[u8]) -> (r: Result<Option<PrivateKey>, String>)
    ensures
        key_read(r) == pem_private_key(pem@),
{
    let mut reader: &[u8] = pem;
    match rustls_pemfile::private_key(&mut reader) {
        Ok(Some(PrivateKeyDer::Pkcs1(k))) => Ok(Some(PrivateKey::Pkcs1(k.secret_pkcs1_der().to_vec()))),
        Ok(Some(PrivateKeyDer::Sec1(k))) => Ok(Some(PrivateKey::Sec1(k.secret_sec1_der().to_vec()))),
        Ok(Some(PrivateKeyDer::Pkcs8(k))) => Ok(Some(PrivateKey::Pkcs8(k.secret_pkcs8_der().to_vec()))),
        Ok(_) => Ok(None),
        Err(e) => Err(e.to_string()),
    }
}

/// Whether these are the certificates to serve with, given what was read of
/// their file.
pub open spec fn judged_certificates(
    read: Result<Seq<Seq<u8>>, Seq<char>>,
    r: Result<Vec<Vec<u8>>, String>,
) -> bool {
    match read {
        Ok(certificates) => r matches Ok(c) && der_of(c@) == certificates,
        Err(why) => r matches Err(e) && e@ == "Failed to parse RING2ZERO_TLS_CERT: "@ + why,
    }
}

/// Whether this is the key to serve with, given what was read of its file. A file
/// without a key is an error.
pub open spec fn judged_key(
    read: Result<Option<KeyBytes>, Seq<char>>,
    r: Result<PrivateKey, String>,
) -> bool {
    match read {
        Ok(Some(key)) => r matches Ok(k) && k@ == key,
        Ok(None) => r matches Err(e) && e@ == "RING2ZERO_TLS_KEY contains no private key"@,
        Err(why) => r matches Err(e) && e@ == "Failed to parse RING2ZERO_TLS_KEY: "@ + why,
    }
}

/// The certificates to serve with, given what was read of their file.
pub fn certificates_of(read: Result<Vec<Vec<u8>>, String>) -> (r: Result<Vec<Vec<u8>>, String>)
    ensures
        judged_certificates(certificates_read(read), r),
        read is Ok ==> r == read,
{
    match read {
        Ok(certificates) => Ok(certificates),
        Err(why) => Err(join("Failed to parse RING2ZERO_TLS_CERT: ", why.as_str())),
    }
}

/// The key to serve with, given what was read of its file.
pub fn key_of(read: Result<Option<PrivateKey>, String>) -> (r: Result<PrivateKey, String>)
    ensures
        judged_key(key_read(read), r),
        read matches Ok(Some(key)) ==> r == Ok::<PrivateKey, String>(key),
{
    match read {
        Ok(Some(key)) => Ok(key),
        Ok(None) => Err("RING2ZERO_TLS_KEY contains no private key".to_owned()),
        Err(why) => Err(join("Failed to parse RING2ZERO_TLS_KEY: ", why.as_str())),
    }
}

/// The certificates in the bytes of a PEM file, each in DER.
pub fn certificates(pem: &[u8]) -> (r: Result<Vec<Vec<u8>>, String>)
    ensures
        judged_certificates(pem_certificates(pem@), r),
{
    certificates_of(read_certificates(pem))
}

/// The private key in the bytes of a PEM file.
pub fn private_key(pem: &[u8]) -> (r: Result<PrivateKey, String>)
    ensures
        judged_key(pem_private_key(pem@), r),
{
    key_of(read_private_key(pem))
}

/// The error of a file, named by a variable, that cannot be opened.
pub fn cannot_open(variable: &str, path: &str, why: &str) -> (e: String)
    ensures
        e@ == "Cannot open "@ + variable@ + " ("@ + path@ + "): "@ + why@,
{
    let s: String = join("Cannot open ", variable);
    let s: String = join(s.as_str(), " (");
    let s: String = join(s.as_str(), path);
    let s: String = join(s.as_str(), "): ");
    join(s.as_str(), why)
}

/// The error of a certificate and a key that do not go together.
pub fn pair_error(why: &str) -> (e: String)
    ensures
        e@ == "Invalid TLS certificate/key pair: "@ + why@,
{
    join("Invalid TLS certificate/key pair: ", why)
}

/// A file that cannot be read gives an error, and so does one without a key; otherwise what
/// was read is served with.
pub proof fn law_only_what_was_read_is_served(
    certificates: Result<Seq<Seq<u8>>, Seq<char>>,
    key: Result<Option<KeyBytes>, Seq<char>>,
    c: Result<Vec<Vec<u8>>, String>,
    k: Result<PrivateKey, String>,
)
    requires
        judged_certificates(certificates, c),
        judged_key(key, k),
    ensures
        c is Ok <==> certificates is Ok,
        k is Ok <==> key is Ok && key->Ok_0 is Some,
        c matches Ok(list) ==> certificates matches Ok(read) && list@.len() == read.len() && (forall|
            i: int,
        | 0 <= i < read.len() ==> (#[trigger] list@[i])@ == read[i]),
        k matches Ok(one) ==> key->Ok_0 == Some(one@),
{
    if let Ok(list) = c {
        let read = certificates->Ok_0;
        assert(der_of(list@) == read);
        assert forall|i: int| 0 <= i < read.len() implies (#[trigger] list@[i])@ == read[i] by {
            assert(der_of(list@)[i] == read[i]);
        }
    }
}

} // verus!
