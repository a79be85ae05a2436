//! The certificate gate: a presented client certificate must chain to the
//! configured trust anchor.
use vstd::prelude::*;

verus! {

/// The signature algorithms a certificate chain may use.
#[derive(Debug, Clone, Copy, PartialEq, Eq, Structural)]
pub enum SignatureAlg {
    EcdsaP256Sha256,
    EcdsaP384Sha384,
    Ed25519,
}

/// Why a presented certificate was refused.
#[derive(Debug, PartialEq, Eq, Structural)]
pub enum VerifyError {
    /// The candidate is not a PEM-encoded X.509 certificate.
    MalformedCertificate,
    /// The certificate does not chain to the trust anchor at the given time
    /// under the allowed algorithms (including expired or future-dated).
    UntrustedCertificate,
}

/// Why a trust anchor could not be loaded.
#[derive(Debug, PartialEq, Eq, Structural)]
pub enum AnchorError {
    /// The bytes hold no PEM block.
    NotPem,
    /// The PEM block is not a certificate usable as a trust anchor.
    NotCertificate,
}

/// What a verified certificate grants; today, only that it is valid.
#[derive(Debug, PartialEq, Eq, Structural)]
pub struct AgentClaim {}

/// The DER contents of the first PEM block of `input`, if it holds one.
pub uninterp spec fn pem_contents(input: Seq<u8>) -> Option<Seq<u8>>;

/// `der` parses as an end-entity X.509 certificate.
pub uninterp spec fn is_end_entity_der(der: Seq<u8>) -> bool;

/// `der` parses as a certificate usable as a trust anchor.
pub uninterp spec fn is_anchor_der(der: Seq<u8>) -> bool;

/// `cert` is a valid TLS client certificate issued directly by the anchor
/// `ca`, signed with one of `algs`, at `now` seconds since the Unix epoch.
pub uninterp spec fn tls_client_valid(
    cert: Seq<u8>,
    ca: Seq<u8>,
    algs: Seq<SignatureAlg>,
    now: u64,
) -> bool;

/// Relies on x509_parser::pem::parse_x509_pem: decodes the first PEM block.
#[verifier::external_body]
fn pem_decode(input: &[u8]) -> (r: Option<Vec<u8>>)
    ensures
        match r {
            Some(v) => pem_contents(input@) == Some(v@),
            None => pem_contents(input@) is None,
        },
{
    match x509_parser::pem::parse_x509_pem(input) {
        Ok((_, pem)) => Some(pem.contents),
        Err(_) => None,
    }
}

/// Relies on webpki::EndEntityCert::try_from: parses the DER certificate.
#[verifier::external_body]
fn end_entity_parses(der: &[u8]) -> (r: bool)
    ensures
        r == is_end_entity_der(der@),
{
    webpki::EndEntityCert::try_from(der).is_ok()
}

/// Relies on webpki::TrustAnchor::try_from_cert_der: parses the DER anchor.
#[verifier::external_body]
fn anchor_parses(der: &[u8]) -> (r: bool)
    ensures
        r == is_anchor_der(der@),
{
    webpki::TrustAnchor::try_from_cert_der(der).is_ok()
}

/// Relies on webpki::EndEntityCert::verify_is_valid_tls_client_cert, with
/// the anchor as the only trust root and no intermediates. The bytes are
/// turned into webpki's certificate and anchor types, the algorithms into
/// webpki's statics and the seconds into `webpki::Time` on the way in.
#[verifier::external_body]
fn client_cert_valid(cert: &[u8], ca: &[u8], algs: &[SignatureAlg], now: u64) -> (r: bool)
    ensures
        r == tls_client_valid(cert@, ca@, algs@, now),
{
    let (Ok(anchor), Ok(ee)) = (webpki::TrustAnchor::try_from_cert_der(ca), webpki::EndEntityCert::try_from(cert)) else {
        return false;
    };
    let table: Vec<&webpki::SignatureAlgorithm> = algs.iter().map(|a| match a {
        SignatureAlg::EcdsaP256Sha256 => &webpki::ECDSA_P256_SHA256,
        SignatureAlg::EcdsaP384Sha384 => &webpki::ECDSA_P384_SHA384,
        SignatureAlg::Ed25519 => &webpki::ED25519,
    }).collect();
    let anchors = webpki::TlsClientTrustAnchors(&[anchor]);
    let time = webpki::Time::from_seconds_since_unix_epoch(now);
    ee.verify_is_valid_tls_client_cert(&table, &anchors, &[], time).is_ok()
}

/// The CA certificate that admitted agents must chain to, as DER.
pub struct TrustAnchor {
    der: Vec<u8>,
}

impl TrustAnchor {
    /// The DER bytes of the anchor certificate.
    pub closed spec fn der(&self) -> Seq<u8> {
        self.der@
    }

    /// Loads the anchor from PEM text: the first PEM block must parse as a
    /// certificate.
    pub fn from_pem(pem: &[u8]) -> (r: Result<TrustAnchor, AnchorError>)
        ensures
            match pem_contents(pem@) {
                None => r == Err::<TrustAnchor, AnchorError>(AnchorError::NotPem),
                Some(d) => if is_anchor_der(d) {
                    r matches Ok(a) && a.der() == d
                } else {
                    r == Err::<TrustAnchor, AnchorError>(AnchorError::NotCertificate)
                },
            },
    {
        match pem_decode(pem) {
            None => Err(AnchorError::NotPem),
            Some(der) => {
                if anchor_parses(der.as_slice()) {
                    Ok(TrustAnchor { der })
                } else {
                    Err(AnchorError::NotCertificate)
                }
            },
        }
    }
}

/// Admits agents whose certificates chain to one anchor under an explicit
/// list of signature algorithms.
pub struct Verifier {
    anchor: TrustAnchor,
    algs: Vec<SignatureAlg>,
}

/// The verdict on a candidate certificate in PEM form.
pub open spec fn verdict(
    candidate: Seq<u8>,
    ca: Seq<u8>,
    algs: Seq<SignatureAlg>,
    now: u64,
) -> Result<AgentClaim, VerifyError> {
    match pem_contents(candidate) {
        None => Err(VerifyError::MalformedCertificate),
        Some(d) => if !is_end_entity_der(d) {
            Err(VerifyError::MalformedCertificate)
        } else if tls_client_valid(d, ca, algs, now) {
            Ok(AgentClaim {  })
        } else {
            Err(VerifyError::UntrustedCertificate)
        },
    }
}

impl Verifier {
    /// The anchor's DER bytes.
    pub closed spec fn anchor_der(&self) -> Seq<u8> {
        self.anchor.der()
    }

    /// The allowed signature algorithms.
    pub closed spec fn algorithms(&self) -> Seq<SignatureAlg> {
        self.algs@
    }

    /// A verifier that allows ECDSA P-256 with SHA-256 only.
    pub fn new(anchor: TrustAnchor) -> (r: Verifier)
        ensures
            r.anchor_der() == anchor.der(),
            r.algorithms() == seq![SignatureAlg::EcdsaP256Sha256],
    {
        let algs = vec![SignatureAlg::EcdsaP256Sha256];
        Verifier { anchor, algs }
    }

    /// A verifier with an explicit list of allowed algorithms.
    pub fn with_algorithms(anchor: TrustAnchor, algs: Vec<SignatureAlg>) -> (r: Verifier)
        ensures
            r.anchor_der() == anchor.der(),
            r.algorithms() == algs@,
    {
        Verifier { anchor, algs }
    }

    /// Checks a candidate PEM certificate against the anchor at `now`
    /// seconds since the Unix epoch.
    pub fn verify(&self, candidate_pem: &[u8], now: u64) -> (r: Result<AgentClaim, VerifyError>)
        ensures
            r == verdict(candidate_pem@, self.anchor_der(), self.algorithms(), now),
    {
        match pem_decode(candidate_pem) {
            None => Err(VerifyError::MalformedCertificate),
            Some(der) => {
                if !end_entity_parses(der.as_slice()) {
                    Err(VerifyError::MalformedCertificate)
                } else if client_cert_valid(
                    der.as_slice(),
                    self.anchor.der.as_slice(),
                    self.algs.as_slice(),
                    now,
                ) {
                    Ok(AgentClaim {  })
                } else {
                    Err(VerifyError::UntrustedCertificate)
                }
            },
        }
    }
}

} // verus!
