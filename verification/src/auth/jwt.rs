//! JSON Web Token authentication.

use std::marker::PhantomData;

use jsonwebtoken::dangerous::insecure_decode;
use jsonwebtoken::{decode, DecodingKey, Validation};
use serde_json::value::RawValue;

use vstd::prelude::*;
#[allow(unused_imports)]
use vstd::string::StringExecFns;

use crate::extract::bearer::{parse_bearer, BearerTokenError};
#[allow(unused_imports)]
use crate::extract::bearer::parsed_bearer;
use crate::middleware::headers::HeaderField;
#[allow(unused_imports)]
use crate::text::optional_text;
use crate::text::{copy_option, copy_text, same, strip_prefix};
#[allow(unused_imports)]
use crate::text::texts;

verus! {

/// Cryptographic family of a key.
///
/// A key is used with algorithms of its own family alone, so that no token can have it read as a
/// key of another family.
#[derive(Clone, Copy, Debug, PartialEq, Eq, Structural)]
pub enum KeyFamily {
    /// Keyed hashes.
    Hmac,
    /// RSA signatures.
    Rsa,
    /// Elliptic curve signatures.
    Ec,
}

/// Signing algorithms.
#[derive(Clone, Copy, Debug, PartialEq, Eq, Structural)]
pub enum Algorithm {
    /// HMAC with SHA-256.
    HS256,
    /// HMAC with SHA-384.
    HS384,
    /// HMAC with SHA-512.
    HS512,
    /// ECDSA with SHA-256.
    ES256,
    /// ECDSA with SHA-384.
    ES384,
    /// RSASSA-PKCS1-v1_5 with SHA-256.
    RS256,
    /// RSASSA-PKCS1-v1_5 with SHA-384.
    RS384,
    /// RSASSA-PKCS1-v1_5 with SHA-512.
    RS512,
    /// RSASSA-PSS with SHA-256.
    PS256,
    /// RSASSA-PSS with SHA-384.
    PS384,
    /// RSASSA-PSS with SHA-512.
    PS512,
    /// Edwards-curve signatures.
    EdDSA,
}

/// The name of an algorithm in a token's header.
pub open spec fn algorithm_name(algorithm: Algorithm) -> Seq<char> {
    match algorithm {
        Algorithm::HS256 => "HS256"@,
        Algorithm::HS384 => "HS384"@,
        Algorithm::HS512 => "HS512"@,
        Algorithm::ES256 => "ES256"@,
        Algorithm::ES384 => "ES384"@,
        Algorithm::RS256 => "RS256"@,
        Algorithm::RS384 => "RS384"@,
        Algorithm::RS512 => "RS512"@,
        Algorithm::PS256 => "PS256"@,
        Algorithm::PS384 => "PS384"@,
        Algorithm::PS512 => "PS512"@,
        Algorithm::EdDSA => "EdDSA"@,
    }
}

impl Algorithm {
    /// The name of this algorithm in a token's header.
    pub fn name(self) -> (r: &'static str)
        ensures
            r@ == algorithm_name(self),
    {
        match self {
            Algorithm::HS256 => "HS256",
            Algorithm::HS384 => "HS384",
            Algorithm::HS512 => "HS512",
            Algorithm::ES256 => "ES256",
            Algorithm::ES384 => "ES384",
            Algorithm::RS256 => "RS256",
            Algorithm::RS384 => "RS384",
            Algorithm::RS512 => "RS512",
            Algorithm::PS256 => "PS256",
            Algorithm::PS384 => "PS384",
            Algorithm::PS512 => "PS512",
            Algorithm::EdDSA => "EdDSA",
        }
    }
}

/// Whether an algorithm belongs to a family.
pub open spec fn belongs(family: KeyFamily, algorithm: Algorithm) -> bool {
    match family {
        KeyFamily::Hmac => algorithm is HS256 || algorithm is HS384 || algorithm is HS512,
        KeyFamily::Rsa => algorithm is RS256 || algorithm is RS384 || algorithm is RS512
            || algorithm is PS256 || algorithm is PS384 || algorithm is PS512,
        KeyFamily::Ec => algorithm is ES256 || algorithm is ES384,
    }
}

/// Whether all algorithms belong to a family.
pub open spec fn all_belong(family: KeyFamily, algorithms: Seq<Algorithm>) -> bool {
    forall|i: int| 0 <= i < algorithms.len() ==> belongs(family, #[trigger] algorithms[i])
}

impl KeyFamily {
    /// Whether `algorithm` belongs to this key's family.
    pub fn permits(self, algorithm: Algorithm) -> (r: bool)
        ensures
            r == belongs(self, algorithm),
    {
        match self {
            KeyFamily::Hmac => matches!(
                algorithm,
                Algorithm::HS256 | Algorithm::HS384 | Algorithm::HS512
            ),
            KeyFamily::Rsa => matches!(
                algorithm,
                Algorithm::RS256 | Algorithm::RS384 | Algorithm::RS512 | Algorithm::PS256
                    | Algorithm::PS384 | Algorithm::PS512
            ),
            KeyFamily::Ec => matches!(algorithm, Algorithm::ES256 | Algorithm::ES384),
        }
    }

    /// The family's name.
    pub fn name(self) -> (r: &'static str)
        ensures
            r@ == family_name(self),
    {
        match self {
            KeyFamily::Hmac => "Hmac",
            KeyFamily::Rsa => "Rsa",
            KeyFamily::Ec => "Ec",
        }
    }
}

/// A family's name.
pub open spec fn family_name(family: KeyFamily) -> Seq<char> {
    match family {
        KeyFamily::Hmac => "Hmac"@,
        KeyFamily::Rsa => "Rsa"@,
        KeyFamily::Ec => "Ec"@,
    }
}

/// An algorithm was configured that the key cannot be used with.
#[derive(Debug, Clone, Copy, PartialEq, Eq)]
pub struct IncompatibleAlgorithm {
    /// The algorithm.
    pub algorithm: Algorithm,
    /// The key's family.
    pub family: KeyFamily,
}

impl IncompatibleAlgorithm {
    /// The error's text.
    pub fn message(&self) -> (r: String)
        ensures
            r@ == "JWT algorithm "@ + algorithm_name(self.algorithm)
                + " is incompatible with the configured "@ + family_name(self.family) + " key"@,
    {
        let mut text = copy_text("JWT algorithm ");
        text.append(self.algorithm.name());
        text.append(" is incompatible with the configured ");
        text.append(self.family.name());
        text.append(" key");
        text
    }
}

/// The key that tokens are verified with.
#[derive(Debug)]
pub enum KeyMaterial {
    /// The secret of a keyed hash.
    Secret(Vec<u8>),
    /// An RSA public key in PEM format.
    RsaPem(Vec<u8>),
    /// An elliptic curve public key in PEM format.
    EcPem(Vec<u8>),
}

/// A key as plain values.
pub enum KeyView {
    /// See [`KeyMaterial::Secret`].
    Secret(Seq<u8>),
    /// See [`KeyMaterial::RsaPem`].
    RsaPem(Seq<u8>),
    /// See [`KeyMaterial::EcPem`].
    EcPem(Seq<u8>),
}

impl View for KeyMaterial {
    type V = KeyView;

    open spec fn view(&self) -> KeyView {
        match self {
            KeyMaterial::Secret(bytes) => KeyView::Secret(bytes@),
            KeyMaterial::RsaPem(pem) => KeyView::RsaPem(pem@),
            KeyMaterial::EcPem(pem) => KeyView::EcPem(pem@),
        }
    }
}

/// The family of a key.
pub open spec fn family_of(key: KeyView) -> KeyFamily {
    match key {
        KeyView::Secret(_) => KeyFamily::Hmac,
        KeyView::RsaPem(_) => KeyFamily::Rsa,
        KeyView::EcPem(_) => KeyFamily::Ec,
    }
}

/// A key was not in the format it should be in.
#[derive(Debug, Clone, Copy, PartialEq, Eq)]
pub struct InvalidKey;

/// Whether `jsonwebtoken` can read an RSA public key from a PEM text.
pub uninterp spec fn is_rsa_pem(pem: Seq<u8>) -> bool;

/// Whether `jsonwebtoken` can read an elliptic curve public key from a PEM text.
pub uninterp spec fn is_ec_pem(pem: Seq<u8>) -> bool;

/// Whether `DecodingKey::from_rsa_pem` accepts a key. The result is named, not described.
#[verifier::external_body]
fn reads_rsa_pem(pem: &Vec<u8>) -> (r: bool)
    ensures
        r == is_rsa_pem(pem@),
{
    DecodingKey::from_rsa_pem(pem.as_slice()).is_ok()
}

/// Whether `DecodingKey::from_ec_pem` accepts a key. The result is named, not described.
#[verifier::external_body]
fn reads_ec_pem(pem: &Vec<u8>) -> (r: bool)
    ensures
        r == is_ec_pem(pem@),
{
    DecodingKey::from_ec_pem(pem.as_slice()).is_ok()
}

/// What tokens are verified against.
#[derive(Debug)]
pub struct JwtConfig {
    key: KeyMaterial,
    algorithms: Vec<Algorithm>,
    issuer: Option<String>,
    audience: Option<String>,
    validate_exp: bool,
    leeway: u64,
}

/// A configuration as plain values.
#[verifier::ext_equal]
pub struct JwtConfigView {
    /// The key.
    pub key: KeyView,
    /// The algorithms that are accepted.
    pub algorithms: Seq<Algorithm>,
    /// The issuer that is required, if one is.
    pub issuer: Option<Seq<char>>,
    /// The audience that is required, if one is.
    pub audience: Option<Seq<char>>,
    /// Whether expired tokens are refused.
    pub validate_exp: bool,
    /// The leeway for times in seconds.
    pub leeway: u64,
}

impl View for JwtConfig {
    type V = JwtConfigView;

    closed spec fn view(&self) -> JwtConfigView {
        JwtConfigView {
            key: self.key@,
            algorithms: self.algorithms@,
            issuer: optional_text(self.issuer),
            audience: optional_text(self.audience),
            validate_exp: self.validate_exp,
            leeway: self.leeway,
        }
    }
}

/// The longest leeway, in seconds: the present time less the leeway may not be before the epoch.
pub const MAX_LEEWAY: u64 = 1_000_000_000;

/// The leeway, in seconds, where none is configured.
pub const DEFAULT_LEEWAY: u64 = 60;

/// Whether a key is in the format it should be in.
pub open spec fn is_readable(key: KeyView) -> bool {
    match key {
        KeyView::Secret(_) => true,
        KeyView::RsaPem(pem) => is_rsa_pem(pem),
        KeyView::EcPem(pem) => is_ec_pem(pem),
    }
}

impl JwtConfig {
    #[verifier::type_invariant]
    spec fn is_sound(&self) -> bool {
        &&& is_readable(self.key@)
        &&& self.leeway <= MAX_LEEWAY
    }
}

/// Whether a configuration accepts only algorithms of its key's family.
pub open spec fn is_consistent(config: JwtConfigView) -> bool {
    all_belong(family_of(config.key), config.algorithms)
}

/// A configuration with nothing but a key and an algorithm.
pub open spec fn plain_config(key: KeyView, algorithm: Algorithm) -> JwtConfigView {
    JwtConfigView {
        key,
        algorithms: seq![algorithm],
        issuer: None,
        audience: None,
        validate_exp: true,
        leeway: DEFAULT_LEEWAY,
    }
}

fn config_for(key: KeyMaterial, algorithm: Algorithm) -> (r: JwtConfig)
    requires
        is_readable(key@),
    ensures
        r@ == plain_config(key@, algorithm),
{
    let mut algorithms: Vec<Algorithm> = Vec::new();
    algorithms.push(algorithm);
    let r = JwtConfig {
        key,
        algorithms,
        issuer: None,
        audience: None,
        validate_exp: true,
        leeway: DEFAULT_LEEWAY,
    };
    assert(r@ =~= plain_config(key@, algorithm));
    r
}

impl JwtConfig {
    /// A configuration with a secret; HS256 is accepted.
    pub fn with_secret(secret: Vec<u8>) -> (r: Self)
        ensures
            r@ == plain_config(KeyView::Secret(secret@), Algorithm::HS256),
            is_consistent(r@),
    {
        config_for(KeyMaterial::Secret(secret), Algorithm::HS256)
    }

    /// A configuration with an RSA public key in PEM format; RS256 is accepted.
    pub fn with_rsa_pem(pem: Vec<u8>) -> (r: Result<Self, InvalidKey>)
        ensures
            match r {
                Ok(config) => is_rsa_pem(pem@) && config@ == plain_config(
                    KeyView::RsaPem(pem@),
                    Algorithm::RS256,
                ) && is_consistent(config@),
                Err(_) => !is_rsa_pem(pem@),
            },
    {
        if reads_rsa_pem(&pem) {
            Ok(config_for(KeyMaterial::RsaPem(pem), Algorithm::RS256))
        } else {
            Err(InvalidKey)
        }
    }

    /// A configuration with an elliptic curve public key in PEM format; ES256 is accepted.
    pub fn with_ec_pem(pem: Vec<u8>) -> (r: Result<Self, InvalidKey>)
        ensures
            match r {
                Ok(config) => is_ec_pem(pem@) && config@ == plain_config(
                    KeyView::EcPem(pem@),
                    Algorithm::ES256,
                ) && is_consistent(config@),
                Err(_) => !is_ec_pem(pem@),
            },
    {
        if reads_ec_pem(&pem) {
            Ok(config_for(KeyMaterial::EcPem(pem), Algorithm::ES256))
        } else {
            Err(InvalidKey)
        }
    }

    /// Set the expected issuer claim.
    pub fn with_issuer(self, issuer: &str) -> (r: Self)
        ensures
            r@ == (JwtConfigView { issuer: Some(issuer@), ..self@ }),
    {
        proof {
            use_type_invariant(&self);
        }
        let mut config = self;
        config.issuer = Some(copy_text(issuer));
        config
    }

    /// Set the expected audience claim.
    pub fn with_audience(self, audience: &str) -> (r: Self)
        ensures
            r@ == (JwtConfigView { audience: Some(audience@), ..self@ }),
    {
        proof {
            use_type_invariant(&self);
        }
        let mut config = self;
        config.audience = Some(copy_text(audience));
        config
    }

    /// The family of the key.
    pub fn key_family(&self) -> (r: KeyFamily)
        ensures
            r == family_of(self@.key),
    {
        match &self.key {
            KeyMaterial::Secret(_) => KeyFamily::Hmac,
            KeyMaterial::RsaPem(_) => KeyFamily::Rsa,
            KeyMaterial::EcPem(_) => KeyFamily::Ec,
        }
    }

    /// Whether the key can be used with all of these algorithms; the first that it cannot be used
    /// with is reported.
    pub fn check_algorithms(&self, algorithms: &Vec<Algorithm>) -> (r: Result<
        (),
        IncompatibleAlgorithm,
    >)
        ensures
            match r {
                Ok(_) => all_belong(family_of(self@.key), algorithms@),
                Err(error) => error.family == family_of(self@.key) && exists|i: int|
                    0 <= i < algorithms@.len() && !belongs(error.family, #[trigger] algorithms@[i])
                        && error.algorithm == algorithms@[i] && all_belong(
                        error.family,
                        algorithms@.take(i),
                    ),
            },
    {
        let family = self.key_family();
        let mut i: usize = 0;
        while i < algorithms.len()
            invariant
                i <= algorithms.len(),
                family == family_of(self@.key),
                forall|j: int| 0 <= j < i ==> belongs(family, #[trigger] algorithms@[j]),
            decreases algorithms.len() - i,
        {
            if !family.permits(algorithms[i]) {
                assert(all_belong(family, algorithms@.take(i as int)));
                return Err(IncompatibleAlgorithm { algorithm: algorithms[i], family });
            }
            i = i + 1;
        }
        Ok(())
    }

    /// Restrict verification to the given algorithms, which must all belong to the key's family.
    pub fn with_algorithms(self, algorithms: Vec<Algorithm>) -> (r: Self)
        requires
            all_belong(family_of(self@.key), algorithms@),
        ensures
            r@ == (JwtConfigView { algorithms: algorithms@, ..self@ }),
            is_consistent(r@),
    {
        proof {
            use_type_invariant(&self);
        }
        let mut config = self;
        config.algorithms = algorithms;
        config
    }

    /// Disable expiration validation, for testing or where expiration is handled elsewhere.
    pub fn without_expiration_validation(self) -> (r: Self)
        ensures
            r@ == (JwtConfigView { validate_exp: false, ..self@ }),
    {
        proof {
            use_type_invariant(&self);
        }
        let mut config = self;
        config.validate_exp = false;
        config
    }

    /// Set the leeway (in seconds) for time-based claims.
    pub fn with_leeway(self, leeway: u64) -> (r: Self)
        requires
            leeway <= MAX_LEEWAY,
        ensures
            r@ == (JwtConfigView { leeway, ..self@ }),
    {
        proof {
            use_type_invariant(&self);
        }
        let mut config = self;
        config.leeway = leeway;
        config
    }

    /// The names of the accepted algorithms.
    pub fn algorithm_names(&self) -> (r: Vec<String>)
        ensures
            texts(r@) == names_of(self@.algorithms),
    {
        let mut names: Vec<String> = Vec::new();
        let mut i: usize = 0;
        while i < self.algorithms.len()
            invariant
                i <= self.algorithms.len(),
                names.len() == i,
                forall|j: int|
                    0 <= j < i ==> (#[trigger] names@[j])@ == algorithm_name(self.algorithms@[j]),
            decreases self.algorithms.len() - i,
        {
            names.push(copy_text(self.algorithms[i].name()));
            i = i + 1;
        }
        assert(texts(names@) =~= self@.algorithms.map_values(|a: Algorithm| algorithm_name(a)));
        names
    }
}

/// What `jsonwebtoken` makes of a token with a key, the names of the accepted algorithms, the required
/// issuer and audience and the rules for its expiration, at a time in seconds since the epoch: its
/// claims as a JSON text, or the text of the error.
pub uninterp spec fn decoded(
    key: KeyView,
    algorithms: Seq<Seq<char>>,
    issuer: Option<Seq<char>>,
    audience: Option<Seq<char>>,
    validate_exp: bool,
    leeway: u64,
    token: Seq<char>,
    now: u64,
) -> Result<Seq<char>, Seq<char>>;

/// The names of algorithms.
pub open spec fn names_of(algorithms: Seq<Algorithm>) -> Seq<Seq<char>> {
    algorithms.map_values(|a: Algorithm| algorithm_name(a))
}

/// What comes of a token under a configuration at a time.
pub open spec fn decoded_under(config: JwtConfigView, token: Seq<char>, now: u64) -> Result<
    Seq<char>,
    Seq<char>,
> {
    decoded(
        config.key,
        names_of(config.algorithms),
        config.issuer,
        config.audience,
        config.validate_exp,
        config.leeway,
        token,
        now,
    )
}

/// What comes of a token under a configuration where its expiration is not looked at: the time is
/// then of no account.
pub open spec fn decoded_timelessly(config: JwtConfigView, token: Seq<char>) -> Result<
    Seq<char>,
    Seq<char>,
> {
    decoded_under(JwtConfigView { validate_exp: false, leeway: 0, ..config }, token, 0)
}

/// Whether a token that comes to this, where its expiration is not looked at, may be refused for its
/// expiration: its signature is in order and it has the claims it must have. Who issued it, and whom
/// it is for, is looked at afterwards.
pub open spec fn may_expire(timeless: Result<Seq<char>, Seq<char>>) -> bool {
    match timeless {
        Ok(_) => true,
        Err(error) => error == "InvalidIssuer"@ || error == "InvalidAudience"@ || error
            == "InvalidSubject"@,
    }
}

/// Whether a token may have been decoded to this, given what comes of it where the expiration is not
/// looked at: it may have expired, where that is validated, and is otherwise decoded to the same.
pub open spec fn may_be(
    result: Result<Seq<char>, Seq<char>>,
    timeless: Result<Seq<char>, Seq<char>>,
    validate_exp: bool,
) -> bool {
    result == timeless || (validate_exp && may_expire(timeless) && result == Err::<
        Seq<char>,
        Seq<char>,
    >("ExpiredSignature"@))
}

/// A result with its texts as sequences of characters.
pub open spec fn result_texts(r: Result<String, String>) -> Result<Seq<char>, Seq<char>> {
    match r {
        Ok(text) => Ok(text@),
        Err(text) => Err(text@),
    }
}

/// Hands a token to `jsonwebtoken::decode` with the key and the validation rules of a configuration,
/// and gives back the claims as the JSON text they are, or the text of the error. The result depends
/// on the present time, which only decides whether the token has expired.
#[verifier::external_body]
fn decode_token(
    key: &KeyMaterial,
    names: &Vec<String>,
    issuer: Option<String>,
    audience: Option<String>,
    validate_exp: bool,
    leeway: u64,
    token: &str,
) -> (r: Result<String, String>)
    requires
        is_readable(key@),
        exists|algorithms: Seq<Algorithm>| texts(names@) == #[trigger] names_of(algorithms),
        leeway <= MAX_LEEWAY,
    ensures
        exists|now: u64|
            result_texts(r) == #[trigger] decoded(
                key@,
                texts(names@),
                optional_text(issuer),
                optional_text(audience),
                validate_exp,
                leeway,
                token@,
                now,
            ),
        may_be(
            result_texts(r),
            decoded(
                key@,
                texts(names@),
                optional_text(issuer),
                optional_text(audience),
                false,
                0,
                token@,
                0,
            ),
            validate_exp,
        ),
{
    let key = match key {
        KeyMaterial::Secret(secret) => DecodingKey::from_secret(secret),
        KeyMaterial::RsaPem(pem) => DecodingKey::from_rsa_pem(pem).unwrap(),
        KeyMaterial::EcPem(pem) => DecodingKey::from_ec_pem(pem).unwrap(),
    };
    let mut rules = Validation::default();
    rules.algorithms = names.iter().map(|name| name.parse().unwrap()).collect();
    rules.validate_exp = validate_exp;
    rules.leeway = leeway;
    rules.iss = issuer.map(|issuer| [issuer].into());
    rules.aud = audience.map(|audience| [audience].into());
    let decoded = decode::<Box<RawValue>>(token, &key, &rules).map_err(|e| e.to_string())?;
    Ok(decoded.claims.get().to_owned())
}

/// The claims that a token carries, as a JSON text, where it has the form of a token.
pub uninterp spec fn carried_claims(token: Seq<char>) -> Option<Seq<char>>;

/// Reads the claims of a token with `jsonwebtoken::dangerous::insecure_decode`, which verifies
/// nothing; the result is a function of the token alone.
#[verifier::external_body]
fn claims_of(token: &str) -> (r: Option<String>)
    ensures
        optional_text(r) == carried_claims(token@),
{
    Some(insecure_decode::<Box<RawValue>>(token).ok()?.claims.get().to_owned())
}

/// Error returned when JWT authentication fails.
#[derive(Debug, Clone, Copy, PartialEq, Eq)]
pub enum JwtError {
    /// The Authorization header is missing, malformed, or not a Bearer credential.
    Header(BearerTokenError),
    /// The JWT signature is invalid.
    InvalidSignature,
    /// The token's signing algorithm is not accepted.
    InvalidAlgorithm,
    /// The JWT has expired.
    Expired,
    /// The JWT is not yet valid.
    NotYetValid,
    /// The JWT claims are invalid.
    InvalidClaims,
    /// The JWT is malformed and cannot be parsed.
    Malformed,
}

/// What a token that could not be decoded is answered with, given the text of the error.
pub open spec fn refusal(error: Seq<char>) -> JwtError {
    if error == "InvalidSignature"@ {
        JwtError::InvalidSignature
    } else if error == "ExpiredSignature"@ {
        JwtError::Expired
    } else if error == "ImmatureSignature"@ {
        JwtError::NotYetValid
    } else if error == "InvalidIssuer"@ || error == "InvalidAudience"@ || error
        == "InvalidSubject"@ || "Missing required claim: "@.is_prefix_of(error) {
        JwtError::InvalidClaims
    } else if error == "InvalidAlgorithm"@ || error == "InvalidAlgorithmName"@ || error
        == "MissingAlgorithm"@ {
        JwtError::InvalidAlgorithm
    } else {
        JwtError::Malformed
    }
}

/// Whether an error says something of claims, which are then known to be signed.
pub open spec fn is_about_claims(error: JwtError) -> bool {
    error is Expired || error is NotYetValid || error is InvalidClaims
}

impl JwtError {
    /// What a token that could not be decoded is answered with, given the text of the error.
    pub fn from_failure(error: &str) -> (r: Self)
        ensures
            r == refusal(error@),
    {
        if same(error, "InvalidSignature") {
            JwtError::InvalidSignature
        } else if same(error, "ExpiredSignature") {
            JwtError::Expired
        } else if same(error, "ImmatureSignature") {
            JwtError::NotYetValid
        } else if same(error, "InvalidIssuer") || same(error, "InvalidAudience") || same(
            error,
            "InvalidSubject",
        ) || strip_prefix(error, "Missing required claim: ").is_some() {
            JwtError::InvalidClaims
        } else if same(error, "InvalidAlgorithm") || same(error, "InvalidAlgorithmName") || same(
            error,
            "MissingAlgorithm",
        ) {
            JwtError::InvalidAlgorithm
        } else {
            JwtError::Malformed
        }
    }

    /// Whether the error says something of claims.
    pub fn concerns_claims(self) -> (r: bool)
        ensures
            r == is_about_claims(self),
    {
        match self {
            JwtError::Expired => true,
            JwtError::NotYetValid => true,
            JwtError::InvalidClaims => true,
            _ => false,
        }
    }

    /// The error's text.
    pub fn message(&self) -> (r: String)
        ensures
            r@ == match self {
                JwtError::Header(_) => "Invalid Authorization header"@,
                JwtError::InvalidSignature => "Invalid token signature"@,
                JwtError::InvalidAlgorithm => "Unsupported or disallowed token algorithm"@,
                JwtError::Expired => "Token has expired"@,
                JwtError::NotYetValid => "Token is not yet valid"@,
                JwtError::InvalidClaims => "Invalid token claims"@,
                JwtError::Malformed => "Malformed token"@,
            },
    {
        match self {
            JwtError::Header(_) => copy_text("Invalid Authorization header"),
            JwtError::InvalidSignature => copy_text("Invalid token signature"),
            JwtError::InvalidAlgorithm => copy_text("Unsupported or disallowed token algorithm"),
            JwtError::Expired => copy_text("Token has expired"),
            JwtError::NotYetValid => copy_text("Token is not yet valid"),
            JwtError::InvalidClaims => copy_text("Invalid token claims"),
            JwtError::Malformed => copy_text("Malformed token"),
        }
    }

    /// The status the error is answered with.
    pub fn status(&self) -> (r: u16)
        ensures
            r == 401,
    {
        401
    }
}

/// Verifies the tokens of requests. `C` is what the claims are read as.
#[derive(Debug)]
pub struct JwtAuthenticator<C> {
    config: JwtConfig,
    _claims: PhantomData<C>,
}

/// What follows from a token's decoding, given what its claims were read as. Claims that cannot be
/// read make a token malformed, even where they would be refused for what they say.
pub open spec fn conclusion<C>(refused: Option<JwtError>, claims: Option<C>) -> Result<C, JwtError> {
    match refused {
        None => match claims {
            Some(claims) => Ok(claims),
            None => Err(JwtError::Malformed),
        },
        Some(error) => if is_about_claims(error) && claims is None {
            Err(JwtError::Malformed)
        } else {
            Err(error)
        },
    }
}

/// What follows from a token's decoding, given what its claims were read as.
pub fn conclude<C>(refused: Option<JwtError>, claims: Option<C>) -> (r: Result<C, JwtError>)
    ensures
        r == conclusion(refused, claims),
{
    match refused {
        None => match claims {
            Some(claims) => Ok(claims),
            None => Err(JwtError::Malformed),
        },
        Some(error) => if error.concerns_claims() && claims.is_none() {
            Err(JwtError::Malformed)
        } else {
            Err(error)
        },
    }
}

/// Whether `claims` is what a parser may make of a JSON text, which may be missing.
pub open spec fn may_read<C, P: Fn(&String) -> Option<C>>(
    parse: P,
    text: Option<Seq<char>>,
    claims: Option<C>,
) -> bool {
    match text {
        Some(text) => exists|given: String| given@ == text && #[trigger] call_ensures(
            parse,
            (&given,),
            claims,
        ),
        None => claims is None,
    }
}

/// Whether a token is answered with `r`, where it was decoded to `result` and its claims were read
/// as `claims`.
pub open spec fn answers<C, P: Fn(&String) -> Option<C>>(
    parse: P,
    token: Seq<char>,
    result: Result<Seq<char>, Seq<char>>,
    claims: Option<C>,
    r: Result<C, JwtError>,
) -> bool {
    match result {
        Ok(text) => may_read(parse, Some(text), claims) && r == conclusion(None, claims),
        Err(error) => if is_about_claims(refusal(error)) {
            may_read(parse, carried_claims(token), claims) && r == conclusion(
                Some(refusal(error)),
                claims,
            )
        } else {
            r == Err::<C, JwtError>(refusal(error))
        },
    }
}

impl<C> JwtAuthenticator<C> {
    /// What tokens are verified against.
    pub closed spec fn rules(&self) -> JwtConfigView {
        self.config@
    }

    /// An authenticator with the given configuration.
    pub fn new(config: JwtConfig) -> (r: Self)
        ensures
            r.rules() == config@,
    {
        JwtAuthenticator { config, _claims: PhantomData }
    }

    /// The token to verify for a request.
    pub fn token_of(header: &HeaderField) -> (r: Result<String, JwtError>)
        ensures
            match parsed_bearer(*header) {
                Ok(token) => r is Ok && r->Ok_0@ == token,
                Err(error) => r == Err::<String, JwtError>(JwtError::Header(error)),
            },
    {
        match parse_bearer(header) {
            Ok(token) => Ok(token),
            Err(error) => Err(JwtError::Header(error)),
        }
    }

    /// Whether a request with this token is answered with `r`, where the token was decoded at the
    /// time `now` and the claims were read as `claims`.
    pub open spec fn authenticates<P: Fn(&String) -> Option<C>>(
        &self,
        parse: P,
        token: Seq<char>,
        now: u64,
        claims: Option<C>,
        r: Result<C, JwtError>,
    ) -> bool {
        let result = decoded_under(self.rules(), token, now);
        &&& may_be(result, decoded_timelessly(self.rules(), token), self.rules().validate_exp)
        &&& answers(parse, token, result, claims, r)
    }

    /// The claims of the token a request carries, read with `parse` from their JSON text.
    ///
    /// A request without a Bearer credential is refused for its header. Any other is answered by
    /// what its token decodes to under the configuration.
    pub fn authenticate<P: Fn(&String) -> Option<C>>(&self, header: &HeaderField, parse: P) -> (r:
        Result<C, JwtError>)
        requires
            forall|text: &String| call_requires(parse, (text,)),
        ensures
            match parsed_bearer(*header) {
                Ok(token) => exists|now: u64, claims: Option<C>| #[trigger]
                    self.authenticates(parse, token, now, claims, r),
                Err(error) => r == Err::<C, JwtError>(JwtError::Header(error)),
            },
    {
        let token = match Self::token_of(header) {
            Ok(token) => token,
            Err(error) => {
                return Err(error);
            },
        };
        proof {
            use_type_invariant(&self.config);
        }
        let names = self.config.algorithm_names();
        let outcome = decode_token(
            &self.config.key,
            &names,
            copy_option(&self.config.issuer),
            copy_option(&self.config.audience),
            self.config.validate_exp,
            self.config.leeway,
            token.as_str(),
        );
        let ghost now = choose|now: u64|
            result_texts(outcome) == #[trigger] decoded_under(self.config@, token@, now);
        assert(result_texts(outcome) == decoded_under(self.config@, token@, now)) by {
            let at = choose|at: u64|
                result_texts(outcome) == #[trigger] decoded(
                    self.config.key@,
                    texts(names@),
                    optional_text(self.config.issuer),
                    optional_text(self.config.audience),
                    self.config.validate_exp,
                    self.config.leeway,
                    token@,
                    at,
                );
            assert(result_texts(outcome) == decoded_under(self.config@, token@, at));
        }
        match outcome {
            Ok(text) => {
                let claims = parse(&text);
                assert(may_read(parse, Some(text@), claims));
                let ghost read = claims;
                let r = conclude(None, claims);
                assert(self.authenticates(parse, token@, now, read, r));
                r
            },
            Err(error) => {
                let refused = JwtError::from_failure(error.as_str());
                if !refused.concerns_claims() {
                    let r = Err(refused);
                    assert(self.authenticates(parse, token@, now, None::<C>, r));
                    return r;
                }
                let claims = match claims_of(token.as_str()) {
                    Some(text) => {
                        let claims = parse(&text);
                        assert(may_read(parse, Some(text@), claims));
                        claims
                    },
                    None => None,
                };
                let ghost read = claims;
                let r = conclude(Some(refused), claims);
                assert(self.authenticates(parse, token@, now, read, r));
                r
            },
        }
    }
}

/// No algorithm belongs to two families, so a key is never used as a key of another family.
pub proof fn families_are_disjoint(a: KeyFamily, b: KeyFamily, algorithm: Algorithm)
    requires
        belongs(a, algorithm),
        belongs(b, algorithm),
    ensures
        a == b,
{
}

/// An algorithm's name tells its family and its hash, and no two algorithms have the same name.
pub proof fn a_name_tells_the_algorithm(a: Algorithm, b: Algorithm)
    ensures
        belongs(KeyFamily::Hmac, a) <==> algorithm_name(a)[0] == 'H',
        belongs(KeyFamily::Rsa, a) <==> algorithm_name(a)[0] == 'R' || algorithm_name(a)[0] == 'P',
        belongs(KeyFamily::Ec, a) <==> algorithm_name(a)[0] == 'E' && algorithm_name(a)[1] == 'S',
        a is EdDSA <==> algorithm_name(a)[1] == 'd',
        algorithm_name(a)[0] == 'P' <==> a is PS256 || a is PS384 || a is PS512,
        algorithm_name(a)[2] == '2' <==> a is HS256 || a is ES256 || a is RS256 || a is PS256,
        algorithm_name(a)[2] == '3' <==> a is HS384 || a is ES384 || a is RS384 || a is PS384,
        algorithm_name(a)[2] == '5' <==> a is HS512 || a is RS512 || a is PS512,
        algorithm_name(a) == algorithm_name(b) ==> a == b,
{
    reveal_strlit("HS256");
    reveal_strlit("HS384");
    reveal_strlit("HS512");
    reveal_strlit("ES256");
    reveal_strlit("ES384");
    reveal_strlit("RS256");
    reveal_strlit("RS384");
    reveal_strlit("RS512");
    reveal_strlit("PS256");
    reveal_strlit("PS384");
    reveal_strlit("PS512");
    reveal_strlit("EdDSA");
    assert("HS256"@[0] == 'H' && "HS256"@[1] == 'S' && "HS256"@[2] == '2');
    assert("HS384"@[0] == 'H' && "HS384"@[1] == 'S' && "HS384"@[2] == '3');
    assert("HS512"@[0] == 'H' && "HS512"@[1] == 'S' && "HS512"@[2] == '5');
    assert("ES256"@[0] == 'E' && "ES256"@[1] == 'S' && "ES256"@[2] == '2');
    assert("ES384"@[0] == 'E' && "ES384"@[1] == 'S' && "ES384"@[2] == '3');
    assert("RS256"@[0] == 'R' && "RS256"@[1] == 'S' && "RS256"@[2] == '2');
    assert("RS384"@[0] == 'R' && "RS384"@[1] == 'S' && "RS384"@[2] == '3');
    assert("RS512"@[0] == 'R' && "RS512"@[1] == 'S' && "RS512"@[2] == '5');
    assert("PS256"@[0] == 'P' && "PS256"@[1] == 'S' && "PS256"@[2] == '2');
    assert("PS384"@[0] == 'P' && "PS384"@[1] == 'S' && "PS384"@[2] == '3');
    assert("PS512"@[0] == 'P' && "PS512"@[1] == 'S' && "PS512"@[2] == '5');
    assert("EdDSA"@[0] == 'E' && "EdDSA"@[1] == 'd' && "EdDSA"@[2] == 'D');
}

/// A key belongs to the family of what it is.
pub proof fn a_key_is_of_its_own_family(key: KeyView)
    ensures
        key is Secret <==> family_of(key) == KeyFamily::Hmac,
        key is RsaPem <==> family_of(key) == KeyFamily::Rsa,
        key is EcPem <==> family_of(key) == KeyFamily::Ec,
{
}

/// A new configuration accepts its one algorithm and refuses expired tokens after a minute; it
/// requires no issuer and no audience.
pub proof fn a_new_configuration_looks_at_the_expiration(key: KeyView, algorithm: Algorithm)
    ensures
        plain_config(key, algorithm).key == key,
        plain_config(key, algorithm).algorithms == seq![algorithm],
        plain_config(key, algorithm).validate_exp,
        plain_config(key, algorithm).leeway == 60,
        plain_config(key, algorithm).issuer is None,
        plain_config(key, algorithm).audience is None,
{
}

/// A token is decoded with the key that is configured, against the issuer, the audience and the
/// leeway that are configured, for exactly the algorithms that are accepted.
pub proof fn a_token_is_held_to_the_configuration(
    key: KeyView,
    algorithms: Seq<Algorithm>,
    names: Seq<Seq<char>>,
    issuer: Option<Seq<char>>,
    audience: Option<Seq<char>>,
    validate_exp: bool,
    leeway: u64,
    token: Seq<char>,
    now: u64,
)
    requires
        names.len() == algorithms.len(),
        forall|i: int|
            0 <= i < names.len() ==> #[trigger] names[i] == algorithm_name(algorithms[i]),
    ensures
        decoded_under(
            JwtConfigView { key, algorithms, issuer, audience, validate_exp, leeway },
            token,
            now,
        ) == decoded(key, names, issuer, audience, validate_exp, leeway, token, now),
{
    assert(names_of(algorithms) =~= names);
}

/// Only a token that was decoded is accepted, with the claims that were read from it; where they
/// cannot be read it is malformed.
pub proof fn only_a_decoded_token_is_accepted<C, P: Fn(&String) -> Option<C>>(
    authenticator: JwtAuthenticator<C>,
    parse: P,
    token: Seq<char>,
    now: u64,
    claims: Option<C>,
    r: Result<C, JwtError>,
)
    requires
        authenticator.authenticates(parse, token, now, claims, r),
    ensures
        ({
            let result = decoded_under(authenticator.rules(), token, now);
            &&& r is Ok <==> result is Ok && claims is Some
            &&& r is Ok ==> claims == Some(r->Ok_0) && exists|given: String|
                given@ == result->Ok_0 && #[trigger] call_ensures(parse, (&given,), claims)
            &&& result is Ok && claims is None ==> r == Err::<C, JwtError>(JwtError::Malformed)
            &&& result is Err && !(claims is None && (refusal(result->Err_0) is Expired || refusal(
                result->Err_0,
            ) is NotYetValid || refusal(result->Err_0) is InvalidClaims)) ==> r == Err::<
                C,
                JwtError,
            >(refusal(result->Err_0))
        }),
{
}

/// Where the expiration is not validated, no token is refused for it, whatever the time.
pub proof fn time_is_of_no_account_without_validation<C, P: Fn(&String) -> Option<C>>(
    authenticator: JwtAuthenticator<C>,
    parse: P,
    token: Seq<char>,
    now: u64,
    claims: Option<C>,
    r: Result<C, JwtError>,
)
    requires
        authenticator.authenticates(parse, token, now, claims, r),
        !authenticator.rules().validate_exp,
    ensures
        decoded_under(authenticator.rules(), token, now) == decoded_timelessly(
            authenticator.rules(),
            token,
        ),
{
}

/// A refusal tells what was wrong: each kind comes of its own errors and of no others.
pub proof fn a_refusal_tells_what_was_wrong(error: Seq<char>, claim: Seq<char>)
    ensures
        refusal(error) is InvalidSignature <==> error == "InvalidSignature"@,
        refusal(error) is Expired <==> error == "ExpiredSignature"@,
        refusal(error) is NotYetValid <==> error == "ImmatureSignature"@,
        refusal("Missing required claim: "@ + claim) is InvalidClaims,
        refusal("InvalidIssuer"@) is InvalidClaims,
        refusal("InvalidAudience"@) is InvalidClaims,
        refusal("InvalidSubject"@) is InvalidClaims,
        refusal("InvalidAlgorithm"@) is InvalidAlgorithm,
        refusal("InvalidAlgorithmName"@) is InvalidAlgorithm,
        refusal("MissingAlgorithm"@) is InvalidAlgorithm,
        error.len() == 0 ==> refusal(error) is Malformed,
        !(refusal(error) is Header),
{
    reveal_strlit("InvalidSignature");
    reveal_strlit("ExpiredSignature");
    reveal_strlit("ImmatureSignature");
    reveal_strlit("InvalidIssuer");
    reveal_strlit("InvalidAudience");
    reveal_strlit("InvalidSubject");
    reveal_strlit("InvalidAlgorithm");
    reveal_strlit("InvalidAlgorithmName");
    reveal_strlit("MissingAlgorithm");
    reveal_strlit("Missing required claim: ");
    let missing = "Missing required claim: "@;
    let whole = missing + claim;
    assert(missing =~= whole.subrange(0, missing.len() as int));
    assert(whole[0] == 'M' && whole[7] == ' ');
    assert("InvalidSignature"@[7] == 'S' && "ExpiredSignature"@[0] == 'E' && "ImmatureSignature"@[1]
        == 'm' && "ImmatureSignature"@[0] == 'I');
    assert("InvalidSignature"@[1] == 'n' && "InvalidSignature"@[0] == 'I');
    assert("InvalidSignature"@.len() == 16 && "ExpiredSignature"@.len() == 16
        && "ImmatureSignature"@.len() == 17 && missing.len() == 24);
    assert("InvalidIssuer"@.len() == 13 && "InvalidAudience"@.len() == 15
        && "InvalidSubject"@.len() == 14 && "InvalidAlgorithm"@.len() == 16
        && "InvalidAlgorithmName"@.len() == 20 && "MissingAlgorithm"@.len() == 16);
    assert("InvalidAlgorithm"@[7] == 'A' && "InvalidAlgorithm"@[0] == 'I' && "MissingAlgorithm"@[0]
        == 'M' && "MissingAlgorithm"@[7] == 'A');
    if missing.is_prefix_of(error) {
        assert(error.len() >= 24);
    }
}

/// A token whose claims cannot be read is malformed, even where it would be refused for what they
/// say; a token that is refused for anything else is refused for that, whatever its claims.
pub proof fn unreadable_claims_are_malformed<C>(claims: C, other: Option<C>, error: JwtError)
    ensures
        conclusion(None, Some(claims)) == Ok::<C, JwtError>(claims),
        conclusion(None, None::<C>) == Err::<C, JwtError>(JwtError::Malformed),
        conclusion(Some(JwtError::Expired), None::<C>) == Err::<C, JwtError>(JwtError::Malformed),
        conclusion(Some(JwtError::NotYetValid), None::<C>) == Err::<C, JwtError>(
            JwtError::Malformed,
        ),
        conclusion(Some(JwtError::InvalidClaims), None::<C>) == Err::<C, JwtError>(
            JwtError::Malformed,
        ),
        conclusion(Some(error), Some(claims)) == Err::<C, JwtError>(error),
        error is Header || error is InvalidSignature || error is InvalidAlgorithm
            || error is Malformed ==> conclusion(Some(error), other) == Err::<C, JwtError>(error),
        is_about_claims(error) <==> error is Expired || error is NotYetValid
            || error is InvalidClaims,
{
}

/// A configuration is consistent exactly where each algorithm that it accepts belongs to the family
/// of its key, and families have names of their own.
pub proof fn a_consistent_configuration_mixes_no_families(
    config: JwtConfigView,
    a: KeyFamily,
    b: KeyFamily,
)
    ensures
        is_consistent(config) <==> forall|i: int|
            0 <= i < config.algorithms.len() ==> match config.key {
                KeyView::Secret(_) => algorithm_name(#[trigger] config.algorithms[i])[0] == 'H',
                KeyView::RsaPem(_) => algorithm_name(config.algorithms[i])[0] == 'R'
                    || algorithm_name(config.algorithms[i])[0] == 'P',
                KeyView::EcPem(_) => algorithm_name(config.algorithms[i])[0] == 'E'
                    && algorithm_name(config.algorithms[i])[1] == 'S',
            },
        family_name(a) == family_name(b) ==> a == b,
{
    reveal_strlit("Hmac");
    reveal_strlit("Rsa");
    reveal_strlit("Ec");
    assert("Hmac"@.len() == 4 && "Rsa"@.len() == 3 && "Ec"@.len() == 2);
    assert forall|algorithm: Algorithm|
        (belongs(KeyFamily::Hmac, algorithm) <==> (#[trigger] algorithm_name(algorithm))[0] == 'H')
            && (belongs(KeyFamily::Rsa, algorithm) <==> algorithm_name(algorithm)[0] == 'R'
            || algorithm_name(algorithm)[0] == 'P') && (belongs(KeyFamily::Ec, algorithm)
            <==> algorithm_name(algorithm)[0] == 'E' && algorithm_name(algorithm)[1] == 'S') by {
        a_name_tells_the_algorithm(algorithm, algorithm);
    }
}

} // verus!
