//! Roles, bearer tokens and JSON web tokens.

use jsonwebtoken::{encode, EncodingKey, Header};
use serde_json::Value;

use skyzen::auth::guard::{require_role, Admin, AuthorizationError, HasRoles, RoleExtractor};
use skyzen::auth::jwt::{
    conclude, Algorithm, IncompatibleAlgorithm, JwtAuthenticator, JwtConfig, JwtError, KeyFamily,
};
use skyzen::extract::bearer::{parse_bearer, BearerToken, BearerTokenError};
use skyzen::middleware::auth::{auth_requirement, AuthAction, AuthMiddleware, AuthUser};
use skyzen::middleware::headers::HeaderField;
use skyzen::openapi::schema::ParameterLocation;

#[derive(Clone, Debug)]
struct TestUser {
    name: String,
    roles: Vec<String>,
}

impl HasRoles for TestUser {
    fn has_role(&self, role: &str) -> bool {
        self.roles.iter().any(|r| r == role)
    }
}

#[test]
fn test_admin_guard_success() {
    let user = TestUser {
        name: "Alice".to_owned(),
        roles: vec!["admin".to_owned(), "user".to_owned()],
    };

    let result = Admin::<TestUser>::extract(Some(user.clone()));
    assert!(result.is_ok());
    assert_eq!(result.unwrap().0.name, "Alice");
}

#[test]
fn test_admin_guard_forbidden() {
    let user = TestUser {
        name: "Bob".to_owned(),
        roles: vec!["user".to_owned()],
    };

    let result = Admin::<TestUser>::extract(Some(user));
    assert!(matches!(result, Err(AuthorizationError::Forbidden)));
}

#[test]
fn test_admin_guard_not_authenticated() {
    let result = Admin::<TestUser>::extract(None);
    assert!(matches!(result, Err(AuthorizationError::NotAuthenticated)));
}

#[test]
fn a_guard_asks_for_its_own_role() {
    let user = TestUser {
        name: "Carol".to_owned(),
        roles: vec!["editor".to_owned()],
    };
    assert_eq!(<Admin<TestUser> as RoleExtractor>::role(), "admin");
    assert_eq!(require_role(Some(user.clone()), "editor").unwrap().name, "Carol");
    assert!(require_role(Some(user), "admin").is_err());
    assert_eq!(AuthorizationError::NotAuthenticated.status(), 401);
    assert_eq!(AuthorizationError::Forbidden.status(), 403);
    assert_ne!(
        AuthorizationError::NotAuthenticated.message(),
        AuthorizationError::Forbidden.message()
    );
}

fn claims(sub: &str, exp: u64, roles: &[&str]) -> Value {
    let mut map = serde_json::Map::new();
    map.insert("sub".to_owned(), Value::from(sub));
    map.insert("exp".to_owned(), Value::from(exp));
    map.insert(
        "roles".to_owned(),
        Value::Array(roles.iter().map(|role| Value::from(*role)).collect()),
    );
    Value::Object(map)
}

fn create_token(claims: &Value, secret: &[u8]) -> String {
    encode(&Header::default(), claims, &EncodingKey::from_secret(secret)).unwrap()
}

fn authenticator(secret: &[u8]) -> JwtAuthenticator<Value> {
    JwtAuthenticator::new(JwtConfig::with_secret(secret.to_vec()))
}

fn text(value: &str) -> HeaderField {
    HeaderField::Text(value.to_owned())
}

fn read(json: &String) -> Option<Value> {
    serde_json::from_str(json).ok()
}

#[test]
fn test_jwt_authentication_success() {
    let secret = b"test-secret-key";
    let claims = claims("user123", u64::MAX, &["user"]);

    let token = create_token(&claims, secret);
    let result = authenticator(secret).authenticate(&text(&format!("Bearer {token}")), read);
    assert!(result.is_ok());
    assert_eq!(result.unwrap(), claims);
}

#[test]
fn test_jwt_missing_header() {
    let result = authenticator(b"secret").authenticate(&HeaderField::Absent, read);
    assert!(matches!(
        result,
        Err(JwtError::Header(BearerTokenError::MissingHeader))
    ));
}

#[test]
fn test_jwt_invalid_signature() {
    let claims = claims("user123", u64::MAX, &[]);

    let token = create_token(&claims, b"secret1");
    let result = authenticator(b"secret2").authenticate(&text(&format!("Bearer {token}")), read);
    assert!(matches!(result, Err(JwtError::InvalidSignature)));
}

#[test]
fn test_jwt_expired() {
    let secret = b"secret";
    let claims = claims("user123", 0, &[]);

    let token = create_token(&claims, secret);
    let result = authenticator(secret).authenticate(&text(&format!("Bearer {token}")), read);
    assert!(matches!(result, Err(JwtError::Expired)));
}

#[test]
fn test_jwt_not_bearer() {
    let result = authenticator(b"secret").authenticate(&text("Basic dXNlcjpwYXNz"), read);
    assert!(matches!(
        result,
        Err(JwtError::Header(BearerTokenError::NotBearer))
    ));
}

#[test]
fn test_jwt_accepts_case_insensitive_scheme() {
    let secret = b"test-secret-key";
    let claims = claims("user123", u64::MAX, &[]);
    let token = create_token(&claims, secret);

    let result = authenticator(secret).authenticate(&text(&format!("bearer   {token}")), read);
    assert_eq!(result.unwrap(), claims);
}

fn configured(algorithms: Vec<Algorithm>) -> JwtConfig {
    let config = JwtConfig::with_secret(b"secret".to_vec());
    match config.check_algorithms(&algorithms) {
        Ok(()) => config.with_algorithms(algorithms),
        Err(error) => panic!("{}", error.message()),
    }
}

#[test]
#[should_panic(expected = "incompatible with the configured Hmac key")]
fn test_with_algorithms_rejects_cross_family() {
    let _ = configured(vec![Algorithm::RS256]);
}

#[test]
fn algorithms_of_the_same_family_are_accepted() {
    let config = configured(vec![Algorithm::HS384, Algorithm::HS512]);
    assert_eq!(config.algorithm_names(), vec!["HS384", "HS512"]);
    let error = IncompatibleAlgorithm {
        algorithm: Algorithm::ES256,
        family: KeyFamily::Rsa,
    };
    assert!(error.message().contains("ES256"));
    assert!(error.message().contains("Rsa"));
    assert!(KeyFamily::Ec.permits(Algorithm::ES384));
    assert!(!KeyFamily::Hmac.permits(Algorithm::EdDSA));
}

#[test]
fn a_token_of_another_algorithm_is_refused() {
    let secret = b"secret";
    let token = create_token(&claims("user123", u64::MAX, &[]), secret);
    let config = JwtConfig::with_secret(secret.to_vec());
    let config = match config.check_algorithms(&vec![Algorithm::HS512]) {
        Ok(()) => config.with_algorithms(vec![Algorithm::HS512]),
        Err(error) => panic!("{}", error.message()),
    };
    let authenticator: JwtAuthenticator<Value> = JwtAuthenticator::new(config);
    let result = authenticator.authenticate(&text(&format!("Bearer {token}")), read);
    assert!(matches!(result, Err(JwtError::InvalidAlgorithm)));
}

#[test]
fn issuer_audience_and_expiration_are_validated_as_configured() {
    let secret = b"secret";
    let mut map = serde_json::Map::new();
    map.insert("exp".to_owned(), Value::from(0));
    map.insert("iss".to_owned(), Value::from("me"));
    map.insert("aud".to_owned(), Value::from("you"));
    let claims = Value::Object(map);
    let token = format!("Bearer {}", create_token(&claims, secret));

    let lenient = JwtConfig::with_secret(secret.to_vec())
        .with_issuer("me")
        .with_audience("you")
        .without_expiration_validation();
    let accepted = JwtAuthenticator::<Value>::new(lenient).authenticate(&text(&token), read);
    assert_eq!(accepted.unwrap(), claims);

    let other_issuer = JwtConfig::with_secret(secret.to_vec())
        .with_issuer("someone else")
        .with_audience("you")
        .without_expiration_validation();
    let refused = JwtAuthenticator::<Value>::new(other_issuer).authenticate(&text(&token), read);
    assert!(matches!(refused, Err(JwtError::InvalidClaims)));

    let other_audience = JwtConfig::with_secret(secret.to_vec())
        .with_issuer("me")
        .with_audience("someone else")
        .without_expiration_validation();
    let refused = JwtAuthenticator::<Value>::new(other_audience).authenticate(&text(&token), read);
    assert!(matches!(refused, Err(JwtError::InvalidClaims)));
}

#[test]
fn keys_that_are_not_pem_are_refused() {
    assert!(JwtConfig::with_rsa_pem(b"not a key".to_vec()).is_err());
    assert!(JwtConfig::with_ec_pem(b"not a key".to_vec()).is_err());
}

#[test]
fn a_malformed_token_is_told_apart() {
    let result = authenticator(b"secret").authenticate(&text("Bearer nonsense"), read);
    assert!(matches!(result, Err(JwtError::Malformed)));
}

#[test]
fn decoding_errors_have_their_answers() {
    for (text, error) in [
        ("InvalidSignature", JwtError::InvalidSignature),
        ("ExpiredSignature", JwtError::Expired),
        ("ImmatureSignature", JwtError::NotYetValid),
        ("InvalidIssuer", JwtError::InvalidClaims),
        ("InvalidAudience", JwtError::InvalidClaims),
        ("InvalidSubject", JwtError::InvalidClaims),
        ("Missing required claim: exp", JwtError::InvalidClaims),
        ("InvalidAlgorithm", JwtError::InvalidAlgorithm),
        ("InvalidAlgorithmName", JwtError::InvalidAlgorithm),
        ("MissingAlgorithm", JwtError::InvalidAlgorithm),
        ("JSON error: expected value", JwtError::Malformed),
    ] {
        assert_eq!(JwtError::from_failure(text), error);
        assert_eq!(error.status(), 401);
    }
    assert_eq!(conclude(None, Some(1)), Ok(1));
    assert_eq!(conclude::<u8>(None, None), Err(JwtError::Malformed));
    assert_eq!(
        conclude(Some(JwtError::Expired), Some(1)),
        Err(JwtError::Expired)
    );
    assert_eq!(
        conclude::<u8>(Some(JwtError::Expired), None),
        Err(JwtError::Malformed)
    );
    assert_eq!(
        conclude::<u8>(Some(JwtError::InvalidSignature), None),
        Err(JwtError::InvalidSignature)
    );
}

#[test]
fn a_missing_expiration_is_an_invalid_claim() {
    let secret = b"secret";
    let mut map = serde_json::Map::new();
    map.insert("sub".to_owned(), Value::from("user123"));
    let token = create_token(&Value::Object(map), secret);
    let result = authenticator(secret).authenticate(&text(&format!("Bearer {token}")), read);
    assert_eq!(result, Err(JwtError::InvalidClaims));
}

#[test]
fn claims_that_cannot_be_read_make_a_token_malformed() {
    let secret = b"secret";
    for exp in [u64::MAX, 0] {
        let token = create_token(&claims("user123", exp, &[]), secret);
        let authenticator: JwtAuthenticator<Vec<String>> =
            JwtAuthenticator::new(JwtConfig::with_secret(secret.to_vec()));
        let result = authenticator.authenticate(
            &text(&format!("Bearer {token}")),
            |json: &String| serde_json::from_str(json).ok(),
        );
        assert_eq!(result, Err(JwtError::Malformed));
    }
}

#[derive(Debug, PartialEq)]
struct Claims {
    sub: String,
    exp: u64,
}

// A reader of claims that refuses repeated names.
fn read_strictly(json: &String) -> Option<Claims> {
    if json.matches("\"sub\"").count() > 1 {
        return None;
    }
    let value: Value = serde_json::from_str(json).ok()?;
    Some(Claims {
        sub: value.get("sub")?.as_str()?.to_owned(),
        exp: value.get("exp")?.as_u64()?,
    })
}

#[test]
fn claims_are_read_as_they_were_written() {
    let secret = b"secret";
    let authenticator: JwtAuthenticator<Claims> =
        JwtAuthenticator::new(JwtConfig::with_secret(secret.to_vec()));
    let sign = |json: &str| -> String {
        let raw = serde_json::value::RawValue::from_string(json.to_owned()).unwrap();
        encode(&Header::default(), &raw, &EncodingKey::from_secret(secret)).unwrap()
    };
    let token = sign("{\"sub\":\"a\",\"exp\":18446744073709551615}");
    assert_eq!(
        authenticator.authenticate(&text(&format!("Bearer {token}")), read_strictly),
        Ok(Claims {
            sub: "a".to_owned(),
            exp: u64::MAX,
        })
    );
    let token = sign("{\"sub\":\"a\",\"exp\":18446744073709551615,\"sub\":\"b\"}");
    assert_eq!(
        authenticator.authenticate(&text(&format!("Bearer {token}")), read_strictly),
        Err(JwtError::Malformed)
    );

    let written = "{ \"exp\":18446744073709551615, \"n\":18446744073709551616 }";
    let authenticator: JwtAuthenticator<String> =
        JwtAuthenticator::new(JwtConfig::with_secret(secret.to_vec()));
    let token = sign(written);
    assert_eq!(
        authenticator.authenticate(&text(&format!("Bearer {token}")), |json: &String| {
            Some(json.clone())
        }),
        Ok(written.to_owned())
    );
}

#[test]
fn a_leeway_tolerates_a_recent_expiration() {
    let secret = b"secret";
    let recent = std::time::SystemTime::now()
        .duration_since(std::time::UNIX_EPOCH)
        .unwrap()
        .as_secs()
        - 100;
    let token = format!("Bearer {}", create_token(&claims("a", recent, &[]), secret));
    let strict: JwtAuthenticator<Value> =
        JwtAuthenticator::new(JwtConfig::with_secret(secret.to_vec()).with_leeway(0));
    assert_eq!(
        strict.authenticate(&text(&token), read),
        Err(JwtError::Expired)
    );
    let lenient: JwtAuthenticator<Value> =
        JwtAuthenticator::new(JwtConfig::with_secret(secret.to_vec()).with_leeway(1000));
    assert!(lenient.authenticate(&text(&token), read).is_ok());
}

#[test]
fn test_bearer_token_extraction() {
    let result = BearerToken::extract(&text("Bearer my-secret-token"));
    assert!(result.is_ok());
    assert_eq!(result.unwrap().0, "my-secret-token");
}

#[test]
fn test_missing_header() {
    let result = BearerToken::extract(&HeaderField::Absent);
    assert!(matches!(result, Err(BearerTokenError::MissingHeader)));
}

#[test]
fn test_not_bearer_scheme() {
    let result = BearerToken::extract(&text("Basic dXNlcjpwYXNz"));
    assert!(matches!(result, Err(BearerTokenError::NotBearer)));
}

#[test]
fn test_bearer_without_space() {
    let result = BearerToken::extract(&text("Bearertoken"));
    assert!(matches!(result, Err(BearerTokenError::NotBearer)));
}

#[test]
fn a_token_starts_with_its_own_text() {
    assert_eq!(parse_bearer(&text("bEaReR    a b ")).unwrap(), "a b ");
    assert!(matches!(
        parse_bearer(&HeaderField::Opaque),
        Err(BearerTokenError::InvalidEncoding)
    ));
    assert_eq!(BearerTokenError::MissingHeader.status(), 401);
    assert_eq!(BearerToken::openapi().location, ParameterLocation::Header);
}

#[test]
fn successful_authentication_injects_the_user_for_the_endpoint() {
    let middleware = AuthMiddleware::new(7u64);
    assert_eq!(*middleware.authenticator(), 7);
    let user = match middleware.decide::<&str, &str>(Ok("alice")) {
        AuthAction::Proceed(user) => AuthUser::extract(Some(user)),
        AuthAction::Reject(error) => panic!("{error}"),
    };
    assert_eq!(user.unwrap().0, "alice");
}

#[test]
fn failed_authentication_short_circuits_endpoint_execution() {
    let middleware = AuthMiddleware::new(7u64);
    match middleware.decide::<&str, &str>(Err("missing token")) {
        AuthAction::Proceed(user) => panic!("{}", user.0),
        AuthAction::Reject(error) => assert_eq!(error, "missing token"),
    }
    let missing = AuthUser::<&str>::extract(None).unwrap_err();
    assert_eq!(missing.status(), 401);
    assert_eq!(missing.message(), "Not authenticated.");
}

#[test]
fn an_authenticated_extractor_asks_for_what_the_middleware_provides() {
    let requirement = auth_requirement(3, "AuthUser<User>");
    let layer = AuthMiddleware::new(7u64).as_layer(1, 3);
    assert_eq!(requirement.key, 3);
    assert_eq!(requirement.description, "AuthUser<User>");
    assert_eq!(
        requirement.hint,
        "`.with(AuthMiddleware::new(authenticator))`"
    );
    assert_eq!(layer.provisions, vec![3]);
}
