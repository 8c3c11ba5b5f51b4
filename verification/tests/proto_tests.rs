use nebula::proto::{ExecuteRequest, Outcome};
use nebula::tls::{endpoint, mesh_paths, MeshTls, TlsError, CA_ENV, CERT_ENV, KEY_ENV};

#[test]
fn outcome_discriminants_are_pinned() {
    // These are wire values. Renumbering one silently re-labels every response
    // already in flight.
    assert_eq!(Outcome::Success as i32, 0);
    assert_eq!(Outcome::Trap as i32, 1);
    assert_eq!(Outcome::Timeout as i32, 2);
    assert_eq!(Outcome::FuelExhausted as i32, 3);
    assert_eq!(Outcome::MemoryLimit as i32, 4);
    assert_eq!(Outcome::ModuleNotFound as i32, 5);
    assert_eq!(Outcome::Internal as i32, 6);
}

#[test]
fn an_outcome_survives_the_wire() {
    for outcome in [
        Outcome::Success,
        Outcome::Trap,
        Outcome::Timeout,
        Outcome::FuelExhausted,
        Outcome::MemoryLimit,
        Outcome::ModuleNotFound,
        Outcome::Internal,
    ] {
        assert_eq!(outcome.wire(), outcome as i32);
        assert_eq!(Outcome::of_wire(outcome.wire()), outcome);
    }
    // A number that nobody sends reads as a failure of the worker.
    assert_eq!(Outcome::of_wire(7), Outcome::Internal);
    assert_eq!(Outcome::of_wire(-1), Outcome::Internal);
}

#[test]
fn partition_key_is_optional_and_absent_by_default() {
    let request = ExecuteRequest::default();
    assert_eq!(request.partition_key, None);
}

#[test]
fn an_endpoint_takes_the_scheme_the_mesh_is_using() {
    assert_eq!(endpoint("127.0.0.1:7001", false), "http://127.0.0.1:7001");
    assert_eq!(endpoint("127.0.0.1:7001", true), "https://127.0.0.1:7001");

    assert_eq!(
        endpoint("http://control:7000", true),
        "https://control:7000"
    );
    assert_eq!(
        endpoint("https://control:7000", false),
        "http://control:7000"
    );
}

/// Setting two of the three variables must not quietly leave the mesh in
/// plaintext.
#[test]
fn a_half_configured_mesh_is_an_error_not_a_downgrade() {
    let path = |value: &str| Some(value.to_string());

    for (ca, cert, key, missing) in [
        (None, path("c"), path("k"), CA_ENV),
        (path("a"), None, path("k"), CERT_ENV),
        (path("a"), path("c"), None, KEY_ENV),
    ] {
        match mesh_paths(ca, cert, key) {
            Err(TlsError::Partial(named)) => assert_eq!(named, missing),
            _ => panic!("{missing} missing should have been refused"),
        }
    }

    let none: Option<String> = None;
    assert!(matches!(
        mesh_paths(none.clone(), none.clone(), none),
        Ok(None)
    ));
    assert!(matches!(
        mesh_paths(path("a"), path("c"), path("k")),
        Ok(Some(_))
    ));
}

#[test]
fn the_first_missing_variable_is_the_one_that_is_named() {
    let path = |value: &str| Some(value.to_string());
    let named = |ca, cert, key| match mesh_paths::<String>(ca, cert, key) {
        Err(TlsError::Partial(named)) => named,
        _ => panic!("expected a refusal"),
    };
    assert_eq!(named(None, None, path("k")), CA_ENV);
    assert_eq!(named(path("a"), None, None), CERT_ENV);
}

#[test]
fn the_three_files_are_kept_apart() {
    let tls = MeshTls::from_pem(b"ca".to_vec(), b"cert".to_vec(), b"key".to_vec());
    assert_eq!(tls.ca(), b"ca");
    assert_eq!(tls.cert(), b"cert");
    assert_eq!(tls.key(), b"key");
}

#[test]
fn each_tls_error_says_what_it_is() {
    assert_eq!(
        TlsError::Partial(KEY_ENV).message(),
        "mesh TLS is half configured: NEBULA_TLS_KEY is not set. Set NEBULA_TLS_CA, \
         NEBULA_TLS_CERT and NEBULA_TLS_KEY together, or none of them"
    );
    assert_eq!(
        TlsError::Io("/etc/ca.pem".to_string(), "not found".to_string()).message(),
        "reading /etc/ca.pem: not found"
    );
}
