use nebula::auth::{hex, is_valid_tenant, unhex, Auth, MAX_TENANT_BYTES};

fn auth() -> Auth {
    Auth::signed(b"a shared secret")
}

#[test]
fn a_minted_token_names_its_tenant_back() {
    let auth = auth();
    let token = auth.mint("acme").expect("mint");
    assert!(token.starts_with("acme."));
    assert_eq!(auth.tenant_of(&token).as_deref(), Some("acme"));
}

#[test]
fn a_token_for_one_tenant_cannot_be_edited_into_another() {
    let auth = auth();
    let token = auth.mint("acme").expect("mint");
    let signature = token.split_once('.').unwrap().1;

    assert_eq!(auth.tenant_of(&format!("globex.{signature}")), None);
    assert_eq!(auth.tenant_of("globex"), None);
    assert_eq!(auth.tenant_of("globex."), None);
}

#[test]
fn a_token_from_another_secret_is_refused() {
    let token = Auth::signed(b"someone else's secret")
        .mint("acme")
        .expect("mint");
    assert_eq!(auth().tenant_of(&token), None);
}

#[test]
fn a_tampered_signature_is_refused() {
    let auth = auth();
    let token = auth.mint("acme").expect("mint");
    let (tenant, signature) = token.split_once('.').unwrap();

    let mut broken: Vec<char> = signature.chars().collect();
    broken[0] = if broken[0] == 'a' { 'b' } else { 'a' };
    let broken: String = broken.into_iter().collect();
    assert_eq!(auth.tenant_of(&format!("{tenant}.{broken}")), None);

    assert_eq!(
        auth.tenant_of(&format!("{tenant}.{}", &signature[..10])),
        None
    );
    assert_eq!(auth.tenant_of(&format!("{tenant}.zzzz")), None);
    assert_eq!(auth.tenant_of(&format!("{tenant}.{signature}ab")), None);
}

#[test]
fn a_tenant_id_cannot_contain_the_separator_or_run_long() {
    let auth = auth();
    assert!(auth.mint("has.a.dot").is_none());
    assert!(auth.mint("has a space").is_none());
    assert!(auth.mint("").is_none());
    assert!(auth.mint(&"t".repeat(MAX_TENANT_BYTES + 1)).is_none());

    assert!(auth.mint("acme-prod_2").is_some());
}

#[test]
fn insecure_mode_takes_the_token_at_its_word_but_will_not_mint() {
    let auth = Auth::Insecure;
    assert!(!auth.is_enforcing());
    assert_eq!(auth.tenant_of("acme").as_deref(), Some("acme"));

    assert_eq!(auth.tenant_of("has a space"), None);
    assert_eq!(auth.tenant_of(""), None);

    assert_eq!(auth.mint("acme"), None);
}

#[test]
fn hex_round_trips_and_rejects_what_is_not_hex() {
    assert_eq!(
        unhex(&hex(&[0x00, 0x7f, 0xff])),
        Some(vec![0x00, 0x7f, 0xff])
    );
    assert_eq!(unhex("abc"), None, "odd length");
    assert_eq!(unhex("zz"), None, "not hex");
}

#[test]
fn a_signature_is_the_hmac_of_the_tenant() {
    assert_eq!(
        Auth::signed(b"key").mint("abc").as_deref(),
        Some("abc.9c196e32dc0175f86f4b1cb89289d6619de6bee699e4c378e68309ed97a1a6ab")
    );
    assert_eq!(
        Auth::signed(b"key")
            .tenant_of("abc.9c196e32dc0175f86f4b1cb89289d6619de6bee699e4c378e68309ed97a1a6ab")
            .as_deref(),
        Some("abc")
    );
}

#[test]
fn space_around_a_token_or_a_secret_is_ignored() {
    let auth = auth();
    let token = auth.mint("acme").expect("mint");
    assert_eq!(
        auth.tenant_of(&format!("  {token}\n")).as_deref(),
        Some("acme")
    );
    assert!(!Auth::from_secret(Some(" \t ")).is_enforcing());
    assert_eq!(
        Auth::from_secret(Some(" key ")).mint("abc"),
        Auth::signed(b"key").mint("abc")
    );
}

#[test]
fn a_signature_is_read_in_either_case() {
    let auth = auth();
    let token = auth.mint("acme").expect("mint");
    let (tenant, signature) = token.split_once('.').unwrap();
    let upper = signature.to_uppercase();
    assert_eq!(
        auth.tenant_of(&format!("{tenant}.{upper}")).as_deref(),
        Some("acme")
    );
}

#[test]
fn a_secret_turns_enforcement_on_and_an_empty_one_does_not() {
    assert!(Auth::from_secret(Some("s3cret")).is_enforcing());
    assert!(!Auth::from_secret(Some("")).is_enforcing());
    assert!(!Auth::from_secret(None).is_enforcing());

    let token = Auth::from_secret(Some("s3cret")).mint("acme").expect("mint");
    assert_eq!(
        Auth::signed(b"s3cret").tenant_of(&token).as_deref(),
        Some("acme")
    );
}

#[test]
fn a_tenant_id_is_exactly_what_the_four_stores_can_hold() {
    assert!(is_valid_tenant("a"));
    assert!(is_valid_tenant("AZaz09-_"));
    assert!(is_valid_tenant(&"t".repeat(MAX_TENANT_BYTES)));
    assert!(!is_valid_tenant(&"t".repeat(MAX_TENANT_BYTES + 1)));
    assert!(!is_valid_tenant(""));
    assert!(!is_valid_tenant("a/b"));
    assert!(!is_valid_tenant("caf\u{e9}"));
}

#[test]
fn a_token_ends_in_a_tag_of_thirty_two_bytes() {
    let auth = Auth::signed(b"secret");
    let token = auth.mint("acme").expect("mint");
    let (name, tag) = token.split_once('.').unwrap();
    assert_eq!(name, "acme");
    assert_eq!(tag.len(), 64);
    assert!(tag.bytes().all(|b| b.is_ascii_hexdigit()));
    assert_eq!(auth.tenant_of("acme."), None);
    assert_eq!(auth.tenant_of(&token[..token.len() - 2]), None);
}
