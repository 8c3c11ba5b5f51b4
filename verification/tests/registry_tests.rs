use nebula::registry::{
    content_hash_hex, is_content_hash, Deployments, Registry, RegistryError, Tool, UnknownVersion,
    DEPLOYMENTS_VERSION, MAX_ARTIFACT_BYTES,
};
use std::collections::HashMap;

fn registry() -> Registry {
    Registry::new("/var/lib/nebula")
}

#[test]
fn put_then_read_round_trips() {
    let registry = registry();
    let hash = registry.put(b"(module)").unwrap();

    assert_eq!(hash.len(), 64);
    assert!(registry.contains(&hash, true));
    // What was put is read from the file that its name leads to.
    assert_eq!(
        registry.path(&hash).unwrap(),
        format!("/var/lib/nebula/{hash}.wasm")
    );
}

#[test]
fn what_is_stored_under_a_name_is_read_back_from_it() {
    let registry = registry();
    let mut disk: HashMap<String, Vec<u8>> = HashMap::new();
    let mut names = Vec::new();
    for wasm in [b"one".to_vec(), b"two".to_vec(), Vec::new()] {
        let hash = registry.put(&wasm).unwrap();
        assert!(is_content_hash(&hash));
        let path = registry.path(&hash).unwrap();
        assert!(!registry.contains(&hash, disk.contains_key(&path)));
        disk.insert(path, wasm.clone());
        names.push((hash, wasm));
    }
    for (hash, wasm) in &names {
        let path = registry.path(hash).unwrap();
        assert!(registry.contains(hash, disk.contains_key(&path)));
        assert_eq!(&disk[&path], wasm);
    }
}

#[test]
fn identical_bytes_get_identical_names() {
    let registry = registry();
    assert_eq!(
        registry.put(b"same").unwrap(),
        registry.put(b"same").unwrap()
    );
    assert_ne!(
        registry.put(b"same").unwrap(),
        registry.put(b"other").unwrap()
    );
}

#[test]
fn path_traversal_is_refused() {
    let registry = registry();
    for attempt in [
        "../../etc/passwd",
        "..",
        "/etc/passwd",
        "aa/../bb",
        "",
        "not-hex-but-exactly-sixty-four-characters-long-xxxxxxxxxxxxxxxxxx",
    ] {
        assert!(
            registry.path(attempt).is_err(),
            "registry served a non-hash name: {attempt:?}"
        );
        assert!(!registry.contains(attempt, true));
    }
}

#[test]
fn a_missing_hash_is_not_found() {
    let registry = registry();
    let absent = "0".repeat(64);
    assert!(!registry.contains(&absent, false));
}

#[test]
fn oversized_artifacts_are_refused() {
    let registry = registry();
    let huge = vec![0u8; MAX_ARTIFACT_BYTES + 1];
    assert!(registry.put(&huge).is_err());
}

#[test]
fn an_artifact_is_named_by_its_sha256() {
    let expected = "1885772b94ca41b360d9bd07535547f4c8ef16cbe7e49d2c8e9780247e26c4de";
    assert_eq!(content_hash_hex(b"(module)"), expected);
    assert_eq!(registry().put(b"(module)").unwrap(), expected);
    assert!(is_content_hash(expected));
    assert!(!is_content_hash(&expected[1..]));
}

#[test]
fn each_refusal_says_what_it_is() {
    let registry = registry();
    let huge = vec![0u8; MAX_ARTIFACT_BYTES + 1];
    assert_eq!(registry.put(&huge), Err(RegistryError::TooLarge));
    assert!(registry.put(&huge[..MAX_ARTIFACT_BYTES]).is_ok());
    assert_eq!(registry.path("nope"), Err(RegistryError::NotAHash));
    assert_eq!(
        RegistryError::TooLarge.message(),
        "artifact exceeds the 32 MiB cap"
    );
    assert_eq!(RegistryError::NotAHash.message(), "content_hash must be 64 hex characters");
}

#[test]
fn a_directory_with_a_trailing_slash_gets_no_second_one() {
    let hash = "a".repeat(64);
    assert_eq!(
        Registry::new("/srv/").path(&hash).unwrap(),
        format!("/srv/{hash}.wasm")
    );
    assert_eq!(
        Registry::new("").path(&hash).unwrap(),
        format!("{hash}.wasm")
    );
    assert_eq!(Registry::new("/srv").dir(), "/srv");
}

fn tool(description: &str) -> Option<Tool> {
    Some(Tool {
        description: description.to_string(),
        input_schema: "{}".to_string(),
    })
}

#[test]
fn a_deploy_replaces_one_function_and_leaves_the_rest() {
    let mut table = Deployments::new();
    table.deploy("js", "h1", tool("runs js"));
    table.deploy("py", "h2", None);
    assert_eq!(table.deployed(), 2);

    table.deploy("js", "h3", None);
    assert_eq!(table.deployed(), 2);
    assert_eq!(table.content_hash_of("js").as_deref(), Some("h3"));
    assert_eq!(table.content_hash_of("py").as_deref(), Some("h2"));
    assert_eq!(table.content_hash_of("rb"), None);
    assert!(table.tools().is_empty(), "the old descriptor must be gone");
}

#[test]
fn rows_and_tools_come_out_as_they_went_in() {
    let mut table = Deployments::new();
    table.deploy("zig", "h1", tool("runs zig"));
    table.deploy("ada", "h2", None);
    let rows = table.saved();
    assert_eq!(rows.len(), 2);
    assert_eq!((rows[0].id.as_str(), rows[0].hash.as_str()), ("ada", "h2"));
    assert_eq!((rows[1].id.as_str(), rows[1].hash.as_str()), ("zig", "h1"));
    assert!(rows[0].tool.is_none());
    assert!(rows[1].tool.is_some());

    let back = Deployments::restore(DEPLOYMENTS_VERSION, rows)
        .ok()
        .unwrap();
    assert_eq!(back.deployed(), 2);
    assert_eq!(back.content_hash_of("ada").as_deref(), Some("h2"));
    assert_eq!(back.tools().len(), 1);

    let tools = table.tools();
    assert_eq!(tools.len(), 1);
    assert_eq!(tools[0].0, "zig");
    assert_eq!(tools[0].1.description, "runs zig");
    assert_eq!(tools[0].1.input_schema, "{}");
}

#[test]
fn a_table_of_an_unknown_version_is_refused() {
    assert!(Deployments::restore(DEPLOYMENTS_VERSION, Vec::new()).is_ok());
    match Deployments::restore(DEPLOYMENTS_VERSION + 1, Vec::new()) {
        Err(UnknownVersion(found)) => assert_eq!(found, DEPLOYMENTS_VERSION + 1),
        Ok(_) => panic!("expected a refusal"),
    }
}
