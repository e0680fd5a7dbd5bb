use agent24_os_proto::manifest::{digest_string, manifest_digest, ManifestFacts};

#[test]
fn digest_is_sha256_hex_with_prefix() {
    assert_eq!(
        manifest_digest(b"abc"),
        "sha256:ba7816bf8f01cfea414140de5dae2223b00361a396177a9cb410ff61f20015ad"
    );
}

#[test]
fn a_digest_is_written_in_lower_case() {
    assert_eq!(digest_string(&[0x0a, 0xff]), "sha256:0aff");
}

#[test]
fn facts_are_the_three_that_a_module_needs() {
    let facts = ManifestFacts {
        name: "sin90".to_owned(),
        route_namespace: "/api/v1/sin90".to_owned(),
        kernel_capabilities: vec!["events".to_owned()],
    };
    assert_eq!(facts.kernel_capabilities.len(), 1);
}
