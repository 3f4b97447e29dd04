use snacc_compiler::cache::{build_profile, cache_identity, cache_matches, optimized, CacheManifest};
use snacc_compiler::digests::sha256;
use snacc_compiler::tools::Options;

#[test]
fn the_profile_follows_the_options() {
    let mut options = Options::default();
    assert_eq!(build_profile(&options), "dev");
    assert!(!optimized(&options));
    options.release = true;
    assert_eq!(build_profile(&options), "release");
    assert!(optimized(&options));
    let mut named = Options::default();
    named.profile = Some("release".to_string());
    assert_eq!(build_profile(&named), "release");
    assert!(optimized(&named));
    named.profile = Some("dev".to_string());
    assert_eq!(build_profile(&named), "dev");
    assert!(!optimized(&named));
}

fn identity_of(source: &str) -> String {
    cache_identity("0.1.0", "backend", 3, "18.1.8", "x86_64-unknown-linux-gnu", "none", "dev", "src/main.snacc", source)
}

#[test]
fn the_identity_is_the_digest_of_every_input_in_order() {
    let mut bytes: Vec<u8> = Vec::new();
    bytes.extend_from_slice(b"0.1.0");
    bytes.extend_from_slice(b"snacc-llvm-object-v1");
    bytes.extend_from_slice(b"backend");
    bytes.extend_from_slice(&3u32.to_le_bytes());
    bytes.extend_from_slice(b"18.1.8");
    bytes.extend_from_slice(b"x86_64-unknown-linux-gnu");
    bytes.extend_from_slice(b"none");
    bytes.extend_from_slice(b"dev");
    bytes.extend_from_slice(b"src/main.snacc");
    bytes.extend_from_slice(b"print(1)");
    let id = identity_of("print(1)");
    assert_eq!(id, sha256(&bytes));
    assert_eq!(id.len(), 64);
    assert_eq!(id, identity_of("print(1)"));
    assert_ne!(id, identity_of("print(2)"));
}

fn manifest_for(object: &[u8], identity: &str) -> CacheManifest {
    CacheManifest {
        schema: 1,
        identity: identity.to_string(),
        compiler_version: "0.1.0".to_string(),
        backend_build_id: "backend".to_string(),
        abi_version: 3,
        llvm_version: "18.1.8".to_string(),
        target_triple: "x86_64-unknown-linux-gnu".to_string(),
        optimization: "none".to_string(),
        profile: "dev".to_string(),
        object_sha256: sha256(object),
    }
}

fn matches(object: Option<&[u8]>, manifest: Option<&CacheManifest>, identity: &str) -> bool {
    cache_matches(object, manifest, identity, "0.1.0", "backend", 3, "18.1.8", "x86_64-unknown-linux-gnu", "none", "dev")
}

#[test]
fn a_cached_object_is_reused_only_when_everything_matches() {
    let object: &[u8] = b"\x7fELF object";
    let identity = identity_of("print(1)");
    let manifest = manifest_for(object, &identity);
    assert!(matches(Some(object), Some(&manifest), &identity));
    assert!(!matches(None, Some(&manifest), &identity));
    assert!(!matches(Some(object), None, &identity));
    assert!(!matches(Some(b""), Some(&manifest), &identity));
    assert!(!matches(Some(b"another object"), Some(&manifest), &identity));
    assert!(!matches(Some(object), Some(&manifest), &identity_of("print(2)")));
    let mut stale = manifest_for(object, &identity);
    stale.schema = 2;
    assert!(!matches(Some(object), Some(&stale), &identity));
    let mut other_profile = manifest_for(object, &identity);
    other_profile.profile = "release".to_string();
    assert!(!matches(Some(object), Some(&other_profile), &identity));
    let mut other_abi = manifest_for(object, &identity);
    other_abi.abi_version = 4;
    assert!(!matches(Some(object), Some(&other_abi), &identity));
}
