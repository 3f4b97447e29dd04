//! The build cache for compiled objects: which Cargo profile a build uses,
//! the content-addressed identity of an object, and whether a cached object
//! can be reused.

use vstd::prelude::*;
use crate::digests::{hex_of, sha256, sha256_digest};
use crate::text::{owned, same, string_is};
use crate::tools::Options;
use vstd::string::StringSliceAdditionalSpecFns;

verus! {

/// Separates this cache's identities from any other use of the same inputs.
pub const OBJECT_CACHE_TAG: &'static str = "snacc-llvm-object-v1";

/// The only manifest layout this cache reads.
pub const CACHE_SCHEMA: u32 = 1;

/// The Cargo profile a build runs under: the one named, else `release` for a
/// release build, else `dev`.
pub open spec fn profile_of(options: crate::tools::OptionsView) -> Seq<char> {
    match options.profile {
        Some(p) => p,
        None => if options.release { "release"@ } else { "dev"@ },
    }
}

/// The Cargo profile a build runs under.
pub fn build_profile(options: &Options) -> (p: String)
    ensures
        p@ == profile_of(options@),
{
    match &options.profile {
        Some(p) => p.clone(),
        None => if options.release { owned("release") } else { owned("dev") },
    }
}

/// Whether the object is built with optimizations: a release build, or the
/// `release` profile named.
pub fn optimized(options: &Options) -> (r: bool)
    ensures
        r == (options@.release || options@.profile == Some("release"@)),
{
    if options.release {
        return true;
    }
    match &options.profile {
        Some(p) => string_is(p, "release"),
        None => false,
    }
}

/// A 32-bit number as four bytes, least significant first.
pub open spec fn le_bytes(v: u32) -> Seq<u8> {
    seq![(v % 256) as u8, ((v / 256) % 256) as u8, ((v / 65536) % 256) as u8, ((v / 16777216) % 256) as u8]
}

/// What a cached object's identity is the digest of: every input that can
/// change the object, in a fixed order.
pub open spec fn identity_bytes(
    compiler_version: Seq<u8>, backend_build_id: Seq<u8>, abi_version: u32, llvm_version: Seq<u8>,
    target_triple: Seq<u8>, optimization: Seq<u8>, profile: Seq<u8>, relative_entry: Seq<u8>, source: Seq<u8>,
) -> Seq<u8> {
    compiler_version + OBJECT_CACHE_TAG.spec_bytes() + backend_build_id + le_bytes(abi_version) + llvm_version
        + target_triple + optimization + profile + relative_entry + source
}

/// Appends bytes to a buffer.
fn push_bytes(out: &mut Vec<u8>, bytes: &[u8])
    ensures
        final(out)@ == old(out)@ + bytes@,
{
    let mut i: usize = 0;
    while i < bytes.len()
        invariant
            i <= bytes@.len(),
            out@ == old(out)@ + bytes@.subrange(0, i as int),
        decreases bytes@.len() - i,
    {
        out.push(bytes[i]);
        i = i + 1;
        proof {
            assert(bytes@.subrange(0, i as int) =~= bytes@.subrange(0, i - 1).push(bytes@[i - 1]));
        }
    }
    proof {
        assert(bytes@.subrange(0, bytes@.len() as int) =~= bytes@);
    }
}

/// The content-addressed identity of a compiled object: the lowercase
/// hexadecimal SHA-256 digest of `identity_bytes`.
pub fn cache_identity(
    compiler_version: &str,
    backend_build_id: &str,
    abi_version: u32,
    llvm_version: &str,
    target_triple: &str,
    optimization: &str,
    profile: &str,
    relative_entry: &str,
    source: &str,
) -> (id: String)
    ensures
        id@ == hex_of(sha256_digest(identity_bytes(compiler_version.spec_bytes(), backend_build_id.spec_bytes(), abi_version,
            llvm_version.spec_bytes(), target_triple.spec_bytes(), optimization.spec_bytes(), profile.spec_bytes(),
            relative_entry.spec_bytes(), source.spec_bytes()))),
        id@.len() == 64,
{
    let mut data: Vec<u8> = Vec::new();
    push_bytes(&mut data, compiler_version.as_bytes());
    push_bytes(&mut data, OBJECT_CACHE_TAG.as_bytes());
    push_bytes(&mut data, backend_build_id.as_bytes());
    let mut v = abi_version;
    let mut k: usize = 0;
    let ghost start = data@;
    proof {
        assert(pow256(0) == 1);
        assert(abi_version as nat / 1 == abi_version as nat);
        assert(le_bytes(abi_version).subrange(0, 0) =~= Seq::<u8>::empty());
        assert(data@ =~= start + le_bytes(abi_version).subrange(0, 0));
    }
    while k < 4
        invariant
            k <= 4,
            v as nat == abi_version as nat / pow256(k as nat),
            data@ == start + le_bytes(abi_version).subrange(0, k as int),
        decreases 4 - k,
    {
        proof { lemma_pow256_step(k as nat, abi_version); }
        data.push((v % 256) as u8);
        v = v / 256;
        k = k + 1;
        proof {
            assert(data@ =~= start + le_bytes(abi_version).subrange(0, k as int));
        }
    }
    proof {
        assert(le_bytes(abi_version).subrange(0, 4) =~= le_bytes(abi_version));
    }
    push_bytes(&mut data, llvm_version.as_bytes());
    push_bytes(&mut data, target_triple.as_bytes());
    push_bytes(&mut data, optimization.as_bytes());
    push_bytes(&mut data, profile.as_bytes());
    push_bytes(&mut data, relative_entry.as_bytes());
    push_bytes(&mut data, source.as_bytes());
    proof {
        assert(data@ =~= identity_bytes(compiler_version.spec_bytes(), backend_build_id.spec_bytes(), abi_version,
            llvm_version.spec_bytes(), target_triple.spec_bytes(), optimization.spec_bytes(), profile.spec_bytes(),
            relative_entry.spec_bytes(), source.spec_bytes()));
    }
    sha256(data.as_slice())
}

/// `256` to the power `k`.
pub open spec fn pow256(k: nat) -> nat
    decreases k,
{
    if k == 0 { 1 } else { 256 * pow256((k - 1) as nat) }
}

/// The byte at position `k` of `le_bytes(v)` is the low byte of `v / 256^k`.
proof fn lemma_pow256_step(k: nat, v: u32)
    requires
        k < 4,
    ensures
        pow256(k) > 0,
        pow256(k + 1) == 256 * pow256(k),
        le_bytes(v)[k as int] == ((v as nat / pow256(k)) % 256) as u8,
        (v as nat / pow256(k)) / 256 == v as nat / pow256(k + 1),
{
    reveal_with_fuel(pow256, 5);
    assert(pow256(1) == 256);
    assert(pow256(2) == 65536);
    assert(pow256(3) == 16777216);
    assert(pow256(k) > 0);
    vstd::arithmetic::div_mod::lemma_div_denominator(v as int, pow256(k) as int, 256);
    if k == 0 {
        assert(v as nat / 1 == v as nat);
    } else if k == 1 {
        assert(le_bytes(v)[1] == ((v / 256) % 256) as u8);
    } else if k == 2 {
        assert(le_bytes(v)[2] == ((v / 65536) % 256) as u8);
    } else {
        assert(le_bytes(v)[3] == ((v / 16777216) % 256) as u8);
    }
}

/// A cache manifest as it was recorded next to a cached object.
#[derive(Debug)]
pub struct CacheManifest {
    pub schema: u32,
    pub identity: String,
    pub compiler_version: String,
    pub backend_build_id: String,
    pub abi_version: u32,
    pub llvm_version: String,
    pub target_triple: String,
    pub optimization: String,
    pub profile: String,
    pub object_sha256: String,
}

/// Whether a cached object can be reused: the object was read and is not
/// empty, the manifest was read and parsed, it has the current schema,
/// records exactly the expected identity and build inputs, and its digest of
/// the object is the digest of the bytes read.
pub open spec fn cache_reusable(
    object: Option<Seq<u8>>, manifest: Option<CacheManifest>, identity: Seq<char>, compiler_version: Seq<char>,
    backend_build_id: Seq<char>, abi_version: u32, llvm_version: Seq<char>, target_triple: Seq<char>,
    optimization: Seq<char>, profile: Seq<char>,
) -> bool {
    match (object, manifest) {
        (Some(bytes), Some(m)) => {
            &&& bytes.len() > 0
            &&& m.schema == CACHE_SCHEMA
            &&& m.identity@ == identity
            &&& m.compiler_version@ == compiler_version
            &&& m.backend_build_id@ == backend_build_id
            &&& m.abi_version == abi_version
            &&& m.llvm_version@ == llvm_version
            &&& m.target_triple@ == target_triple
            &&& m.optimization@ == optimization
            &&& m.profile@ == profile
            &&& m.object_sha256@ == hex_of(sha256_digest(bytes))
        },
        _ => false,
    }
}

/// Whether a cached object can be reused. `object` is `None` when there is
/// no object file; `manifest` is `None` when there is no manifest or it does
/// not parse.
pub fn cache_matches(
    object: Option<&[u8]>,
    manifest: Option<&CacheManifest>,
    identity: &str,
    compiler_version: &str,
    backend_build_id: &str,
    abi_version: u32,
    llvm_version: &str,
    target_triple: &str,
    optimization: &str,
    profile: &str,
) -> (r: bool)
    ensures
        r == cache_reusable(
            match object { Some(b) => Some(b@), None => None },
            match manifest { Some(m) => Some(*m), None => None },
            identity@, compiler_version@, backend_build_id@, abi_version, llvm_version@, target_triple@, optimization@,
            profile@,
        ),
{
    let (bytes, m) = match (object, manifest) {
        (Some(b), Some(m)) => (b, m),
        _ => return false,
    };
    if bytes.len() == 0 {
        return false;
    }
    m.schema == CACHE_SCHEMA
        && same(&m.identity, &owned(identity))
        && same(&m.compiler_version, &owned(compiler_version))
        && same(&m.backend_build_id, &owned(backend_build_id))
        && m.abi_version == abi_version
        && same(&m.llvm_version, &owned(llvm_version))
        && same(&m.target_triple, &owned(target_triple))
        && same(&m.optimization, &owned(optimization))
        && same(&m.profile, &owned(profile))
        && same(&m.object_sha256, &sha256(bytes))
}

} // verus!
