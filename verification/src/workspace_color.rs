//! A stable hue for a workspace, from the FNV-1a hash of where it lives.
use vstd::prelude::*;

use vstd::string::StringSliceAdditionalSpecFns;

verus! {

/// The FNV-1a offset basis.
pub const FNV_OFFSET: u64 = 0xcbf29ce484222325;

/// The FNV-1a prime.
pub const FNV_PRIME: u64 = 0x100000001b3;

/// The number of hue steps.
pub const HUE_STEPS: u64 = 3600;

/// FNV-1a over `bytes`, starting from `hash`.
pub open spec fn fnv1a(hash: u64, bytes: Seq<u8>) -> u64
    decreases bytes.len(),
{
    if bytes.len() == 0 {
        hash
    } else {
        (fnv1a(hash, bytes.drop_last()) ^ (bytes.last() as u64)).wrapping_mul(FNV_PRIME)
    }
}

/// The bytes that are hashed: the connection type, the host and the path,
/// each followed by a zero byte so that different splits of the same bytes
/// hash differently. A local workspace has the connection type `local` and
/// an empty host.
pub open spec fn hue_input(connection: Seq<u8>, host: Seq<u8>, path: Seq<u8>) -> Seq<u8> {
    connection + seq![0u8] + host + seq![0u8] + path + seq![0u8]
}

/// The hue step of a workspace: its FNV-1a hash modulo 3600.
pub open spec fn spec_hue_step(connection: Seq<u8>, host: Seq<u8>, path: Seq<u8>) -> u64 {
    fnv1a(FNV_OFFSET, hue_input(connection, host, path)) % HUE_STEPS
}

fn hash_bytes(hash: u64, bytes: &[u8]) -> (r: u64)
    ensures
        r == fnv1a(hash, bytes@),
{
    let mut h = hash;
    let mut i: usize = 0;
    while i < bytes.len()
        invariant
            i <= bytes.len(),
            h == fnv1a(hash, bytes@.take(i as int)),
        decreases bytes.len() - i,
    {
        assert(bytes@.take(i + 1).drop_last() =~= bytes@.take(i as int));
        h = (h ^ (bytes[i] as u64)).wrapping_mul(FNV_PRIME);
        i += 1;
    }
    assert(bytes@.take(bytes.len() as int) =~= bytes@);
    h
}

proof fn lemma_fnv1a_concat(hash: u64, a: Seq<u8>, b: Seq<u8>)
    ensures
        fnv1a(hash, a + b) == fnv1a(fnv1a(hash, a), b),
    decreases b.len(),
{
    if b.len() == 0 {
        assert(a + b =~= a);
    } else {
        lemma_fnv1a_concat(hash, a, b.drop_last());
        assert((a + b).drop_last() =~= a + b.drop_last());
    }
}

/// `bytes` holds no zero byte.
pub open spec fn no_zero(bytes: Seq<u8>) -> bool {
    forall|k: int| 0 <= k < bytes.len() ==> #[trigger] bytes[k] != 0
}

proof fn lemma_split_at_zero(a1: Seq<u8>, r1: Seq<u8>, a2: Seq<u8>, r2: Seq<u8>)
    requires
        no_zero(a1),
        no_zero(a2),
        a1 + seq![0u8] + r1 == a2 + seq![0u8] + r2,
    ensures
        a1 == a2,
        r1 == r2,
{
    let s = a1 + seq![0u8] + r1;
    let t = a2 + seq![0u8] + r2;
    if a1.len() < a2.len() {
        assert(s[a1.len() as int] == 0u8);
        assert(t[a1.len() as int] == a2[a1.len() as int]);
    } else if a2.len() < a1.len() {
        assert(t[a2.len() as int] == 0u8);
        assert(s[a2.len() as int] == a1[a2.len() as int]);
    }
    assert(a1.len() == a2.len());
    assert forall|k: int| 0 <= k < a1.len() implies a1[k] == a2[k] by {
        assert(s[k] == a1[k] && t[k] == a2[k]);
    }
    assert(a1 =~= a2);
    assert(r1 =~= s.skip(a1.len() as int + 1));
    assert(r2 =~= t.skip(a2.len() as int + 1));
}

/// The zero bytes keep the parts apart: when no part holds a zero byte,
/// workspaces that differ in connection type, host or path hash different
/// bytes.
pub proof fn lemma_hue_input_distinct(
    connection: Seq<u8>,
    host: Seq<u8>,
    path: Seq<u8>,
    other_connection: Seq<u8>,
    other_host: Seq<u8>,
    other_path: Seq<u8>,
)
    requires
        no_zero(connection),
        no_zero(host),
        no_zero(path),
        no_zero(other_connection),
        no_zero(other_host),
        no_zero(other_path),
        hue_input(connection, host, path) == hue_input(other_connection, other_host, other_path),
    ensures
        connection == other_connection,
        host == other_host,
        path == other_path,
{
    let z = seq![0u8];
    assert(hue_input(connection, host, path) =~= connection + z + (host + z + (path + z)));
    assert(hue_input(other_connection, other_host, other_path) =~= other_connection + z + (
    other_host + z + (other_path + z)));
    lemma_split_at_zero(connection, host + z + (path + z), other_connection, other_host + z + (
    other_path + z));
    lemma_split_at_zero(host, path + z, other_host, other_path + z);
    assert(path =~= (path + z).drop_last());
    assert(other_path =~= (other_path + z).drop_last());
}

/// The hue step, in `0..3600`, of the workspace whose first root has the
/// path bytes `path`, on the remote connection `remote` (type and host), or
/// local. The hue is the step divided by 3600; the hash is FNV-1a, which
/// stays the same across launches and Rust versions.
pub fn workspace_hue_step(path: &[u8], remote: Option<(&str, &str)>) -> (r: u64)
    ensures
        r < HUE_STEPS,
        r == match remote {
            Some((connection, host)) => spec_hue_step(
                connection.spec_bytes(),
                host.spec_bytes(),
                path@,
            ),
            None => spec_hue_step(seq![108u8, 111u8, 99u8, 97u8, 108u8], seq![], path@),
        },
{
    let local: [u8; 5] = [108, 111, 99, 97, 108];
    let no_host: [u8; 0] = [];
    let zero: [u8; 1] = [0];
    let (connection, host): (&[u8], &[u8]) = match remote {
        Some((c, h)) => (c.as_bytes(), h.as_bytes()),
        None => (local.as_slice(), no_host.as_slice()),
    };
    assert(no_host@ =~= seq![]);
    assert(local@ =~= seq![108u8, 111u8, 99u8, 97u8, 108u8]);
    let h0 = hash_bytes(FNV_OFFSET, connection);
    let h1 = hash_bytes(h0, zero.as_slice());
    let h2 = hash_bytes(h1, host);
    let h3 = hash_bytes(h2, zero.as_slice());
    let h4 = hash_bytes(h3, path);
    let h5 = hash_bytes(h4, zero.as_slice());
    proof {
        let c = connection@;
        let z = seq![0u8];
        assert(zero@ =~= z);
        lemma_fnv1a_concat(FNV_OFFSET, c, z);
        lemma_fnv1a_concat(FNV_OFFSET, c + z, host@);
        lemma_fnv1a_concat(FNV_OFFSET, c + z + host@, z);
        lemma_fnv1a_concat(FNV_OFFSET, c + z + host@ + z, path@);
        lemma_fnv1a_concat(FNV_OFFSET, c + z + host@ + z + path@, z);
    }
    h5 % HUE_STEPS
}

} // verus!
