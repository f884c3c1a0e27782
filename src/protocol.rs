//! The decisions of both sides of the wire: the client's root update after
//! a push, the client's check of a download, and the server's handling of
//! an upload.
use vstd::prelude::*;
use crate::digest::{Digest, MalformedHash, blake3_of, hex_decode, is_hex_digest};
use crate::merkle::{fold_proof, merkle_path, merkle_root, recover_root};
use crate::tree::{HMap, Proof};

verus! {

/// A held root as bytes, `None` before the first push.
pub open spec fn held_view(held: Option<Digest>) -> Option<Seq<u8>> {
    match held {
        Some(d) => Some(d@),
        None => None,
    }
}

/// After a push, the root the client installs: the proof must give back the
/// root the client held before (none before the first push); then the new
/// root is the proof applied to the uploaded hash. `None` when the proof
/// does not match the held root, in which case the server is not trusted.
pub fn next_root(proof: &Proof, uploaded: Digest, held: Option<Digest>) -> (r: Option<Digest>)
    ensures
        r is Some <==> recover_root(proof.nth as nat, proof.path()) == held_view(held),
        r matches Some(d) ==> d@ == fold_proof(proof.nth as nat, proof.path(), uploaded@),
{
    let previous = proof.hash();
    let consistent = match (previous, held) {
        (None, None) => true,
        (Some(p), Some(h)) => p.same_as(&h),
        _ => false,
    };
    if consistent {
        Some(proof.prove_on(uploaded).digest())
    } else {
        None
    }
}

/// Whether downloaded bytes are the ones the proof binds to `root`.
pub fn verify_content(proof: &Proof, content: &[u8], root: Digest) -> (r: bool)
    ensures
        r == (fold_proof(proof.nth as nat, proof.path(), blake3_of(content@)) == root@),
{
    proof.prove_on(Digest::of(content)).against(root)
}

/// The server's side of a push: reads the uploaded hash from hex, appends
/// the payload and returns the proof with the new root. The store is left
/// as it was when the hash is not 64 hex digits.
pub fn accept_upload<D>(store: &mut HMap<D>, hash_hex: &str, data: D) -> (r: Result<
    (Proof, Digest),
    MalformedHash,
>)
    requires
        old(store).wf(),
    ensures
        final(store).wf(),
        r is Ok <==> is_hex_digest(hash_hex@),
        r is Err ==> *final(store) == *old(store),
        r matches Ok((p, root)) ==> {
            &&& final(store).payloads() == old(store).payloads().push(data)
            &&& final(store).leaves() == old(store).leaves().push(hex_decode(hash_hex@))
            &&& p.nth == old(store).payloads().len()
            &&& p.path() == merkle_path(final(store).leaves(), p.nth as nat)
            &&& root@ == merkle_root(final(store).leaves())
        },
{
    match Digest::from_hex(hash_hex) {
        Ok(hash) => {
            let p = store.push(hash, data);
            let root = p.prove_on(hash).digest();
            Ok((p, root))
        },
        Err(e) => Err(e),
    }
}

} // verus!
