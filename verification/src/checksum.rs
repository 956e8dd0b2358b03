//! Content digests of models and generators.
//!
//! A model's digest hashes its canonical byte encoding; a generator's
//! digest hashes the concatenation of its models' digests.  Both serve
//! diagnostic display only — the cache layer does not consult them.

use vstd::prelude::*;

use sha2::{Digest, Sha256};

use crate::codec::{enc_model, push_model};
use crate::generator::Generator;
use crate::model::{Model, ModelView};

verus! {

/// The SHA-256 digest of a byte string: a fixed function of the bytes
/// alone, left unstated beyond its length.
pub uninterp spec fn sha256_of(data: Seq<u8>) -> Seq<u8>;

/// Relies on `sha2::Sha256`: the digest depends on the input bytes alone
/// and is 32 bytes long.
#[verifier::external_body]
fn sha256(data: &Vec<u8>) -> (r: Vec<u8>)
    ensures
        r@ == sha256_of(data@),
        r@.len() == 32,
{
    let mut digest = Sha256::new();
    digest.update(data);
    digest.finalize().to_vec()
}

/// The digests of the first `i` models of a cascade, back to back.
pub open spec fn cascade_digests(models: Seq<ModelView>, i: int) -> Seq<u8>
    decreases i,
{
    if i <= 0 {
        Seq::empty()
    } else {
        cascade_digests(models, i - 1) + sha256_of(enc_model(models[i - 1]))
    }
}

impl Model {
    /// Calculates the content digest of this model: the hash of its
    /// canonical byte encoding.
    pub fn calculate_checksum(&self) -> (r: Vec<u8>)
        ensures
            r@ == sha256_of(enc_model(self@)),
            r@.len() == 32,
    {
        let mut buf: Vec<u8> = Vec::new();
        push_model(&mut buf, self);
        proof {
            assert(buf@ =~= enc_model(self@));
        }
        sha256(&buf)
    }
}

impl Generator {
    /// Calculates the content digest of this generator: the hash of its
    /// models' digests, concatenated in cascade order.
    pub fn calculate_checksum(&self) -> (r: Vec<u8>)
        ensures
            r@ == sha256_of(cascade_digests(self@.models, self@.models.len() as int)),
            r@.len() == 32,
    {
        let ghost views = self@.models;
        let mut buf: Vec<u8> = Vec::new();
        let mut k: usize = 0;
        while k < self.models.len()
            invariant
                0 <= k <= self.models@.len(),
                views == self@.models,
                views.len() == self.models@.len(),
                buf@ == cascade_digests(views, k as int),
            decreases self.models@.len() - k,
        {
            let mut digest = self.models[k].calculate_checksum();
            let ghost before = buf@;
            let mut j: usize = 0;
            while j < digest.len()
                invariant
                    0 <= j <= digest@.len(),
                    buf@ == before + digest@.take(j as int),
                decreases digest@.len() - j,
            {
                buf.push(digest[j]);
                j += 1;
                proof {
                    assert(buf@ =~= before + digest@.take(j as int));
                }
            }
            k += 1;
            proof {
                assert(digest@.take(digest@.len() as int) =~= digest@);
                assert(views[k - 1] == self.models@[k - 1]@);
                assert(buf@ =~= cascade_digests(views, k as int));
            }
        }
        sha256(&buf)
    }
}

} // verus!
