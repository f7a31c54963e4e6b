use vstd::prelude::*;

use crate::gf2::BitScalar;
use crate::online;
use crate::online::{hash_views, Output, PreprocessingOutput};

verus! {

/// A proof held in memory, whose preprocessing is verified together with its
/// online execution.
#[derive(Clone, Debug)]
pub struct Proof {
    /// The preprocessing proof, encoded.
    pub preprocessing: Vec<u8>,
    /// The header of the online proof.
    pub online: online::Proof,
    /// The online transcript, chunk by chunk, in the order produced.
    pub chunks: Vec<Vec<u8>>,
}

impl Proof {
    /// The last step of verification: the result of the online execution is
    /// released only where the preprocessing verified, the online execution
    /// verified with `repetitions` repetitions, and the hidden players' hashes of
    /// the two agree.
    pub fn conclude(
        preprocessing: Option<PreprocessingOutput>,
        online: Option<Output>,
        repetitions: usize,
    ) -> (r: Option<Vec<BitScalar>>)
        ensures
            r is Some <==> preprocessing is Some && online is Some
                && online->0.spec_hashes().len() == repetitions && online->0.spec_hashes()
                == hash_views(preprocessing->0.hidden@),
            r is Some ==> r->0@ == online->0.spec_result(),
    {
        match preprocessing {
            Some(pp) => match online {
                Some(out) => out.check(&pp, repetitions),
                None => None,
            },
            None => None,
        }
    }
}

} // verus!
