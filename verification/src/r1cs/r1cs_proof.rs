//! Definition of the proof struct, and of the challenges that belong to a
//! proof.

use vstd::prelude::*;
use crate::ecp::prove_ecp;
use crate::group::{Field, Group};
use crate::ipa::prove_ipa;
use crate::transcript::{Log, append, append_scalar, challenge, challenged};

verus! {

/// A proof of some statement specified by a constraint system.
#[derive(Clone, Debug)]
pub struct R1CSProof<G: Group> {
    /// Commitment to the inputs of the multipliers.
    pub A_I: G::Encoding,
    /// Commitment to the outputs of the multipliers.
    pub A_O: G::Encoding,
    /// Commitment to the blinding vectors.
    pub S: G::Encoding,
    /// Commitments to the coefficients of `t(x)`.
    pub T_1: G::Encoding,
    pub T_2: G::Encoding,
    pub T_3: G::Encoding,
    pub T_4: G::Encoding,
    pub T_5: G::Encoding,
    pub T_6: G::Encoding,
    /// Evaluation of the polynomial `t(x)` at the challenge `x`.
    pub t_x: G::Scalar,
    /// Blinding factor for the synthetic commitment to `t(x)`.
    pub t_x_blinding: G::Scalar,
    /// Blinding factor for the synthetic commitment to the inner product
    /// arguments.
    pub e_blinding: G::Scalar,
    /// Proof of the inner product.
    pub ipp_proof: prove_ipa<G>,
    /// Commitment to the vector that blinds the inputs.
    pub S_prime: G::Encoding,
    pub T_1_prime: G::Encoding,
    /// The blinding vector under the two halves of the ciphertexts.
    pub S1_prime: G::Encoding,
    pub S2_prime: G::Encoding,
    pub tc_x: G::Scalar,
    pub tc_x_blinding: G::Scalar,
    pub ec_blinding: G::Scalar,
    pub t_cross: G::Scalar,
    pub r_blinding: G::Scalar,
    /// Proof that the inputs were applied to the ciphertexts.
    pub ecp_batched: prove_ecp<G>,
}

/// The challenges that are drawn while a proof is made or read.
pub struct Challenges {
    pub y: int,
    pub z: int,
    pub x: int,
    pub x_prime: int,
    pub x_ipp: int,
    pub w_agg: int,
    pub batch: int,
}

impl<G: Group> R1CSProof<G> {
    /// The log when `y` is drawn.
    pub open spec fn log_y(self, log: Log) -> Log {
        append(
            append(append(log, "A_I"@, G::bytes(self.A_I)), "A_O"@, G::bytes(self.A_O)),
            "S"@,
            G::bytes(self.S),
        )
    }

    /// The log when `z` is drawn.
    pub open spec fn log_z(self, log: Log) -> Log {
        challenged(self.log_y(log), "y"@)
    }

    /// The log when `x` is drawn.
    pub open spec fn log_x(self, log: Log) -> Log {
        let l0 = challenged(self.log_z(log), "z"@);
        let l1 = append(l0, "T_1"@, G::bytes(self.T_1));
        let l3 = append(l1, "T_3"@, G::bytes(self.T_3));
        let l4 = append(l3, "T_4"@, G::bytes(self.T_4));
        let l5 = append(l4, "T_5"@, G::bytes(self.T_5));
        let l6 = append(l5, "T_6"@, G::bytes(self.T_6));
        append(l6, "T_2"@, G::bytes(self.T_2))
    }

    /// The log when `x_prime` is drawn.
    pub open spec fn log_x_prime(self, log: Log) -> Log {
        let l0 = challenged(self.log_x(log), "x"@);
        let l1 = append_scalar(l0, "t_x"@, self.t_x.value());
        let l2 = append_scalar(l1, "t_x_blinding"@, self.t_x_blinding.value());
        let l3 = append_scalar(l2, "e_blinding"@, self.e_blinding.value());
        let l4 = append(l3, "S_prime"@, G::bytes(self.S_prime));
        let l5 = append(l4, "T_1_prime"@, G::bytes(self.T_1_prime));
        let l6 = append(l5, "S1_prime"@, G::bytes(self.S1_prime));
        append(l6, "S2_prime"@, G::bytes(self.S2_prime))
    }

    /// The log when `x_ipp` is drawn.
    pub open spec fn log_x_ipp(self, log: Log) -> Log {
        let l0 = challenged(self.log_x_prime(log), "x_prime"@);
        let l1 = append_scalar(l0, "tc_x"@, self.tc_x.value());
        let l2 = append_scalar(l1, "tc_x_blinding"@, self.tc_x_blinding.value());
        let l3 = append_scalar(l2, "ec_blinding"@, self.ec_blinding.value());
        let l4 = append_scalar(l3, "r_blinding"@, self.r_blinding.value());
        append_scalar(l4, "t_cross"@, self.t_cross.value())
    }

    /// The log when `w_agg` is drawn.
    pub open spec fn log_w(self, log: Log) -> Log {
        challenged(self.log_x_ipp(log), "x_ipp"@)
    }

    /// The log at the start of the inner product argument.
    pub open spec fn log_ipp(self, log: Log) -> Log {
        challenged(self.log_w(log), "w_agg"@)
    }

    /// The log when `chall_batched_ecp` is drawn.
    pub open spec fn log_batch(self, log: Log, n: int) -> Log {
        self.ipp_proof.log_after(self.log_ipp(log), n)
    }

    /// The log at the start of the argument on the ciphertexts.
    pub open spec fn log_ecp(self, log: Log, n: int) -> Log {
        challenged(self.log_batch(log, n), "chall_batched_ecp"@)
    }

    /// The log after the whole proof.
    pub open spec fn log_end(self, log: Log, n: int) -> Log {
        self.ecp_batched.log_after(self.log_ecp(log, n), n)
    }

    /// The challenges, for vectors of `n` inputs, when the proof is appended
    /// to a transcript with the log `log`.
    pub open spec fn challenges(self, log: Log, n: int) -> Challenges {
        Challenges {
            y: challenge::<G::Scalar>(self.log_y(log), "y"@),
            z: challenge::<G::Scalar>(self.log_z(log), "z"@),
            x: challenge::<G::Scalar>(self.log_x(log), "x"@),
            x_prime: challenge::<G::Scalar>(self.log_x_prime(log), "x_prime"@),
            x_ipp: challenge::<G::Scalar>(self.log_x_ipp(log), "x_ipp"@),
            w_agg: challenge::<G::Scalar>(self.log_w(log), "w_agg"@),
            batch: challenge::<G::Scalar>(self.log_batch(log, n), "chall_batched_ecp"@),
        }
    }
}

} // verus!
