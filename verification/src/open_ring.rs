//! A signature in the making, member by member.

use vstd::prelude::*;

use crate::point::{elements, Point};
use crate::protocol::{
    hash_result, link_agrees, place, remainder_is_next_place, signature_of, signed_challenge,
    signed_link, steps, ErrorView,
};
use crate::sag::hash_to_scalar;
use crate::scalar::Scalar;
use crate::types::{Error, RingSignatureBinary};

verus! {

/// A ring that the signer has opened and goes round, drawing a nonce at each member.
pub struct OpenRing<'a> {
    message: &'a [u8],
    ring_pubkeys: &'a [Point],
    signer_index: usize,
    alpha: Scalar,
    current_index: usize,
    r_scalars: Vec<Scalar>,
    c_scalars: Vec<Scalar>,
    drawn: Ghost<Seq<nat>>,
}

impl<'a> OpenRing<'a> {
    /// The message.
    pub closed spec fn message(&self) -> Seq<u8> {
        self.message@
    }

    /// The members of the ring.
    pub closed spec fn ring(&self) -> Seq<nat> {
        elements(self.ring_pubkeys@)
    }

    /// The signer's place.
    pub closed spec fn signer(&self) -> nat {
        self.signer_index as nat
    }

    /// The nonces so far: the one that opened the ring, then one for each member passed.
    pub closed spec fn nonces(&self) -> Seq<nat> {
        self.drawn@
    }

    /// The link that a further nonce gives.
    pub open spec fn next_link(&self, nonce: nat) -> nat {
        signed_link(
            self.message(),
            self.ring(),
            self.signer(),
            self.nonces().push(nonce),
            self.nonces().len(),
        )
    }

    /// Every link so far could be hashed, and there is a nonce for each.
    pub open spec fn wf(&self) -> bool {
        &&& self.signer() < self.ring().len()
        &&& 1 <= self.nonces().len() <= self.ring().len()
        &&& !self.ring().contains(0)
        &&& forall|k: nat|
            k < self.nonces().len() ==> #[trigger] signed_link(
                self.message(),
                self.ring(),
                self.signer(),
                self.nonces(),
                k,
            ) != 0
    }

    /// The vectors hold the challenges and the responses of the members passed.
    #[verifier::type_invariant]
    closed spec fn holds(&self) -> bool {
        let n = self.ring().len();
        let j = self.signer();
        let step = self.nonces().len();
        &&& self.wf()
        &&& self.alpha@ == self.nonces()[0]
        &&& self.current_index == place(j, step, n)
        &&& self.c_scalars@.len() == n
        &&& self.r_scalars@.len() == n
        &&& forall|i: int|
            0 <= i < n && steps(j, i as nat, n) <= step ==> (#[trigger] self.c_scalars@[i])@
                == signed_challenge(
                self.message(),
                self.ring(),
                j,
                self.nonces(),
                steps(j, i as nat, n),
            )
        &&& forall|i: int|
            0 <= i < n && steps(j, i as nat, n) < step ==> (#[trigger] self.r_scalars@[i])@
                == self.nonces()[steps(j, i as nat, n) as int]
    }

    /// Opens the ring at the signer's place with a first nonce.
    pub fn open(
        message: &'a [u8],
        ring_pubkeys: &'a [Point],
        signer_index: usize,
        alpha: &Scalar,
    ) -> (r: Result<OpenRing<'a>, Error>)
        requires
            signer_index < ring_pubkeys@.len(),
        ensures
            match r {
                Ok(open) => {
                    &&& open.wf()
                    &&& open.message() == message@
                    &&& open.ring() == elements(ring_pubkeys@)
                    &&& open.signer() == signer_index
                    &&& open.nonces() == seq![alpha@]
                },
                Err(error) => hash_result(
                    message@,
                    elements(ring_pubkeys@),
                    signed_link(
                        message@,
                        elements(ring_pubkeys@),
                        signer_index as nat,
                        seq![alpha@],
                        0,
                    ),
                ) == Err::<nat, ErrorView>(error@),
            },
    {
        let ghost ring = elements(ring_pubkeys@);
        let ghost drawn = seq![alpha@];
        let ring_size = ring_pubkeys.len();
        let r_scalars: Vec<Scalar> = vec![Scalar::zero(); ring_size];
        let mut c_scalars: Vec<Scalar> = vec![Scalar::zero(); ring_size];
        let alpha_g = Point::generator().mul(alpha);
        let start_index = (signer_index + 1) % ring_size;
        proof {
            remainder_is_next_place(signer_index as nat, ring.len());
            assert(alpha_g@ == signed_link(message@, ring, signer_index as nat, drawn, 0));
        }
        match hash_to_scalar(message, ring_pubkeys, &alpha_g) {
            Ok(c) => {
                c_scalars[start_index] = c;
            },
            Err(error) => {
                return Err(error);
            },
        }
        Ok(
            OpenRing {
                message,
                ring_pubkeys,
                signer_index,
                alpha: *alpha,
                current_index: start_index,
                r_scalars,
                c_scalars,
                drawn: Ghost(drawn),
            },
        )
    }

    /// Whether every other member has been passed.
    pub fn is_round(&self) -> (r: bool)
        ensures
            self.wf(),
            r == (self.nonces().len() == self.ring().len()),
    {
        proof {
            use_type_invariant(self);
        }
        self.current_index == self.signer_index
    }

    /// Passes the next member with a nonce as its response.
    pub fn pass(self, nonce: &Scalar) -> (r: Result<OpenRing<'a>, Error>)
        requires
            self.nonces().len() < self.ring().len(),
        ensures
            match r {
                Ok(open) => {
                    &&& open.wf()
                    &&& open.message() == self.message()
                    &&& open.ring() == self.ring()
                    &&& open.signer() == self.signer()
                    &&& open.nonces() == self.nonces().push(nonce@)
                },
                Err(error) => hash_result(self.message(), self.ring(), self.next_link(nonce@))
                    == Err::<nat, ErrorView>(error@),
            },
    {
        proof {
            use_type_invariant(&self);
        }
        let ghost ring = self.ring();
        let ghost n = ring.len();
        let ghost j = self.signer();
        let ghost before = self.nonces();
        let ghost step = before.len();
        let ghost drawn = before.push(nonce@);
        let message = self.message;
        let ring_pubkeys = self.ring_pubkeys;
        let signer_index = self.signer_index;
        let alpha = self.alpha;
        let current_index = self.current_index;
        let mut r_scalars = self.r_scalars;
        let mut c_scalars = self.c_scalars;
        r_scalars[current_index] = *nonce;
        let xi = Point::generator().mul(&r_scalars[current_index]).add(
            &ring_pubkeys[current_index].mul(&c_scalars[current_index]),
        );
        let next_index = (current_index + 1) % ring_pubkeys.len();
        proof {
            remainder_is_next_place(current_index as nat, n);
            assert(steps(j, current_index as nat, n) == step);
            assert(ring[current_index as int] == ring_pubkeys@[current_index as int]@);
            assert forall|k: nat| k < step implies #[trigger] signed_link(
                message@,
                ring,
                j,
                drawn,
                k,
            ) == signed_link(message@, ring, j, before, k) && signed_challenge(
                message@,
                ring,
                j,
                drawn,
                k + 1,
            ) == signed_challenge(message@, ring, j, before, k + 1) by {
                link_agrees(message@, ring, j, before, drawn, k);
            }
            assert forall|i: int| 0 <= i < n && steps(j, i as nat, n) <= step implies (
            #[trigger] c_scalars@[i])@ == signed_challenge(
                message@,
                ring,
                j,
                drawn,
                steps(j, i as nat, n),
            ) by {
                let k = (steps(j, i as nat, n) - 1) as nat;
                link_agrees(message@, ring, j, before, drawn, k);
            }
            assert(xi@ == signed_link(message@, ring, j, drawn, step));
        }
        match hash_to_scalar(message, ring_pubkeys, &xi) {
            Ok(c) => {
                c_scalars[next_index] = c;
            },
            Err(error) => {
                return Err(error);
            },
        }
        Ok(
            OpenRing {
                message,
                ring_pubkeys,
                signer_index,
                alpha,
                current_index: next_index,
                r_scalars,
                c_scalars,
                drawn: Ghost(drawn),
            },
        )
    }

    /// Closes the ring with the signer's private key.
    pub fn close(self, key: &Scalar) -> (r: RingSignatureBinary)
        requires
            self.nonces().len() == self.ring().len(),
        ensures
            r@ == signature_of(self.message(), self.ring(), self.signer(), key@, self.nonces()),
    {
        proof {
            use_type_invariant(&self);
        }
        let signer_index = self.signer_index;
        let mut r_scalars = self.r_scalars;
        let c_scalars = self.c_scalars;
        r_scalars[signer_index] = self.alpha.sub(&c_scalars[signer_index].mul(key));
        let signature = RingSignatureBinary { c0: c_scalars[0], s: r_scalars };
        assert(signature@ =~= signature_of(
            self.message(),
            self.ring(),
            self.signer(),
            key@,
            self.nonces(),
        ));
        signature
    }
}

} // verus!
