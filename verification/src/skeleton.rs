//! The bones of a humanoid figure and the order in which their transforms
//! are composed. The library is generic in what a bone holds.

use vstd::prelude::*;

verus! {

/// The bones of a character.
#[derive(Clone, Copy, Debug, PartialEq, Eq, Structural)]
pub enum BoneId {
    Head,
    Chest,
    Belt,
    Shorts,
    LHand,
    RHand,
    LFoot,
    RFoot,
    Back,
    Torso,
    LShoulder,
    RShoulder,
}

/// Number of transforms that a figure hands to the renderer.
pub const MATRIX_SLOTS: usize = 16;

/// One bone of type `B` for each [`BoneId`].
#[derive(Clone)]
pub struct CharacterSkeleton<B> {
    head: B,
    chest: B,
    belt: B,
    shorts: B,
    l_hand: B,
    r_hand: B,
    l_foot: B,
    r_foot: B,
    back: B,
    torso: B,
    l_shoulder: B,
    r_shoulder: B,
}

/// The bones whose transforms are multiplied, first to last, to give the
/// transform in `slot`: every bone hangs on the torso, the back on the chest
/// as well; the slots behind the last bone are left at the identity.
pub open spec fn spec_matrix_chain(slot: int) -> Seq<BoneId> {
    if slot == 0 {
        seq![BoneId::Torso, BoneId::Head]
    } else if slot == 1 {
        seq![BoneId::Torso, BoneId::Chest]
    } else if slot == 2 {
        seq![BoneId::Torso, BoneId::Belt]
    } else if slot == 3 {
        seq![BoneId::Torso, BoneId::Shorts]
    } else if slot == 4 {
        seq![BoneId::Torso, BoneId::LHand]
    } else if slot == 5 {
        seq![BoneId::Torso, BoneId::RHand]
    } else if slot == 6 {
        seq![BoneId::Torso, BoneId::LFoot]
    } else if slot == 7 {
        seq![BoneId::Torso, BoneId::RFoot]
    } else if slot == 8 {
        seq![BoneId::Torso, BoneId::Chest, BoneId::Back]
    } else if slot == 9 {
        seq![BoneId::Torso]
    } else if slot == 10 {
        seq![BoneId::Torso, BoneId::LShoulder]
    } else if slot == 11 {
        seq![BoneId::Torso, BoneId::RShoulder]
    } else {
        seq![]
    }
}

/// The chain of bones of `slot`.
pub fn matrix_chain(slot: usize) -> (chain: Vec<BoneId>)
    ensures
        chain@ == spec_matrix_chain(slot as int),
{
    let mut chain: Vec<BoneId> = Vec::new();
    if slot >= 12 {
        assert(chain@ =~= spec_matrix_chain(slot as int));
        return chain;
    }
    chain.push(BoneId::Torso);
    if slot == 8 {
        chain.push(BoneId::Chest);
    }
    if slot != 9 {
        let last = if slot == 0 {
            BoneId::Head
        } else if slot == 1 {
            BoneId::Chest
        } else if slot == 2 {
            BoneId::Belt
        } else if slot == 3 {
            BoneId::Shorts
        } else if slot == 4 {
            BoneId::LHand
        } else if slot == 5 {
            BoneId::RHand
        } else if slot == 6 {
            BoneId::LFoot
        } else if slot == 7 {
            BoneId::RFoot
        } else if slot == 8 {
            BoneId::Back
        } else if slot == 10 {
            BoneId::LShoulder
        } else {
            BoneId::RShoulder
        };
        chain.push(last);
    }
    assert(chain@ =~= spec_matrix_chain(slot as int));
    chain
}

/// Whether `m` can be the product of the transforms of the bones of a chain
/// that is not empty: `base` gives the transform of a bone, and `compose`
/// multiplies what stands before the last bone by the last bone's transform.
pub open spec fn chain_product<B: Copy, M, FB: Fn(B) -> M, FM: Fn(M, M) -> M>(
    skeleton: CharacterSkeleton<B>,
    base: FB,
    compose: FM,
    chain: Seq<BoneId>,
    m: M,
) -> bool
    decreases chain.len(),
{
    if chain.len() <= 1 {
        chain.len() == 1 && call_ensures(base, (skeleton.spec_bone(chain[0]),), m)
    } else {
        exists|before: M, last: M|
            chain_product(skeleton, base, compose, chain.drop_last(), before) && call_ensures(
                base,
                (skeleton.spec_bone(chain.last()),),
                last,
            ) && call_ensures(compose, (before, last), m)
    }
}

/// Whether `m` can stand in `slot`: the product along the slot's chain, or
/// `identity` where the chain is empty.
pub open spec fn slot_transform<B: Copy, M, FB: Fn(B) -> M, FM: Fn(M, M) -> M>(
    skeleton: CharacterSkeleton<B>,
    base: FB,
    compose: FM,
    identity: M,
    slot: int,
    m: M,
) -> bool {
    if spec_matrix_chain(slot).len() == 0 {
        m == identity
    } else {
        chain_product(skeleton, base, compose, spec_matrix_chain(slot), m)
    }
}

impl<B: Copy> CharacterSkeleton<B> {
    /// The bone `id` of this skeleton.
    pub closed spec fn spec_bone(self, id: BoneId) -> B {
        match id {
            BoneId::Head => self.head,
            BoneId::Chest => self.chest,
            BoneId::Belt => self.belt,
            BoneId::Shorts => self.shorts,
            BoneId::LHand => self.l_hand,
            BoneId::RHand => self.r_hand,
            BoneId::LFoot => self.l_foot,
            BoneId::RFoot => self.r_foot,
            BoneId::Back => self.back,
            BoneId::Torso => self.torso,
            BoneId::LShoulder => self.l_shoulder,
            BoneId::RShoulder => self.r_shoulder,
        }
    }

    /// A skeleton at rest: every bone is `rest`.
    pub fn new(rest: B) -> (skeleton: Self)
        ensures
            forall|id: BoneId| #[trigger] skeleton.spec_bone(id) == rest,
    {
        Self {
            head: rest,
            chest: rest,
            belt: rest,
            shorts: rest,
            l_hand: rest,
            r_hand: rest,
            l_foot: rest,
            r_foot: rest,
            back: rest,
            torso: rest,
            l_shoulder: rest,
            r_shoulder: rest,
        }
    }

    /// The bone `id`.
    pub fn bone(&self, id: BoneId) -> (bone: B)
        ensures
            bone == self.spec_bone(id),
    {
        match id {
            BoneId::Head => self.head,
            BoneId::Chest => self.chest,
            BoneId::Belt => self.belt,
            BoneId::Shorts => self.shorts,
            BoneId::LHand => self.l_hand,
            BoneId::RHand => self.r_hand,
            BoneId::LFoot => self.l_foot,
            BoneId::RFoot => self.r_foot,
            BoneId::Back => self.back,
            BoneId::Torso => self.torso,
            BoneId::LShoulder => self.l_shoulder,
            BoneId::RShoulder => self.r_shoulder,
        }
    }

    /// Replaces the bone `id` and leaves the others as they are.
    pub fn set_bone(&mut self, id: BoneId, bone: B)
        ensures
            final(self).spec_bone(id) == bone,
            forall|other: BoneId|
                other != id ==> #[trigger] final(self).spec_bone(other) == old(self).spec_bone(
                    other,
                ),
    {
        match id {
            BoneId::Head => { self.head = bone; },
            BoneId::Chest => { self.chest = bone; },
            BoneId::Belt => { self.belt = bone; },
            BoneId::Shorts => { self.shorts = bone; },
            BoneId::LHand => { self.l_hand = bone; },
            BoneId::RHand => { self.r_hand = bone; },
            BoneId::LFoot => { self.l_foot = bone; },
            BoneId::RFoot => { self.r_foot = bone; },
            BoneId::Back => { self.back = bone; },
            BoneId::Torso => { self.torso = bone; },
            BoneId::LShoulder => { self.l_shoulder = bone; },
            BoneId::RShoulder => { self.r_shoulder = bone; },
        }
    }

    /// The transforms of the figure, one for each of the [`MATRIX_SLOTS`]
    /// slots: the product along the slot's chain of bones, computed from
    /// left to right, or `identity` for a slot without bones.
    pub fn compute_matrices<M: Copy, FB: Fn(B) -> M, FM: Fn(M, M) -> M>(
        &self,
        base: &FB,
        compose: &FM,
        identity: M,
    ) -> (out: Vec<M>)
        requires
            forall|bone: B| call_requires(*base, (bone,)),
            forall|left: M, right: M| call_requires(*compose, (left, right)),
        ensures
            out.len() == MATRIX_SLOTS,
            forall|slot: int|
                0 <= slot < MATRIX_SLOTS ==> slot_transform(
                    *self,
                    *base,
                    *compose,
                    identity,
                    slot,
                    #[trigger] out@[slot],
                ),
    {
        let mut out: Vec<M> = Vec::new();
        let mut slot: usize = 0;
        while slot < MATRIX_SLOTS
            invariant
                slot <= MATRIX_SLOTS,
                out.len() == slot,
                forall|bone: B| call_requires(*base, (bone,)),
                forall|left: M, right: M| call_requires(*compose, (left, right)),
                forall|s: int|
                    0 <= s < slot ==> slot_transform(
                        *self,
                        *base,
                        *compose,
                        identity,
                        s,
                        #[trigger] out@[s],
                    ),
            decreases MATRIX_SLOTS - slot,
        {
            let chain = matrix_chain(slot);
            if chain.len() == 0 {
                out.push(identity);
            } else {
                let mut m = base(self.bone(chain[0]));
                let mut k: usize = 1;
                assert(chain@.take(1).len() == 1 && chain@.take(1)[0] == chain@[0]);
                while k < chain.len()
                    invariant
                        1 <= k <= chain.len(),
                        forall|bone: B| call_requires(*base, (bone,)),
                        forall|left: M, right: M| call_requires(*compose, (left, right)),
                        chain_product(*self, *base, *compose, chain@.take(k as int), m),
                    decreases chain.len() - k,
                {
                    let last = base(self.bone(chain[k]));
                    let next = compose(m, last);
                    proof {
                        let longer = chain@.take(k + 1);
                        assert(longer.drop_last() =~= chain@.take(k as int));
                        assert(longer.last() == chain@[k as int]);
                    }
                    m = next;
                    k += 1;
                }
                assert(chain@.take(k as int) =~= chain@);
                out.push(m);
            }
            slot += 1;
        }
        out
    }

    /// Moves every bone towards the bone of the same name in `target`: each
    /// becomes what `blend` makes of it and its target.
    pub fn interpolate<F: Fn(B, B) -> B>(&mut self, target: &Self, blend: F)
        requires
            forall|from: B, to: B| call_requires(blend, (from, to)),
        ensures
            forall|id: BoneId|
                call_ensures(
                    blend,
                    (old(self).spec_bone(id), target.spec_bone(id)),
                    #[trigger] final(self).spec_bone(id),
                ),
    {
        self.head = blend(self.head, target.head);
        self.chest = blend(self.chest, target.chest);
        self.belt = blend(self.belt, target.belt);
        self.shorts = blend(self.shorts, target.shorts);
        self.l_hand = blend(self.l_hand, target.l_hand);
        self.r_hand = blend(self.r_hand, target.r_hand);
        self.l_foot = blend(self.l_foot, target.l_foot);
        self.r_foot = blend(self.r_foot, target.r_foot);
        self.back = blend(self.back, target.back);
        self.torso = blend(self.torso, target.torso);
        self.l_shoulder = blend(self.l_shoulder, target.l_shoulder);
        self.r_shoulder = blend(self.r_shoulder, target.r_shoulder);
    }
}

} // verus!
