use noise_cdf::skeleton::{matrix_chain, BoneId, CharacterSkeleton, MATRIX_SLOTS};

const ALL_BONES: [BoneId; 12] = [
    BoneId::Head,
    BoneId::Chest,
    BoneId::Belt,
    BoneId::Shorts,
    BoneId::LHand,
    BoneId::RHand,
    BoneId::LFoot,
    BoneId::RFoot,
    BoneId::Back,
    BoneId::Torso,
    BoneId::LShoulder,
    BoneId::RShoulder,
];

#[test]
fn new_skeleton_is_at_rest() {
    let skeleton = CharacterSkeleton::new(7u32);
    for id in ALL_BONES {
        assert_eq!(skeleton.bone(id), 7);
    }
}

#[test]
fn set_bone_changes_one_bone() {
    for id in ALL_BONES {
        let mut skeleton = CharacterSkeleton::new(0i64);
        skeleton.set_bone(id, -5);
        for other in ALL_BONES {
            assert_eq!(skeleton.bone(other), if other == id { -5 } else { 0 });
        }
    }
}

#[test]
fn interpolate_blends_bone_by_bone() {
    let mut skeleton = CharacterSkeleton::new(0i32);
    let mut target = CharacterSkeleton::new(0i32);
    for (n, id) in ALL_BONES.iter().enumerate() {
        skeleton.set_bone(*id, n as i32);
        target.set_bone(*id, 100 * n as i32);
    }
    skeleton.interpolate(&target, |from: i32, to: i32| from + (to - from) / 2);
    for (n, id) in ALL_BONES.iter().enumerate() {
        let n = n as i32;
        assert_eq!(skeleton.bone(*id), n + (100 * n - n) / 2);
        assert_eq!(target.bone(*id), 100 * n);
    }
}

#[test]
fn clone_keeps_the_bones() {
    let mut skeleton = CharacterSkeleton::new(1u8);
    skeleton.set_bone(BoneId::Back, 9);
    let copy = skeleton.clone();
    for id in ALL_BONES {
        assert_eq!(copy.bone(id), skeleton.bone(id));
    }
}

#[test]
fn matrix_chains_of_all_slots() {
    let expected: Vec<Vec<BoneId>> = vec![
        vec![BoneId::Torso, BoneId::Head],
        vec![BoneId::Torso, BoneId::Chest],
        vec![BoneId::Torso, BoneId::Belt],
        vec![BoneId::Torso, BoneId::Shorts],
        vec![BoneId::Torso, BoneId::LHand],
        vec![BoneId::Torso, BoneId::RHand],
        vec![BoneId::Torso, BoneId::LFoot],
        vec![BoneId::Torso, BoneId::RFoot],
        vec![BoneId::Torso, BoneId::Chest, BoneId::Back],
        vec![BoneId::Torso],
        vec![BoneId::Torso, BoneId::LShoulder],
        vec![BoneId::Torso, BoneId::RShoulder],
        vec![],
        vec![],
        vec![],
        vec![],
    ];
    assert_eq!(expected.len(), MATRIX_SLOTS);
    for (slot, chain) in expected.iter().enumerate() {
        assert_eq!(&matrix_chain(slot), chain);
    }
    assert_eq!(matrix_chain(16), Vec::new());
    assert_eq!(matrix_chain(usize::MAX), Vec::new());
}

#[test]
fn matrices_are_products_along_the_chains() {
    let mut skeleton = CharacterSkeleton::new(0u64);
    for (n, id) in ALL_BONES.iter().enumerate() {
        skeleton.set_bone(*id, n as u64 + 1);
    }
    let base = |bone: u64| bone + 20;
    let compose = |before: u64, last: u64| before * 100 + last;
    let out = skeleton.compute_matrices(&base, &compose, 7);
    let torso = 30;
    assert_eq!(
        out,
        vec![
            torso * 100 + 21,
            torso * 100 + 22,
            torso * 100 + 23,
            torso * 100 + 24,
            torso * 100 + 25,
            torso * 100 + 26,
            torso * 100 + 27,
            torso * 100 + 28,
            (torso * 100 + 22) * 100 + 29,
            torso,
            torso * 100 + 31,
            torso * 100 + 32,
            7,
            7,
            7,
            7,
        ]
    );
}
