use pcr_combine::combine::combine;
use pcr_combine::errors::CombineError;
use pcr_combine::events::{EventOracle, TPMEvent};
use pcr_combine::pcrs::compile_pcrs;
use sha2::{Digest, Sha256};

fn event(id: usize, pcr: u8, byte: u8, name: &str) -> TPMEvent {
    let mut hash = vec![0u8; 32];
    hash[0] = byte;
    TPMEvent {
        name: name.into(),
        pcr,
        hash,
        id,
    }
}

fn extend(old: &[u8], digest: &[u8]) -> Vec<u8> {
    let mut hasher = Sha256::new();
    hasher.update(old);
    hasher.update(digest);
    hasher.finalize().to_vec()
}

#[test]
fn identical_images_yield_single_solution() {
    let image = vec![event(0, 4, 1, "A"), event(1, 4, 2, "B"), event(2, 7, 3, "C")];
    let oracle = EventOracle::new(vec![0b01, 0b10, 0b01]);
    let images = vec![image.clone(), image.clone()];

    let solutions = combine(&oracle, &images).unwrap();

    assert_eq!(solutions.len(), 1);
    assert_eq!(solutions[0], compile_pcrs(&image));
}

#[test]
fn ungrouped_differences_yield_cross_product() {
    let oracle = EventOracle::new(vec![0, 0]);
    let image_a = vec![event(0, 4, 1, "first"), event(1, 4, 2, "second")];
    let image_b = vec![event(0, 4, 3, "first"), event(1, 4, 4, "second")];

    let solutions = combine(&oracle, &vec![image_a, image_b]).unwrap();

    assert_eq!(solutions.len(), 4);
    for i in 0..solutions.len() {
        for j in 0..i {
            assert_ne!(solutions[i], solutions[j]);
        }
    }
}

#[test]
fn grouped_differences_never_mix() {
    // Both identifiers share group bit 1: either both values come from
    // image A or both from image B.
    let oracle = EventOracle::new(vec![0b1, 0b1]);
    let image_a = vec![event(0, 4, 1, "first"), event(1, 4, 2, "second")];
    let image_b = vec![event(0, 4, 3, "first"), event(1, 4, 4, "second")];

    let solutions = combine(&oracle, &vec![image_a.clone(), image_b.clone()]).unwrap();

    assert_eq!(solutions.len(), 2);
    assert_eq!(solutions[0], compile_pcrs(&image_a));
    assert_eq!(solutions[1], compile_pcrs(&image_b));
}

#[test]
fn shared_first_event_forks_only_on_second() {
    // One register (4), two identifiers in canonical order sharing a
    // group bit; both images agree on the first digest and differ on
    // the second: exactly two outcomes, each the chain
    // Hash(Hash(zero32 || first) || second-of-one-image).
    let oracle = EventOracle::new(vec![0b1, 0b1]);
    let first = event(0, 4, 9, "first");
    let second_a = event(1, 4, 10, "second");
    let second_b = event(1, 4, 11, "second");
    let image_a = vec![first.clone(), second_a.clone()];
    let image_b = vec![first.clone(), second_b.clone()];

    let solutions = combine(&oracle, &vec![image_a, image_b]).unwrap();

    assert_eq!(solutions.len(), 2);
    let zero32 = vec![0u8; 32];
    let after_first = extend(&zero32, &first.hash);
    let value_a = extend(&after_first, &second_a.hash);
    let value_b = extend(&after_first, &second_b.hash);
    assert_eq!(solutions[0].len(), 1);
    assert_eq!(solutions[0][0].id, 4);
    assert_eq!(solutions[0][0].value, value_a);
    assert_eq!(solutions[1].len(), 1);
    assert_eq!(solutions[1][0].id, 4);
    assert_eq!(solutions[1][0].value, value_b);
}

#[test]
fn split_groups_are_reported_as_conflict() {
    // Image A alone supplies the first identifier and so owns group
    // bit 1; the second identifier needs bits 1 and 2, which image B
    // can then never own while A holds only part of them.
    let oracle = EventOracle::new(vec![0b01, 0b11]);
    let image_a = vec![event(0, 4, 1, "lead"), event(1, 4, 2, "mixed")];
    let image_b = vec![event(1, 4, 3, "mixed")];

    let res = combine(&oracle, &vec![image_a, image_b]);

    assert_eq!(
        res,
        Err(CombineError::UnresolvedGroupConflict {
            identifier: 1,
            images: vec![1]
        })
    );
}

#[test]
fn orphaned_required_identifier_is_inconsistent() {
    // Image A owns group bit 1 through the first identifier; image B
    // alone supplies the second identifier of the same group, which it
    // may not own, so the identifier is required yet yields no
    // divergence.
    let oracle = EventOracle::new(vec![0b1, 0b1]);
    let image_a = vec![event(0, 4, 1, "lead")];
    let image_b = vec![event(1, 4, 2, "tail")];

    let res = combine(&oracle, &vec![image_a, image_b]);

    assert_eq!(res, Err(CombineError::InternalInconsistency));
}

#[test]
fn groups_bind_across_registers() {
    // The two grouped identifiers live in different registers: each
    // solution still takes both values from one image, so both
    // registers' digests move together.
    let oracle = EventOracle::new(vec![0b1, 0b1]);
    let image_a = vec![event(0, 4, 1, "first"), event(1, 7, 2, "second")];
    let image_b = vec![event(0, 4, 3, "first"), event(1, 7, 4, "second")];

    let solutions = combine(&oracle, &vec![image_a.clone(), image_b.clone()]).unwrap();

    assert_eq!(solutions.len(), 2);
    assert_eq!(solutions[0], compile_pcrs(&image_a));
    assert_eq!(solutions[1], compile_pcrs(&image_b));
    assert_eq!(solutions[0].len(), 2);
    assert_eq!(solutions[0][0].id, 4);
    assert_eq!(solutions[0][1].id, 7);
}

#[test]
fn empty_oracle_yields_no_solutions() {
    let oracle = EventOracle::new(vec![]);
    let images: Vec<Vec<TPMEvent>> = vec![vec![], vec![]];

    let solutions = combine(&oracle, &images).unwrap();

    assert_eq!(solutions.len(), 0);
}

#[test]
fn single_image_combines_to_its_own_compilation() {
    let image = vec![event(0, 4, 1, "A"), event(1, 7, 2, "B")];
    let oracle = EventOracle::new(vec![0b1, 0b10]);

    let solutions = combine(&oracle, &vec![image.clone()]).unwrap();

    assert_eq!(solutions.len(), 1);
    assert_eq!(solutions[0], compile_pcrs(&image));
}
