use rand::prelude::SliceRandom;
use rand::thread_rng;
use simdanigans::find::simd_find;
use simdanigans::find::simd_find_16;
use simdanigans::find::simple_find;

fn test_case() -> Vec<u32> {
    vec![
        0, 0, 0, 0, 0, 1, 0, 0, 0, 0, 0, 0, 0, 0, 0, 0, 0, 0, 0, 0, 0, 0, 0, 0, 0, 0, 0, 0, 0, 0,
        0, 0,
    ]
}

fn prepare_input(length: usize) -> (Vec<u32>, u32) {
    let mut input: Vec<u32> = (0..length as u32).collect();
    let middle = input[length / 2];
    let mut rng = thread_rng();
    input.shuffle(&mut rng);
    (input, middle)
}

#[test]
fn find_simple_find_test() {
    let target = 1;
    let case = test_case();

    assert_eq!(
        simple_find(&case, target),
        case.iter().position(|&x| x == target)
    );
}

#[test]
fn find_simd_find_test() {
    let target = 1;
    let case = test_case();

    assert_eq!(
        simd_find(&case, target, 16),
        case.iter().position(|&x| x == target)
    );
}

#[test]
fn simd_smolfind_test() {
    let target = 1;
    let case = test_case();

    assert_eq!(
        simd_find_16(&case, &target),
        case.iter().position(|&x| x == target)
    );
}

#[test]
fn simd_find_4_random() {
    let (input, middle) = prepare_input(33);
    assert_eq!(
        simd_find(&input, middle, 4),
        input.iter().position(|&x| x == middle)
    );
}

#[test]
fn simd_find_16_random() {
    let (input, middle) = prepare_input(33);
    assert_eq!(
        simd_find(&input, middle, 16),
        input.iter().position(|&x| x == middle)
    );
}

#[test]
fn simd_smolfind_random() {
    let (input, middle) = prepare_input(33);
    assert_eq!(
        simd_find_16(&input, &middle),
        input.iter().position(|&x| x == middle)
    );
}
