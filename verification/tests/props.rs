use rand::Rng;
use simdanigans::argmin::argmin;
use simdanigans::argmin::argmin_fold;
use simdanigans::argmin::sind_argmin;
use simdanigans::find::simd_find;
use simdanigans::find::simd_find_16;
use simdanigans::find::simple_find;

const WIDTHS: [usize; 4] = [4, 8, 16, 32];

fn reference_find(array: &[u32], x: u32) -> Option<usize> {
    array.iter().position(|&v| v == x)
}

fn reference_argmin(array: &[u32]) -> Option<usize> {
    let mut best: Option<usize> = None;
    for (i, &v) in array.iter().enumerate() {
        match best {
            Some(k) => {
                if v < array[k] {
                    best = Some(i);
                }
            }
            None => best = Some(i),
        }
    }
    best
}

fn check_all_find(array: &[u32], x: u32) {
    let expected = reference_find(array, x);
    assert_eq!(simple_find(array, x), expected);
    for w in WIDTHS {
        assert_eq!(simd_find(array, x, w), expected);
    }
    assert_eq!(simd_find_16(array, &x), expected);
}

fn check_all_argmin(array: &[u32]) {
    let expected = reference_argmin(array);
    assert_eq!(argmin(array), expected);
    assert_eq!(argmin_fold(array), expected);
    assert_eq!(sind_argmin(array), expected);
}

#[test]
fn empty_input_all_absent() {
    assert_eq!(simple_find(&[], 7), None);
    for w in WIDTHS {
        assert_eq!(simd_find(&[], 7, w), None);
    }
    assert_eq!(simd_find_16(&[], &7), None);
    assert_eq!(argmin(&[]), None);
    assert_eq!(argmin_fold(&[]), None);
    assert_eq!(sind_argmin(&[]), None);
}

#[test]
fn remainder_only_match() {
    for w in WIDTHS {
        // Length is not a multiple of w and the only match sits in the
        // final `len mod w` elements.
        let len = 2 * w + 3;
        let mut input = vec![0u32; len];
        input[len - 1] = 9;
        assert_eq!(simple_find(&input, 9), Some(len - 1));
        assert_eq!(simd_find(&input, 9, w), Some(len - 1));
    }
    // Same boundary for the width-16 argmin: the unique minimum lies in the
    // remainder tail.
    let mut input = vec![5u32; 19];
    input[18] = 1;
    check_all_argmin(&input);
    assert_eq!(sind_argmin(&input), Some(18));
}

#[test]
fn width_larger_than_array() {
    // Zero full chunks: the whole array is remainder.
    let input = vec![4u32, 6, 2, 6];
    for w in WIDTHS {
        if w > input.len() {
            assert_eq!(simd_find(&input, 2, w), Some(2));
            assert_eq!(simd_find(&input, 3, w), None);
        }
    }
    assert_eq!(simd_find_16(&input, &6), Some(1));
    assert_eq!(sind_argmin(&input), Some(2));
}

#[test]
fn tie_break_same_chunk() {
    // Two equal minima inside one width-16 chunk.
    let mut input = vec![7u32; 20];
    input[2] = 1;
    input[5] = 1;
    check_all_argmin(&input);
    assert_eq!(sind_argmin(&input), Some(2));
}

#[test]
fn tie_break_different_chunks() {
    // Equal minima in the first and the second width-16 chunk.
    let mut input = vec![7u32; 40];
    input[9] = 1;
    input[25] = 1;
    check_all_argmin(&input);
    assert_eq!(sind_argmin(&input), Some(9));
}

#[test]
fn tie_break_chunk_and_remainder() {
    // Equal minima split between the chunked region and the remainder.
    let mut input = vec![7u32; 40];
    input[13] = 1;
    input[37] = 1;
    check_all_argmin(&input);
    assert_eq!(sind_argmin(&input), Some(13));
}

#[test]
fn all_elements_largest_value() {
    // Every element equals the largest representable value: the running
    // minima never move off their initial value, and the earliest index
    // must still win.
    let input = vec![u32::MAX; 17];
    check_all_argmin(&input);
    assert_eq!(sind_argmin(&input), Some(0));
    // Largest value everywhere in the chunked region, smaller in the tail.
    let mut input = vec![u32::MAX; 18];
    input[17] = 3;
    check_all_argmin(&input);
    assert_eq!(sind_argmin(&input), Some(17));
    check_all_find(&input, u32::MAX);
    check_all_find(&input, 3);
}

#[test]
fn concrete_example() {
    // One full width-4 chunk [5, 3, 3, 7] and remainder [1, 3].
    let input = vec![5u32, 3, 3, 7, 1, 3];
    assert_eq!(simd_find(&input, 3, 4), Some(1));
    assert_eq!(simple_find(&input, 3), Some(1));
    assert_eq!(argmin(&input), Some(4));
    assert_eq!(argmin_fold(&input), Some(4));
    assert_eq!(sind_argmin(&input), Some(4));
    // Zero full chunks at width 4: pure remainder scan.
    let pair = vec![2u32, 2];
    assert_eq!(argmin(&pair), Some(0));
    assert_eq!(argmin_fold(&pair), Some(0));
    assert_eq!(sind_argmin(&pair), Some(0));
}

#[test]
fn randomized_agreement() {
    let mut rng = rand::thread_rng();
    let boundary_lengths = [0usize, 1, 3, 4, 5, 7, 8, 9, 15, 16, 17, 31, 32, 33];
    for round in 0..1000 {
        let len = if round < boundary_lengths.len() {
            boundary_lengths[round]
        } else {
            rng.gen_range(0..80)
        };
        // A small value range forces duplicates, absent needles and ties.
        let input: Vec<u32> = (0..len).map(|_| rng.gen_range(0..10)).collect();
        let needle = rng.gen_range(0..12);
        check_all_find(&input, needle);
        check_all_argmin(&input);
    }
}
