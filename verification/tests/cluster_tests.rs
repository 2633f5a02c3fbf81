use image_cluster::fingerprint::{hamming_distance, reaches_threshold};
use image_cluster::{find_similar_image_groups, Image, InvalidThreshold};

fn img(path: &str, hash: u64) -> Image {
    Image { image_path: String::from(path), hash }
}

#[test]
fn hamming_distance_exact_values() {
    assert_eq!(hamming_distance(0, 0), 0);
    assert_eq!(hamming_distance(0b1011, 0b0010), 2);
    assert_eq!(hamming_distance(0, u64::MAX), 64);
    assert_eq!(hamming_distance(0xFF, 0x07), 5);
}

#[test]
fn distance_is_symmetric() {
    let samples = [
        (0u64, 0xDEAD_BEEF_u64),
        (0x1234_5678_9ABC_DEF0, 0x0FED_CBA9_8765_4321),
        (u64::MAX, 0),
        (7, 7),
    ];
    for (a, b) in samples {
        assert_eq!(hamming_distance(a, b), hamming_distance(b, a));
    }
}

#[test]
fn self_similarity_is_one() {
    let samples = [0u64, 1, 0xFFFF_0000_FFFF_0000, u64::MAX];
    for a in samples {
        assert_eq!(hamming_distance(a, a), 0);
        // distance zero reaches even the threshold of exactly 1.0
        assert!(reaches_threshold(hamming_distance(a, a), 1, 1));
    }
}

#[test]
fn threshold_test_exact_values() {
    // similarity 58/64 against threshold 29/32: equal, so retained
    assert!(reaches_threshold(6, 29, 32));
    // similarity 57/64 against threshold 29/32 = 58/64: below
    assert!(!reaches_threshold(7, 29, 32));
    // threshold 0: everything is retained, even maximal distance
    assert!(reaches_threshold(64, 0, 1));
    // threshold 1: only distance 0 is retained
    assert!(!reaches_threshold(1, 1, 1));
    assert!(reaches_threshold(0, 1, 1));
}

#[test]
fn four_image_chain_scenario() {
    // distances: d(0,1)=3 (sim .953), d(1,2)=5 (sim .922), d(0,2)=8 (sim .875),
    // image 3 far from everything; threshold 0.9 = 9/10.
    let images = vec![
        img("one.png", 0),
        img("two.png", 0x07),
        img("three.png", 0xFF),
        img("four.png", 0xFFFF_FFFF_FFFF_0000),
    ];
    let groups = find_similar_image_groups(&images, 9, 10).unwrap();
    assert_eq!(groups.len(), 1);
    assert_eq!(groups[0], vec![
        String::from("one.png"),
        String::from("two.png"),
        String::from("three.png"),
    ]);
}

#[test]
fn inclusive_boundary_pair_is_retained() {
    // distance 6 gives similarity 58/64 == 29/32 exactly; threshold 29/32
    let images = vec![img("a.png", 0), img("b.png", 0x3F)];
    let groups = find_similar_image_groups(&images, 29, 32).unwrap();
    assert_eq!(groups.len(), 1);
    assert_eq!(groups[0], vec![String::from("a.png"), String::from("b.png")]);
}

#[test]
fn just_below_boundary_pair_is_dropped() {
    // distance 7 gives similarity 57/64 < 29/32
    let images = vec![img("a.png", 0), img("b.png", 0x7F)];
    let groups = find_similar_image_groups(&images, 29, 32).unwrap();
    assert!(groups.is_empty());
}

#[test]
fn empty_and_single_inputs_give_empty_output() {
    let none: Vec<Image> = Vec::new();
    assert_eq!(find_similar_image_groups(&none, 9, 10).unwrap().len(), 0);
    let one = vec![img("only.png", 42)];
    assert_eq!(find_similar_image_groups(&one, 9, 10).unwrap().len(), 0);
}

#[test]
fn invalid_threshold_is_rejected() {
    let images = vec![img("a.png", 0), img("b.png", 0)];
    assert_eq!(find_similar_image_groups(&images, 9, 0), Err(InvalidThreshold));
    assert_eq!(find_similar_image_groups(&images, 11, 10), Err(InvalidThreshold));
    assert!(find_similar_image_groups(&images, 10, 10).is_ok());
    assert!(find_similar_image_groups(&images, 0, 10).is_ok());
}

#[test]
fn clustering_proceeds_after_a_skipped_file() {
    // five files were found but one could not be fingerprinted; the caller
    // hands over the remaining four and clustering runs without error
    let images = vec![
        img("a.png", 0),
        img("b.png", 1),
        img("c.png", 0xFFFF_FFFF_0000_0000),
        img("d.png", 0xFFFF_FFFF_0000_0001),
    ];
    let groups = find_similar_image_groups(&images, 9, 10).unwrap();
    assert_eq!(groups.len(), 2);
    assert_eq!(groups[0], vec![String::from("a.png"), String::from("b.png")]);
    assert_eq!(groups[1], vec![String::from("c.png"), String::from("d.png")]);
}

#[test]
fn no_path_appears_twice_and_loners_are_absent() {
    let images = vec![
        img("p0.png", 0),
        img("p1.png", 0),
        img("p2.png", 0xAAAA_AAAA_AAAA_AAAA),
        img("p3.png", 0xAAAA_AAAA_AAAA_AAAA),
        img("p4.png", 0x0000_FFFF_0000_FFFF),
    ];
    let groups = find_similar_image_groups(&images, 9, 10).unwrap();
    let mut seen: Vec<String> = Vec::new();
    for group in &groups {
        assert!(group.len() >= 2);
        for path in group {
            assert!(!seen.contains(path));
            seen.push(path.clone());
        }
    }
    // p4 is similar to nothing, so it is in no group
    assert!(!seen.contains(&String::from("p4.png")));
    assert_eq!(seen.len(), 4);
}
