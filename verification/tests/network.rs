use single_utilities::types::{NetworkError, PathwayNetwork, DEFAULT_WEIGHT};

fn strings(v: &[&str]) -> Vec<String> {
    v.iter().map(|s| s.to_string()).collect()
}

fn bits(v: &[f32]) -> Vec<u32> {
    v.iter().map(|w| w.to_bits()).collect()
}

#[test]
fn default_weight_is_one() {
    assert_eq!(DEFAULT_WEIGHT, 1.0f32.to_bits());
}

#[test]
fn scenario_unweighted_two_groups() {
    // sources=["a","a","b"], targets=["x","y","x"], no weights,
    // vocabulary=["x","y"], min_group_size=1.
    let net = PathwayNetwork::new_from_vec(
        strings(&["a", "a", "b"]),
        strings(&["x", "y", "x"]),
        None,
        strings(&["x", "y"]),
        1,
    )
    .unwrap();
    assert_eq!(net.get_num_pathways(), 2);
    assert_eq!(net.get_pathway_name(0).unwrap(), "a");
    assert_eq!(net.get_pathway_name(1).unwrap(), "b");
    assert_eq!(net.get_pathway_features(0).unwrap(), &[0usize, 1]);
    assert_eq!(net.get_pathway_features(1).unwrap(), &[0usize]);
    let (f0, w0) = net.get_pathway_features_and_weights(0).unwrap();
    assert_eq!(f0, &[0usize, 1]);
    assert_eq!(w0, &[1.0f32.to_bits(), 1.0f32.to_bits()]);
    let (f1, w1) = net.get_pathway_features_and_weights(1).unwrap();
    assert_eq!(f1, &[0usize]);
    assert_eq!(w1, &[1.0f32.to_bits()]);
}

#[test]
fn scenario_duplicate_target_last_weight_wins() {
    // sources=["a","a"], targets=["x","x"], weights=[2.0, 5.0],
    // vocabulary=["x"], min_group_size=1: a single member with weight 5.0.
    let net = PathwayNetwork::new_from_vec(
        strings(&["a", "a"]),
        strings(&["x", "x"]),
        Some(bits(&[2.0, 5.0])),
        strings(&["x"]),
        1,
    )
    .unwrap();
    assert_eq!(net.get_num_pathways(), 1);
    assert_eq!(net.get_pathway_name(0).unwrap(), "a");
    let (f0, w0) = net.get_pathway_features_and_weights(0).unwrap();
    assert_eq!(f0, &[0usize]);
    assert_eq!(w0, &[5.0f32.to_bits()]);
}

#[test]
fn scenario_min_group_size_filters() {
    // Same input as the unweighted scenario but min_group_size=2: only "a"
    // is retained and "b" is absent.
    let net = PathwayNetwork::new_from_vec(
        strings(&["a", "a", "b"]),
        strings(&["x", "y", "x"]),
        None,
        strings(&["x", "y"]),
        2,
    )
    .unwrap();
    assert_eq!(net.get_num_pathways(), 1);
    assert_eq!(net.get_pathway_name(0).unwrap(), "a");
    assert_eq!(net.get_pathway_features(0).unwrap(), &[0usize, 1]);
}

#[test]
fn scenario_unresolved_target_fails() {
    // The vocabulary is missing "y" while the target list includes it.
    let r = PathwayNetwork::new_from_vec(
        strings(&["a", "a", "b"]),
        strings(&["x", "y", "x"]),
        None,
        strings(&["x"]),
        1,
    );
    assert_eq!(r.err().unwrap(), NetworkError::UnresolvedTarget);
}

#[test]
fn scenario_length_mismatch_fails() {
    // Three sources against two targets.
    let r = PathwayNetwork::new_from_vec(
        strings(&["a", "a", "b"]),
        strings(&["x", "y"]),
        None,
        strings(&["x", "y"]),
        1,
    );
    assert_eq!(r.err().unwrap(), NetworkError::LengthMismatch);
}

#[test]
fn weight_length_mismatch_fails() {
    let r = PathwayNetwork::new_from_vec(
        strings(&["a", "a"]),
        strings(&["x", "y"]),
        Some(bits(&[2.0])),
        strings(&["x", "y"]),
        1,
    );
    assert_eq!(r.err().unwrap(), NetworkError::LengthMismatch);
}

#[test]
fn unresolved_target_in_dropped_group_is_no_error() {
    // "b" carries the unresolvable target "y", but "b" falls below the
    // member threshold and is dropped before resolution.
    let net = PathwayNetwork::new_from_vec(
        strings(&["a", "a", "b"]),
        strings(&["x", "x2", "y"]),
        None,
        strings(&["x", "x2"]),
        2,
    )
    .unwrap();
    assert_eq!(net.get_num_pathways(), 1);
    assert_eq!(net.get_pathway_name(0).unwrap(), "a");
}

#[test]
fn accessor_index_out_of_range() {
    let net = PathwayNetwork::new_from_vec(
        strings(&["a"]),
        strings(&["x"]),
        None,
        strings(&["x"]),
        1,
    )
    .unwrap();
    assert_eq!(net.get_pathway_name(1).err().unwrap(), NetworkError::IndexOutOfRange);
    assert_eq!(net.get_pathway_features(1).err().unwrap(), NetworkError::IndexOutOfRange);
    assert_eq!(
        net.get_pathway_features_and_weights(7).err().unwrap(),
        NetworkError::IndexOutOfRange
    );
}

#[test]
fn empty_input_builds_empty_network() {
    let net =
        PathwayNetwork::new_from_vec(Vec::new(), Vec::new(), None, strings(&["x"]), 1).unwrap();
    assert_eq!(net.get_num_pathways(), 0);
}

#[test]
fn flattened_lengths_sum_to_surviving_pairs() {
    // Two retained groups of sizes 2 and 1, after dedup of a repeated "x"
    // in the first group: the flattened arrays hold 3 entries.
    let net = PathwayNetwork::new_from_vec(
        strings(&["a", "a", "a", "b"]),
        strings(&["x", "y", "x", "z"]),
        None,
        strings(&["x", "y", "z"]),
        1,
    )
    .unwrap();
    let mut total = 0;
    for i in 0..net.get_num_pathways() {
        total += net.get_pathway_features(i).unwrap().len();
    }
    assert_eq!(total, 3);
    assert_eq!(net.get_pathway_features(0).unwrap(), &[0usize, 1]);
    assert_eq!(net.get_pathway_features(1).unwrap(), &[2usize]);
}

#[test]
fn group_slices_do_not_overlap() {
    let net = PathwayNetwork::new_from_vec(
        strings(&["a", "a", "b", "c", "c", "c"]),
        strings(&["x", "y", "z", "x", "y", "z"]),
        None,
        strings(&["x", "y", "z"]),
        1,
    )
    .unwrap();
    // Collect each group's slice as a pointer range over the shared arrays:
    // consecutive groups must not share positions.
    let mut seen: Vec<usize> = Vec::new();
    let mut total = 0;
    for i in 0..net.get_num_pathways() {
        let members = net.get_pathway_features(i).unwrap();
        total += members.len();
        seen.extend_from_slice(members);
    }
    assert_eq!(total, 6);
    assert_eq!(seen, vec![0, 1, 2, 0, 1, 2]);
}

#[test]
fn construction_is_deterministic() {
    let build = || {
        PathwayNetwork::new_from_vec(
            strings(&["a", "a", "b", "b"]),
            strings(&["x", "y", "y", "z"]),
            Some(bits(&[0.5, 1.5, 2.5, 3.5])),
            strings(&["z", "y", "x"]),
            1,
        )
        .unwrap()
    };
    let n1 = build();
    let n2 = build();
    assert_eq!(n1.get_num_pathways(), n2.get_num_pathways());
    for i in 0..n1.get_num_pathways() {
        assert_eq!(n1.get_pathway_name(i).unwrap(), n2.get_pathway_name(i).unwrap());
        let (f1, w1) = n1.get_pathway_features_and_weights(i).unwrap();
        let (f2, w2) = n2.get_pathway_features_and_weights(i).unwrap();
        assert_eq!(f1, f2);
        assert_eq!(w1, w2);
    }
}

#[test]
fn vocabulary_duplicates_shadow_earlier_entries() {
    // "x" appears at positions 0 and 2: members resolve to position 2.
    let net = PathwayNetwork::new_from_vec(
        strings(&["a"]),
        strings(&["x"]),
        None,
        strings(&["x", "y", "x"]),
        1,
    )
    .unwrap();
    assert_eq!(net.get_pathway_features(0).unwrap(), &[2usize]);
}

#[test]
fn raw_constructor_keeps_arrays() {
    let net = PathwayNetwork::new(
        strings(&["p", "q"]),
        vec![0, 2],
        vec![2, 1],
        vec![4, 5, 6],
        bits(&[0.25, 0.75, 1.25]),
    );
    assert_eq!(net.get_num_pathways(), 2);
    assert_eq!(net.get_pathway_name(0).unwrap(), "p");
    assert_eq!(net.get_pathway_features(0).unwrap(), &[4usize, 5]);
    let (f1, w1) = net.get_pathway_features_and_weights(1).unwrap();
    assert_eq!(f1, &[6usize]);
    assert_eq!(w1, &[1.25f32.to_bits()]);
}

#[test]
fn raw_constructor_without_weights_defaults_to_one() {
    let net = PathwayNetwork::new_wo_weights(
        strings(&["p"]),
        vec![0],
        vec![3],
        vec![1, 2, 3],
    );
    let (f0, w0) = net.get_pathway_features_and_weights(0).unwrap();
    assert_eq!(f0, &[1usize, 2, 3]);
    assert_eq!(w0, &[DEFAULT_WEIGHT, DEFAULT_WEIGHT, DEFAULT_WEIGHT]);
    assert_eq!(f32::from_bits(w0[0]), 1.0);
}
