use hopfield::error::HopfieldError;
use hopfield::network::HopfieldNetwork;
use hopfield::raster::pattern_from_pixels;
use rand::SeedableRng;

fn rng_from(seed: u64) -> rand::rngs::StdRng {
    rand::rngs::StdRng::seed_from_u64(seed)
}

fn spin_pattern() -> Vec<i64> {
    vec![255, -255, 255, -255]
}

#[test]
fn diagonal_is_zero() {
    let mut rng = rng_from(1);
    let net = HopfieldNetwork::new(&spin_pattern(), &mut rng).unwrap();
    for i in 0..net.len() {
        assert_eq!(net.weight(i, i), 0);
    }
}

#[test]
fn weights_are_symmetric() {
    let pattern: Vec<i64> = vec![13, -200, 0, 77, 255, -1];
    let mut rng = rng_from(2);
    let net = HopfieldNetwork::new(&pattern, &mut rng).unwrap();
    for i in 0..net.len() {
        for j in 0..net.len() {
            assert_eq!(net.weight(i, j), net.weight(j, i));
        }
    }
}

#[test]
fn weights_are_outer_products() {
    // The stored pattern is the full-spin image of [1, -1, 1, -1]; each
    // off-diagonal weight is the product of the two pattern entries.
    let pattern = spin_pattern();
    let mut rng = rng_from(3);
    let net = HopfieldNetwork::new(&pattern, &mut rng).unwrap();
    assert_eq!(net.len(), 4);
    for i in 0..4 {
        for j in 0..4 {
            let expected = if i == j { 0 } else { pattern[i] * pattern[j] };
            assert_eq!(net.weight(i, j), expected);
        }
    }
    assert_eq!(net.weight(0, 1), -65025);
    assert_eq!(net.weight(0, 2), 65025);
}

#[test]
fn stored_pattern_is_fixed_in_order() {
    // Visiting each neuron once in order 0, 1, 2, 3 from a state equal
    // to the stored pattern leaves the state unchanged.
    let pattern = spin_pattern();
    let mut rng = rng_from(4);
    let mut net = HopfieldNetwork::new(&pattern, &mut rng).unwrap();
    net.set_state(&pattern).unwrap();
    net.update_neurons(&vec![0, 1, 2, 3]).unwrap();
    for i in 0..4 {
        assert_eq!(net.state_value(i), pattern[i]);
    }
}

#[test]
fn stored_pattern_is_fixed_under_revisits() {
    let pattern: Vec<i64> = vec![255, 255, -255, 255, -255, -255];
    let mut rng = rng_from(5);
    let mut net = HopfieldNetwork::new(&pattern, &mut rng).unwrap();
    net.set_state(&pattern).unwrap();
    net.update_neurons(&vec![5, 0, 3, 3, 1, 4, 2, 0, 5, 1, 2, 4]).unwrap();
    for i in 0..6 {
        assert_eq!(net.state_value(i), pattern[i]);
    }
}

#[test]
fn stored_pattern_is_fixed_under_random_updates() {
    let pattern = spin_pattern();
    let mut rng = rng_from(6);
    let mut net = HopfieldNetwork::new(&pattern, &mut rng).unwrap();
    net.set_state(&pattern).unwrap();
    net.update_state(&mut rng, 50);
    for i in 0..4 {
        assert_eq!(net.state_value(i), pattern[i]);
    }
}

#[test]
fn zero_activation_tie_breaks_positive() {
    // The first pattern entry is 0, so row 0 of the weight matrix is all
    // zeros and neuron 0 sees an activation of exactly 0: the update
    // must drive it to the positive spin.
    let pattern: Vec<i64> = vec![0, 100];
    let mut rng = rng_from(7);
    let mut net = HopfieldNetwork::new(&pattern, &mut rng).unwrap();
    assert_eq!(net.weight(0, 0), 0);
    assert_eq!(net.weight(0, 1), 0);
    net.set_state(&vec![-255, -255]).unwrap();
    net.update_neuron(0);
    assert_eq!(net.state_value(0), 255);
    assert_eq!(net.state_value(1), -255);
}

#[test]
fn construction_deterministic_under_seed() {
    let pattern: Vec<i64> = vec![10, -20, 30, -40, 50, -60];
    let mut rng_a = rng_from(42);
    let mut rng_b = rng_from(42);
    let net_a = HopfieldNetwork::new(&pattern, &mut rng_a).unwrap();
    let net_b = HopfieldNetwork::new(&pattern, &mut rng_b).unwrap();
    assert_eq!(net_a.len(), net_b.len());
    for i in 0..net_a.len() {
        assert_eq!(net_a.state_value(i), net_b.state_value(i));
        for j in 0..net_a.len() {
            assert_eq!(net_a.weight(i, j), net_b.weight(i, j));
        }
    }
}

#[test]
fn relaxation_deterministic_under_seed() {
    let pattern: Vec<i64> = vec![200, -100, 50, -25, 12, -6, 3, -1];
    let start: Vec<i64> = vec![255, 255, -255, -255, 0, 0, 255, -255];
    let mut rng_a = rng_from(99);
    let mut rng_b = rng_from(99);
    let mut net_a = HopfieldNetwork::new(&pattern, &mut rng_a).unwrap();
    let mut net_b = HopfieldNetwork::new(&pattern, &mut rng_b).unwrap();
    net_a.set_state(&start).unwrap();
    net_b.set_state(&start).unwrap();
    net_a.update_state(&mut rng_a, 25);
    net_b.update_state(&mut rng_b, 25);
    for i in 0..net_a.len() {
        assert_eq!(net_a.state_value(i), net_b.state_value(i));
    }
}

#[test]
fn initial_state_holds_discrete_levels() {
    let pattern: Vec<i64> = vec![1, 2, 3, 4, 5, 6, 7, 8, 9, 10, 11, 12];
    let mut rng = rng_from(8);
    let net = HopfieldNetwork::new(&pattern, &mut rng).unwrap();
    for i in 0..net.len() {
        let v = net.state_value(i);
        assert!(v == -255 || v == 0 || v == 255);
    }
}

#[test]
fn update_state_converges_single_neuron() {
    // With one neuron the only weight is the zeroed diagonal, the only
    // drawable index is 0, and the zero activation tie-breaks positive.
    let pattern: Vec<i64> = vec![-255];
    let mut rng = rng_from(9);
    let mut net = HopfieldNetwork::new(&pattern, &mut rng).unwrap();
    net.update_state(&mut rng, 5);
    assert_eq!(net.state_value(0), 255);
}

#[test]
fn empty_pattern_is_refused() {
    let mut rng = rng_from(10);
    let r = HopfieldNetwork::new(&vec![], &mut rng);
    assert_eq!(r.err().unwrap(), HopfieldError::PreconditionViolation);
}

#[test]
fn out_of_range_entry_is_refused() {
    let mut rng = rng_from(11);
    let r = HopfieldNetwork::new(&vec![0, 256], &mut rng);
    assert_eq!(r.err().unwrap(), HopfieldError::PreconditionViolation);
    let r = HopfieldNetwork::new(&vec![-256, 0], &mut rng);
    assert_eq!(r.err().unwrap(), HopfieldError::PreconditionViolation);
}

#[test]
fn oversized_pattern_is_refused() {
    let mut rng = rng_from(12);
    let pattern: Vec<i64> = vec![0; 65536];
    let r = HopfieldNetwork::new(&pattern, &mut rng);
    assert_eq!(r.err().unwrap(), HopfieldError::InvalidShape);
}

#[test]
fn set_state_validates_shape_and_range() {
    let mut rng = rng_from(13);
    let mut net = HopfieldNetwork::new(&spin_pattern(), &mut rng).unwrap();
    let r = net.set_state(&vec![1, 2, 3]);
    assert_eq!(r.err().unwrap(), HopfieldError::InvalidShape);
    let r = net.set_state(&vec![1, 2, 3, 300]);
    assert_eq!(r.err().unwrap(), HopfieldError::PreconditionViolation);
    assert!(net.set_state(&vec![1, 2, 3, 4]).is_ok());
    assert_eq!(net.state_value(3), 4);
}

#[test]
fn update_neurons_validates_indices() {
    let mut rng = rng_from(14);
    let mut net = HopfieldNetwork::new(&spin_pattern(), &mut rng).unwrap();
    net.set_state(&vec![7, 8, 9, 10]).unwrap();
    let r = net.update_neurons(&vec![0, 4]);
    assert_eq!(r.err().unwrap(), HopfieldError::InvalidShape);
    // A refused visit order leaves the state untouched.
    assert_eq!(net.state_value(0), 7);
    assert_eq!(net.state_value(3), 10);
}

#[test]
fn render_state_shape_mismatch_is_refused() {
    // A state of 6 values cannot fill a 2 x 2 raster.
    let pattern: Vec<i64> = vec![1, 2, 3, 4, 5, 6];
    let mut rng = rng_from(15);
    let net = HopfieldNetwork::new(&pattern, &mut rng).unwrap();
    let r = net.render_state(2, 2);
    assert_eq!(r.err().unwrap(), HopfieldError::InvalidShape);
    assert!(net.render_state(2, 3).is_ok());
}

#[test]
fn render_state_values() {
    let pattern = spin_pattern();
    let mut rng = rng_from(16);
    let mut net = HopfieldNetwork::new(&pattern, &mut rng).unwrap();
    net.set_state(&vec![-255, 255, 0, 1]).unwrap();
    let px = net.render_state(2, 2).unwrap();
    assert_eq!(px, vec![0, 255, 127, 128]);
}

#[test]
fn render_weights_values() {
    // Weights of the stored pattern [255, -255] are [0, -65025; -65025, 0]:
    // the minimum maps to 0 and the maximum to 255.
    let pattern: Vec<i64> = vec![255, -255];
    let mut rng = rng_from(17);
    let net = HopfieldNetwork::new(&pattern, &mut rng).unwrap();
    let px = net.render_weights(2, 2).unwrap();
    assert_eq!(px, vec![255, 0, 0, 255]);
    assert_eq!(
        net.render_weights(4, 4).err().unwrap(),
        HopfieldError::InvalidShape
    );
}

#[test]
fn render_weights_constant_matrix() {
    // A single neuron leaves only the zeroed diagonal: the span is
    // degenerate and the raster is all zeros.
    let pattern: Vec<i64> = vec![100];
    let mut rng = rng_from(18);
    let net = HopfieldNetwork::new(&pattern, &mut rng).unwrap();
    let px = net.render_weights(1, 1).unwrap();
    assert_eq!(px, vec![0]);
}

#[test]
fn pattern_conversion_is_affine() {
    let pixels: Vec<u8> = vec![0, 127, 128, 255];
    let pattern = pattern_from_pixels(&pixels);
    assert_eq!(pattern, vec![-255, -1, 1, 255]);
}

#[test]
fn pattern_conversion_feeds_construction() {
    // A mid-gray image yields a pattern of small magnitudes whose
    // weights are the exact integer outer products.
    let pixels: Vec<u8> = vec![128, 126, 130];
    let pattern = pattern_from_pixels(&pixels);
    assert_eq!(pattern, vec![1, -3, 5]);
    let mut rng = rng_from(19);
    let net = HopfieldNetwork::new(&pattern, &mut rng).unwrap();
    assert_eq!(net.weight(0, 1), -3);
    assert_eq!(net.weight(0, 2), 5);
    assert_eq!(net.weight(1, 2), -15);
}
