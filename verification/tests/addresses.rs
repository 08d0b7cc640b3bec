use hybrid_data_structure::Hybrid;
use rand::{Rng, SeedableRng};
use rand_chacha::ChaCha8Rng;

#[test]
fn btreeset_union() {
    let amount = 10000;
    let slices = 100;
    let addresses = create_addresses(amount, 1);
    let mut starting_set: std::collections::BTreeSet<&str> = std::collections::BTreeSet::new();
    let mut full_set = Vec::<std::collections::BTreeSet<&str>>::new();

    for i in 0..slices {
        starting_set.insert(&addresses[i * slices + (slices - 1)]);
    }

    for i in 0..slices {
        let mut set: std::collections::BTreeSet<&str> = std::collections::BTreeSet::new();
        for j in 0..slices {
            set.insert(&addresses[i * slices + j]);
        }
        full_set.push(set);
    }

    for set in &full_set {
        if starting_set.intersection(&set).count() > 0 {
            for i in set {
                starting_set.insert(i);
            }
        }
    }

    assert_eq!(starting_set.len(), amount);
}

#[test]
fn hybrid_union_of_slices() {
    let amount = 10000;
    let slices = 100;
    let addresses = create_addresses(amount, 1);
    let mut starting_set = Hybrid::new(amount, 11982).unwrap();
    let mut full_set = Vec::<Hybrid>::new();

    for i in 0..slices {
        starting_set.insert(&addresses[i * slices + (slices - 1)]);
    }

    for i in 0..slices {
        let mut set = Hybrid::new(slices, 120).unwrap();
        for j in 0..slices {
            set.insert(&addresses[i * slices + j]);
        }
        full_set.push(set);
    }

    for set in full_set.iter_mut() {
        if starting_set.has_intersection(set) {
            starting_set.union(set);
        }
    }

    assert_eq!(starting_set.len(), amount);
    assert_eq!(starting_set.segment_count(), 1);
    for address in &addresses {
        assert!(starting_set.contains(address));
    }
}

#[test]
fn hybrid_union_of_large_slices_moves_segments() {
    let amount = 10000;
    let slices = 5;
    let per_slice = amount / slices;
    let addresses = create_addresses(amount, 2);
    let mut starting_set = Hybrid::new(per_slice, 2400).unwrap();
    for i in 0..slices {
        starting_set.insert(&addresses[i * per_slice]);
    }
    for i in 0..slices {
        let mut set = Hybrid::new(per_slice, 2400).unwrap();
        for j in 0..per_slice {
            set.insert(&addresses[i * per_slice + j]);
        }
        assert!(starting_set.has_intersection(&set));
        starting_set.union(&mut set);
        assert!(set.is_empty());
    }
    assert_eq!(starting_set.len(), amount + slices);
    assert_eq!(starting_set.segment_count(), 1 + slices);
    for address in &addresses {
        assert!(starting_set.contains(address));
    }
}

const BASE58_ALPHABET: &'static str = &"123456789ABCDEFGHJKLMNPQRSTUVWXYZabcdefghijkmnopqrstuvwxyz";

fn to_base58_dictionary(value: Vec<u8>) -> String {
    let mut result = String::new();
    for i in value {
        result.push(BASE58_ALPHABET.chars().nth(i as usize).unwrap());
    }
    result
}

fn create_addresses(amount: usize, seed: u64) -> Vec<String> {
    let mut addresses = Vec::new();
    let mut rng = ChaCha8Rng::seed_from_u64(seed);
    for _ in 0..amount {
        let mut temp_vec = Vec::new();
        let mut _temp_string = String::new();
        let rng_num: f64 = rng.gen();

        if rng_num <= 0.5f64 {
            _temp_string = "1".to_string();
        } else {
            _temp_string = "3".to_string();
        }

        for _ in 0..33 {
            let random_character = rng.gen_range(0..58);
            temp_vec.push(random_character);
        }
        _temp_string.push_str(to_base58_dictionary(temp_vec).as_str());
        addresses.push(_temp_string);
    }
    addresses
}
