use hashtable::Advanced;
use hashtable::Basic;
use hashtable::ProbePolicy;
use hashtable::hash_chars;
use hashtable::str_eq;

fn next_key(state: &mut u64) -> u64 {
    // a small deterministic linear congruential step
    *state = state.wrapping_mul(6364136223846793005).wrapping_add(1442695040888963407);
    *state
}

#[test]
fn fnv1a_exact_values() {
    assert_eq!(hash_chars(""), 0xcbf29ce484222325);
    assert_eq!(hash_chars("a"), 0xaf63dc4c8601ec8c);
    assert_eq!(hash_chars("ab"), 0x089c4407b545986a);
}

#[test]
fn str_eq_matches_string_equality() {
    assert!(str_eq("", ""));
    assert!(str_eq("abc", "abc"));
    assert!(!str_eq("abc", "abd"));
    assert!(!str_eq("abc", "abcd"));
    assert!(!str_eq("", "x"));
}

#[test]
fn basic_round_trip_distinct_keys() {
    let mut m = Basic::new();
    let keys = ["one", "two", "three", "four", "five", "six", "seven"];
    for (i, k) in keys.iter().enumerate() {
        m.insert(*k, i);
    }
    for (i, k) in keys.iter().enumerate() {
        assert_eq!(m.get(k), Some(&i));
    }
    assert_eq!(m.len(), keys.len());
}

#[test]
fn advanced_round_trip_distinct_keys_both_policies() {
    for policy in [ProbePolicy::FirstFit, ProbePolicy::RobinHood] {
        let mut m = Advanced::with_config(90, true, policy);
        let keys = ["one", "two", "three", "four", "five", "six", "seven"];
        for (i, k) in keys.iter().enumerate() {
            m.insert(*k, i);
        }
        for (i, k) in keys.iter().enumerate() {
            assert_eq!(m.get(k), Some(&i));
        }
        assert_eq!(m.len(), keys.len());
    }
}

#[test]
fn basic_overwrite_counts_once() {
    let mut m = Basic::new();
    m.insert("key", 1u64);
    assert_eq!(m.len(), 1);
    m.insert("key", 2u64);
    assert_eq!(m.len(), 1);
    assert_eq!(m.get(&"key"), Some(&2));
}

#[test]
fn advanced_overwrite_counts_once() {
    for policy in [ProbePolicy::FirstFit, ProbePolicy::RobinHood] {
        let mut m = Advanced::with_config(90, true, policy);
        m.insert("key", 1u64);
        assert_eq!(m.len(), 1);
        m.insert("key", 2u64);
        assert_eq!(m.len(), 1);
        assert_eq!(m.get(&"key"), Some(&2));
    }
}

#[test]
fn basic_remove_semantics() {
    let mut m = Basic::new();
    m.insert(7u64, "seven");
    m.insert(8u64, "eight");
    m.insert(7u64, "newest");
    assert_eq!(m.remove(&7), Some("newest"));
    assert_eq!(m.get(&7), None);
    assert_eq!(m.remove(&7), None);
    assert_eq!(m.get(&8), Some(&"eight"));
    assert_eq!(m.len(), 1);
}

#[test]
fn advanced_remove_semantics() {
    for policy in [ProbePolicy::FirstFit, ProbePolicy::RobinHood] {
        let mut m = Advanced::with_config(90, true, policy);
        m.insert(7u64, "seven");
        m.insert(8u64, "eight");
        m.insert(7u64, "newest");
        assert_eq!(m.remove(&7), Some("newest"));
        assert_eq!(m.get(&7), None);
        assert_eq!(m.remove(&7), None);
        assert_eq!(m.get(&8), Some(&"eight"));
        assert_eq!(m.len(), 1);
    }
}

#[test]
fn basic_resize_preserves_contents() {
    let mut m = Basic::with_config(60, true);
    for i in 1u64..1000 {
        m.insert(i, i);
    }
    for i in 1u64..1000 {
        assert_eq!(m.get(&i), Some(&i));
    }
    assert_eq!(m.len(), 999);
}

#[test]
fn advanced_resize_preserves_contents_both_policies() {
    for policy in [ProbePolicy::FirstFit, ProbePolicy::RobinHood] {
        let mut m = Advanced::with_config(60, true, policy);
        for i in 1u64..1000 {
            m.insert(i, i);
        }
        for i in 1u64..1000 {
            assert_eq!(m.get(&i), Some(&i));
        }
        assert_eq!(m.len(), 999);
    }
}

#[test]
fn removal_in_crowded_fixed_table_keeps_other_keys() {
    // A small table with growth disabled forces long collision runs, so
    // removal must slide later entries back over the hole.
    for policy in [ProbePolicy::FirstFit, ProbePolicy::RobinHood] {
        let mut m = Advanced::with_config(90, false, policy);
        for i in 0u64..40 {
            m.insert(i, i);
        }
        for i in 0u64..40 {
            if i % 3 == 0 {
                assert_eq!(m.remove(&i), Some(i));
            }
        }
        for i in 0u64..40 {
            if i % 3 == 0 {
                assert_eq!(m.get(&i), None);
            } else {
                assert_eq!(m.get(&i), Some(&i));
            }
        }
    }
}

#[test]
fn robin_hood_displacement_bounded_by_average() {
    // Statistical check: at load factor at most 0.9, the worst-case
    // displacement under Robin Hood stays within a small constant factor
    // of the average displacement, over several pseudo-random key sets.
    let mut state = 0x243f6a8885a308d3u64;
    for _round in 0..5 {
        let mut m = Advanced::with_config(90, true, ProbePolicy::RobinHood);
        for _ in 0..2000 {
            let k = next_key(&mut state);
            m.insert(k, k);
        }
        let n = m.len() as u128;
        let avg_times_n = m.total_displacement();
        let max = m.max_displacement() as u128;
        // max <= 8 * (average + 1), checked without division
        assert!(max * n <= 8 * (avg_times_n + n));
    }
}
