use rowstats::hashish::{Hashed, Table};
use std::hash::Hasher;

/// The slots of a table of `n` slots after `keys` were put in one by one
/// with the probing rule, the number of advances that took, and which of
/// the keys found a slot.
fn model(n: usize, keys: &[&'static str]) -> (Vec<Option<&'static str>>, usize, Vec<bool>) {
    let mut slots: Vec<Option<&'static str>> = vec![None; n];
    let mut advances = 0;
    let mut placed = Vec::new();
    for key in keys {
        let hash = key.compute_hash();
        let mut index = hash % n;
        let mut found = false;
        for steps in 0..n {
            match slots[index] {
                Some(k) if k != *key => {
                    index = ((index as u128 + hash.reverse_bits() as u128) % n as u128) as usize;
                }
                _ => {
                    slots[index] = Some(*key);
                    advances += steps;
                    found = true;
                    break;
                }
            }
        }
        placed.push(found);
    }
    (slots, advances, placed)
}

const NAMES: [&str; 12] = [
    "Abha", "Bergen", "Cairo", "Dakar", "Erbil", "Fresno", "Geneva", "Hanoi", "Irkutsk", "Jos",
    "Kyoto", "Lahore",
];

#[test]
fn testies() {
    let mut h = Table::<419, &str, i32>::new();
    println!(" Wut? ");
    h.insert("Paudrigue Anderzorn", 46);
    h.insert("Sanna Japp", 38);
    h.insert("Zum-Zum", 6);
    h.insert("Balooo", 62);
    assert_eq!(Some(&46), h.get(&"Paudrigue Anderzorn"));
    assert_eq!(Some(&38), h.get(&"Sanna Japp"));

    if let Some(e) = h.get_mut(&"Paudrigue Anderzorn") {
        *e = 47;
    }

    assert_eq!(Some(&47), h.get(&"Paudrigue Anderzorn"));
    assert_eq!(Some(&6), h.get(&"Zum-Zum"));
    assert_eq!(Some(&62), h.get(&"Balooo"));

    *h.emplace("Sanna Japp") += 1;
    assert_eq!(Some(&39), h.get(&"Sanna Japp"));

    let mut it = h.iter();
    while let Some((key, value)) = it.next() {
        println!("{key} {value}");
    }
}

#[test]
fn new_table_is_empty() {
    let t = Table::<7, &str, i32>::new();
    assert_eq!(t.collision_count(), 0);
    assert_eq!(t.get(&"Abha"), None);
    assert_eq!(t.iter().next(), None);
    let d: Table<7, &str, i32> = Default::default();
    assert_eq!(d.collision_count(), 0);
    assert_eq!(d.iter().next(), None);
}

#[test]
fn insert_then_get_returns_each_value() {
    let mut t = Table::<31, &str, i32>::new();
    for (i, name) in NAMES.iter().enumerate() {
        assert!(t.try_insert(name, i as i32 * 10));
    }
    for (i, name) in NAMES.iter().enumerate() {
        assert_eq!(t.get(name), Some(&(i as i32 * 10)));
    }
    assert_eq!(t.get(&"Minsk"), None);
    assert_eq!(t.collision_count(), 0);
}

#[test]
fn lookups_pass_slots_that_hold_other_keys() {
    // In thirteen slots some of the names do not sit at the start of their
    // probe, and one may find no slot at all.
    let mut t = Table::<13, &str, usize>::new();
    let (slots, advances, placed) = model(13, &NAMES);
    assert!(advances > 0);
    for (i, name) in NAMES.iter().enumerate() {
        assert_eq!(t.try_insert(name, i), placed[i]);
    }
    for (i, name) in NAMES.iter().enumerate() {
        if placed[i] {
            assert_eq!(t.get(name), Some(&i));
            assert_eq!(t.get_mut(name).map(|v| *v), Some(i));
        } else {
            assert_eq!(t.get(name), None);
            assert!(t.get_mut(name).is_none());
        }
    }
    let mut stored = Vec::new();
    let mut it = t.iter();
    while let Some((key, _)) = it.next() {
        stored.push(key);
    }
    let expected: Vec<&str> = slots.iter().filter_map(|s| *s).collect();
    assert_eq!(stored, expected);
}

#[test]
fn a_key_may_find_no_slot_in_a_table_that_has_room() {
    // A key whose reversed hash is a multiple of the number of slots probes
    // one slot only.
    let n = 13;
    let names: Vec<String> = (0..2000).map(|i| format!("station {i}")).collect();
    let stuck = names
        .iter()
        .find(|name| name.as_str().compute_hash().reverse_bits() % n == 0)
        .expect("one name in thirteen has such a hash");
    let start = stuck.as_str().compute_hash() % n;
    let other = names
        .iter()
        .find(|name| *name != stuck && name.as_str().compute_hash() % n == start)
        .expect("one name in thirteen starts there");
    let mut t = Table::<13, &str, i32>::new();
    assert!(t.try_insert(other, 1));
    assert!(!t.try_insert(stuck, 2));
    assert!(t.try_emplace(stuck).is_none());
    assert_eq!(t.get(&stuck.as_str()), None);
    assert_eq!(t.get(&other.as_str()), Some(&1));
    assert_eq!(t.collision_count(), 0);

    let mut alone = Table::<13, &str, i32>::new();
    assert!(alone.try_insert(stuck, 2));
    assert_eq!(alone.get(&stuck.as_str()), Some(&2));
}

#[test]
fn second_insert_replaces_the_value() {
    let mut t = Table::<31, &str, i32>::new();
    t.insert("Cairo", 1);
    t.insert("Dakar", 2);
    t.insert("Cairo", 3);
    assert_eq!(t.get(&"Cairo"), Some(&3));
    assert_eq!(t.get(&"Dakar"), Some(&2));
    let mut seen = Vec::new();
    let mut it = t.iter();
    while let Some(pair) = it.next() {
        seen.push(pair);
    }
    seen.sort();
    assert_eq!(seen, vec![("Cairo", 3), ("Dakar", 2)]);
}

#[test]
fn emplace_creates_once() {
    let mut t = Table::<31, &str, i32>::new();
    assert_eq!(*t.emplace("Hanoi"), 0);
    *t.emplace("Hanoi") += 5;
    *t.emplace("Hanoi") += 2;
    assert_eq!(t.get(&"Hanoi"), Some(&7));
    let mut it = t.iter();
    assert_eq!(it.next(), Some(("Hanoi", 7)));
    assert_eq!(it.next(), None);
    assert_eq!(it.next(), None);
}

#[test]
fn get_mut_changes_the_stored_value() {
    let mut t = Table::<31, &str, i32>::new();
    t.insert("Jos", 4);
    assert!(t.get_mut(&"Kyoto").is_none());
    *t.get_mut(&"Jos").unwrap() = 9;
    assert_eq!(t.get(&"Jos"), Some(&9));
    assert_eq!(t.collision_count(), 0);
}

#[test]
fn collision_count_is_the_number_of_advances() {
    let mut t = Table::<13, &str, i32>::new();
    let mut last = 0;
    for (i, name) in NAMES.iter().enumerate() {
        let (_, advances, placed) = model(13, &NAMES[..i + 1]);
        match t.try_emplace(name) {
            Some(v) => {
                assert!(placed[i]);
                *v += 1;
            }
            None => assert!(!placed[i]),
        }
        assert_eq!(t.collision_count(), advances);
        assert!(t.collision_count() >= last);
        last = t.collision_count();
    }
    // Finding the names again costs the same advances once more.
    let (_, advances, placed) = model(13, &NAMES);
    assert!(advances > 0);
    for (i, name) in NAMES.iter().enumerate() {
        if placed[i] {
            *t.emplace(name) += 1;
            assert_eq!(t.get(name), Some(&2));
        }
    }
    assert_eq!(t.collision_count(), 2 * advances);
    // Neither insert nor the lookups count.
    t.insert("Abha", 0);
    assert!(t.get(&"Lahore").is_some());
    assert!(t.get_mut(&"Lahore").is_some());
    assert_eq!(t.collision_count(), 2 * advances);
}

#[test]
fn probes_advance_by_the_reversed_hash() {
    // Two names that start at the same slot of a table in which the reversed
    // hash and the hash itself lead the second one to different slots.
    let n = 13;
    let mut found = None;
    'search: for a in NAMES.iter() {
        for b in NAMES.iter() {
            let (ha, hb) = (a.compute_hash(), b.compute_hash());
            let by_reversed = (hb % n + hb.reverse_bits() % n) % n;
            let by_hash = (hb % n + hb % n) % n;
            if a != b && ha % n == hb % n && by_reversed != by_hash && by_reversed != hb % n {
                found = Some((*a, *b, hb % n, by_reversed));
                break 'search;
            }
        }
    }
    let (a, b, start, next) = found.expect("two of the names share a start");
    let mut t = Table::<13, &str, i32>::new();
    t.insert(a, 1);
    t.insert(b, 2);
    assert_eq!(*t.emplace(b), 2);
    assert_eq!(t.collision_count(), 1);
    let mut it = t.iter();
    let first = it.next().unwrap();
    let second = it.next().unwrap();
    assert_eq!(it.next(), None);
    if start < next {
        assert_eq!((first, second), ((a, 1), (b, 2)));
    } else {
        assert_eq!((first, second), ((b, 2), (a, 1)));
    }
}

#[test]
fn a_probe_without_a_stop_changes_nothing() {
    let mut t = Table::<1, &str, i32>::new();
    assert!(t.try_insert("Abha", 1));
    assert!(!t.try_insert("Bergen", 2));
    assert!(t.try_emplace("Bergen").is_none());
    assert_eq!(t.get(&"Bergen"), None);
    assert!(t.get_mut(&"Bergen").is_none());
    assert!(t.try_insert("Abha", 3));
    assert_eq!(t.try_emplace("Abha").map(|v| *v), Some(3));
    assert_eq!(t.get(&"Abha"), Some(&3));
    assert_eq!(t.collision_count(), 0);
    let mut it = t.iter();
    assert_eq!(it.next(), Some(("Abha", 3)));
    assert_eq!(it.next(), None);
}

#[test]
fn a_table_without_slots_takes_nothing() {
    let mut t = Table::<0, &str, i32>::new();
    assert!(!t.try_insert("Abha", 1));
    assert!(t.try_emplace("Abha").is_none());
    assert_eq!(t.get(&"Abha"), None);
    assert!(t.get_mut(&"Abha").is_none());
    assert_eq!(t.iter().next(), None);
}

#[test]
fn a_full_table_still_finds_its_keys() {
    let mut t = Table::<2, &str, i32>::new();
    let mut placed = Vec::new();
    for name in NAMES.iter() {
        if t.try_insert(name, name.len() as i32) {
            placed.push(*name);
        }
    }
    let (slots, _, by_model) = model(2, &NAMES);
    let expected: Vec<&str> = slots.iter().filter_map(|s| *s).collect();
    assert!(!placed.is_empty());
    assert_eq!(placed.len(), by_model.iter().filter(|p| **p).count());
    for name in NAMES.iter() {
        if expected.contains(name) {
            assert_eq!(t.get(name), Some(&(name.len() as i32)));
        } else {
            assert_eq!(t.get(name), None);
        }
    }
}

#[test]
fn strings_hash_as_fx_hashes_them() {
    for name in NAMES.iter().chain(["", "Zum-Zum"].iter()) {
        let mut hasher = rustc_hash::FxHasher::default();
        hasher.write(name.as_bytes());
        hasher.write_u8(0xff);
        assert_eq!(name.compute_hash(), hasher.finish() as usize);
    }
    if usize::BITS == 64 && u16::from_ne_bytes([1, 0]) == 1 {
        assert_eq!("".compute_hash() as u64, 0x2b44f56ffae88a6b);
        assert_eq!("Zum-Zum".compute_hash() as u64, 2727765256858264281);
        assert_eq!("abc".compute_hash() as u64, 3604601653180074131);
    }
    assert_ne!("abc".compute_hash(), "abd".compute_hash());
}

#[test]
fn keys_are_the_same_when_their_text_is() {
    let owned = String::from("Cairo");
    assert!("Cairo".same_key(&owned.as_str()));
    assert!(!"Cairo".same_key(&"Cairp"));
    assert!(!"Cairo".same_key(&"Cair"));
    assert!("".same_key(&""));
}

#[test]
fn every_iterator_starts_from_the_first_slot() {
    let mut t = Table::<31, &str, i32>::new();
    for (i, name) in NAMES.iter().enumerate() {
        assert!(t.try_insert(name, i as i32));
    }
    let mut first = Vec::new();
    let mut it = t.iter();
    while let Some(pair) = it.next() {
        first.push(pair);
    }
    assert_eq!(it.next(), None);
    let mut second = Vec::new();
    let mut it = t.iter();
    while let Some(pair) = it.next() {
        second.push(pair);
    }
    assert_eq!(first.len(), NAMES.len());
    assert_eq!(first, second);
}

#[test]
fn keys_find_a_slot_while_there_is_room() {
    // Thirteen is prime, so a step that is not 0 has no divisor in common
    // with it: such keys fill the table to its last slot.
    let n = 13;
    let names: Vec<String> = (0..200).map(|i| format!("station {i}")).collect();
    let keys: Vec<&str> = names
        .iter()
        .map(|name| name.as_str())
        .filter(|name| name.compute_hash().reverse_bits() % n != 0)
        .take(n)
        .collect();
    assert_eq!(keys.len(), n);
    let mut t = Table::<13, &str, usize>::new();
    for (i, key) in keys.iter().enumerate() {
        assert!(t.try_insert(key, i));
    }
    for (i, key) in keys.iter().enumerate() {
        assert_eq!(t.get(key), Some(&i));
    }
    let mut stored = 0;
    let mut it = t.iter();
    while it.next().is_some() {
        stored += 1;
    }
    assert_eq!(stored, n);
    assert!(!t.try_insert("one more", 0));
}
