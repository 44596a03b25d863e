use skip_list::level::{is_heads, level_from_flips};
use skip_list::skip_list::SkipList;
use std::cell::Cell;
use std::collections::BTreeMap;
use std::rc::Rc;

fn keys_of_level(list: &SkipList<i32, i32>, level: usize) -> Vec<i32> {
    list.level_entries(level).iter().map(|entry| *entry.0).collect()
}

fn is_subsequence(short: &[i32], long: &[i32]) -> bool {
    let mut rest = long.iter();
    short.iter().all(|key| rest.any(|other| other == key))
}

/// A small generator of numbers that gives the same ones on every run.
struct Numbers(u64);

impl Numbers {
    fn next(&mut self) -> u64 {
        self.0 = self.0.wrapping_mul(6364136223846793005).wrapping_add(1442695040888963407);
        self.0 >> 33
    }
}

/// A value that counts how often one of its kind is dropped.
struct Counted {
    drops: Rc<Cell<usize>>,
}

impl Drop for Counted {
    fn drop(&mut self) {
        self.drops.set(self.drops.get() + 1);
    }
}

#[test]
fn new_list_is_empty() {
    let list: SkipList<i32, String> = SkipList::new(6);
    assert_eq!(list.len(), 0);
    assert!(list.is_empty());
    assert_eq!(list.search(&1), None);
    assert_eq!(list.dump().len(), 1);
    assert!(list.level_entries(0).is_empty());
}

#[test]
fn insert_remove_scenario() {
    let mut list: SkipList<i32, String> = SkipList::new(6);
    list.insert(6, "111".to_string());
    list.insert(7, "222".to_string());
    assert_eq!(list.remove(&7), Some("222".to_string()));
    assert_eq!(list.search(&7), None);
    assert_eq!(list.search(&6), Some(&"111".to_string()));
    assert_eq!(list.len(), 1);
}

#[test]
fn duplicate_insert_keeps_the_first_value() {
    let mut list: SkipList<i32, &str> = SkipList::new(6);
    list.insert(5, "a");
    list.insert(5, "b");
    assert_eq!(list.search(&5), Some(&"a"));
    assert_eq!(list.len(), 1);
}

#[test]
fn duplicate_insert_with_level_changes_nothing() {
    let mut list: SkipList<i32, i32> = SkipList::new(4);
    list.insert_with_level(5, 50, 1);
    list.insert_with_level(5, 51, 4);
    assert_eq!(list.search(&5), Some(&50));
    assert_eq!(list.len(), 1);
    assert_eq!(list.dump().len(), 2);
    assert_eq!(keys_of_level(&list, 1), vec![5]);
    assert_eq!(keys_of_level(&list, 2), Vec::<i32>::new());
}

#[test]
fn remove_from_empty_list_returns_none() {
    let mut list: SkipList<i32, String> = SkipList::new(6);
    assert_eq!(list.remove(&3), None);
    assert_eq!(list.remove(&-3), None);
    assert_eq!(list.len(), 0);
    assert!(list.is_empty());
    list.insert(3, "three".to_string());
    assert_eq!(list.search(&3), Some(&"three".to_string()));
    assert_eq!(list.len(), 1);
}

#[test]
fn remove_of_missing_key_changes_nothing() {
    let mut list: SkipList<i32, i32> = SkipList::new(3);
    list.insert_with_level(2, 20, 1);
    list.insert_with_level(4, 40, 2);
    assert_eq!(list.remove(&3), None);
    assert_eq!(list.remove(&1), None);
    assert_eq!(list.remove(&5), None);
    assert_eq!(list.len(), 2);
    assert_eq!(keys_of_level(&list, 0), vec![2, 4]);
    assert_eq!(keys_of_level(&list, 2), vec![4]);
}

#[test]
fn search_finds_each_key_and_no_other() {
    let mut list: SkipList<i32, i32> = SkipList::new(5);
    for key in [10, 30, 20, 50, 40] {
        list.insert(key, key * 2);
    }
    for key in [10, 20, 30, 40, 50] {
        assert_eq!(list.search(&key), Some(&(key * 2)));
    }
    for key in [5, 15, 25, 35, 45, 55] {
        assert_eq!(list.search(&key), None);
    }
}

#[test]
fn level_zero_is_in_increasing_order() {
    let mut list: SkipList<i32, i32> = SkipList::new(6);
    for key in [9, 3, 7, 1, 8, 2, 6, 4, 5, 0] {
        list.insert(key, -key);
    }
    assert_eq!(keys_of_level(&list, 0), vec![0, 1, 2, 3, 4, 5, 6, 7, 8, 9]);
    let values: Vec<i32> = list.level_entries(0).iter().map(|entry| *entry.1).collect();
    assert_eq!(values, vec![0, -1, -2, -3, -4, -5, -6, -7, -8, -9]);
}

#[test]
fn each_level_is_a_subsequence_of_the_level_below() {
    let mut list: SkipList<i32, i32> = SkipList::new(8);
    let mut numbers = Numbers(7);
    for _ in 0..200 {
        let key = (numbers.next() % 500) as i32;
        list.insert(key, key);
    }
    for _ in 0..60 {
        let key = (numbers.next() % 500) as i32;
        list.remove(&key);
    }
    let levels = list.dump();
    assert!(levels.len() <= 9);
    for level in 1..levels.len() {
        let upper: Vec<i32> = levels[level].iter().map(|entry| *entry.0).collect();
        let lower: Vec<i32> = levels[level - 1].iter().map(|entry| *entry.0).collect();
        assert!(is_subsequence(&upper, &lower));
        assert!(upper.windows(2).all(|pair| pair[0] < pair[1]));
    }
}

#[test]
fn insert_then_remove_round_trip() {
    let mut list: SkipList<i32, String> = SkipList::new(6);
    list.insert(1, "one".to_string());
    list.insert(3, "three".to_string());
    let before = list.len();
    list.insert(2, "two".to_string());
    assert_eq!(list.search(&2), Some(&"two".to_string()));
    assert_eq!(list.len(), before + 1);
    assert_eq!(list.remove(&2), Some("two".to_string()));
    assert_eq!(list.search(&2), None);
    assert_eq!(list.len(), before);
    assert_eq!(list.remove(&2), None);
    assert_eq!(list.len(), before);
}

#[test]
fn len_counts_the_keys_held() {
    let mut list: SkipList<i32, i32> = SkipList::new(6);
    let mut model: BTreeMap<i32, i32> = BTreeMap::new();
    let mut numbers = Numbers(99);
    for step in 0..2000 {
        let key = (numbers.next() % 64) as i32;
        if numbers.next() % 3 == 0 {
            assert_eq!(list.remove(&key), model.remove(&key));
        } else {
            list.insert(key, step);
            model.entry(key).or_insert(step);
        }
        assert_eq!(list.len(), model.len());
        assert_eq!(list.is_empty(), model.is_empty());
    }
    let held: Vec<(i32, i32)> = list.level_entries(0).iter().map(|entry| (*entry.0, *entry.1)).collect();
    let expected: Vec<(i32, i32)> = model.iter().map(|(key, value)| (*key, *value)).collect();
    assert_eq!(held, expected);
    for key in 0..64 {
        assert_eq!(list.search(&key), model.get(&key));
    }
}

#[test]
fn insert_with_level_places_the_node_on_each_level_up_to_its_height() {
    let mut list: SkipList<i32, i32> = SkipList::new(4);
    list.insert_with_level(20, 2, 2);
    list.insert_with_level(10, 1, 0);
    list.insert_with_level(30, 3, 4);
    list.insert_with_level(25, 4, 1);
    assert_eq!(keys_of_level(&list, 0), vec![10, 20, 25, 30]);
    assert_eq!(keys_of_level(&list, 1), vec![20, 25, 30]);
    assert_eq!(keys_of_level(&list, 2), vec![20, 30]);
    assert_eq!(keys_of_level(&list, 3), vec![30]);
    assert_eq!(keys_of_level(&list, 4), vec![30]);
    assert_eq!(list.dump().len(), 5);
    assert_eq!(list.len(), 4);
}

#[test]
fn height_is_capped_at_the_ceiling() {
    let mut list: SkipList<i32, i32> = SkipList::new(2);
    list.insert_with_level(1, 1, 100);
    list.insert_with_level(2, 2, usize::MAX);
    assert_eq!(list.dump().len(), 3);
    assert_eq!(keys_of_level(&list, 2), vec![1, 2]);
    assert!(list.level_entries(3).is_empty());
    assert!(list.level_entries(100).is_empty());
}

#[test]
fn remove_lowers_the_current_level() {
    let mut list: SkipList<i32, i32> = SkipList::new(5);
    list.insert_with_level(1, 1, 4);
    list.insert_with_level(2, 2, 1);
    list.insert_with_level(3, 3, 2);
    assert_eq!(list.dump().len(), 5);
    assert_eq!(list.remove(&1), Some(1));
    assert_eq!(list.dump().len(), 3);
    assert_eq!(keys_of_level(&list, 2), vec![3]);
    assert_eq!(list.remove(&3), Some(3));
    assert_eq!(list.dump().len(), 2);
    assert_eq!(list.remove(&2), Some(2));
    assert_eq!(list.dump().len(), 1);
    assert!(list.is_empty());
}

#[test]
fn remove_unlinks_the_node_from_every_level() {
    let mut list: SkipList<i32, i32> = SkipList::new(3);
    list.insert_with_level(1, 1, 3);
    list.insert_with_level(2, 2, 3);
    list.insert_with_level(3, 3, 3);
    assert_eq!(list.remove(&2), Some(2));
    for level in 0..4 {
        assert_eq!(keys_of_level(&list, level), vec![1, 3]);
    }
    assert_eq!(list.search(&1), Some(&1));
    assert_eq!(list.search(&3), Some(&3));
}

#[test]
fn removed_slots_are_used_again() {
    let mut list: SkipList<i32, String> = SkipList::new(4);
    for round in 0..50 {
        for key in 0..10 {
            list.insert(key, format!("{round}:{key}"));
        }
        assert_eq!(list.len(), 10);
        for key in 0..10 {
            assert_eq!(list.remove(&key), Some(format!("{round}:{key}")));
        }
        assert!(list.is_empty());
        assert_eq!(list.dump().len(), 1);
    }
}

#[test]
fn zero_ceiling_gives_a_plain_list() {
    let mut list: SkipList<i32, i32> = SkipList::new(0);
    for key in [3, 1, 2] {
        list.insert(key, key * 10);
    }
    assert_eq!(list.get_random_level(), 1);
    assert_eq!(list.dump().len(), 1);
    assert_eq!(keys_of_level(&list, 0), vec![1, 2, 3]);
    assert_eq!(list.search(&2), Some(&20));
    assert_eq!(list.remove(&2), Some(20));
    assert_eq!(list.search(&2), None);
    assert_eq!(list.len(), 2);
}

#[test]
fn random_level_stays_between_one_and_the_ceiling() {
    let list: SkipList<i32, i32> = SkipList::new(4);
    let mut seen = [false; 5];
    for _ in 0..2000 {
        let level = list.get_random_level();
        assert!(1 <= level && level <= 4);
        seen[level] = true;
    }
    assert!(seen[1] && seen[2]);
    let low: SkipList<i32, i32> = SkipList::new(1);
    for _ in 0..100 {
        assert_eq!(low.get_random_level(), 1);
    }
}

#[test]
fn random_insert_never_exceeds_the_ceiling() {
    let mut list: SkipList<i32, i32> = SkipList::new(3);
    for key in 0..500 {
        list.insert(key, key);
        assert!(list.dump().len() <= 4);
    }
    assert_eq!(list.len(), 500);
    assert_eq!(keys_of_level(&list, 0), (0..500).collect::<Vec<i32>>());
}

#[test]
fn is_heads_tells_odd_words() {
    assert!(!is_heads(0));
    assert!(is_heads(1));
    assert!(!is_heads(2));
    assert!(is_heads(usize::MAX));
    assert!(!is_heads(usize::MAX - 1));
}

#[test]
fn dropping_the_list_drops_each_value_once() {
    let drops = Rc::new(Cell::new(0));
    {
        let mut list: SkipList<u32, Counted> = SkipList::new(6);
        for key in 0..100 {
            list.insert(key, Counted { drops: drops.clone() });
        }
        assert_eq!(list.len(), 100);
        assert_eq!(drops.get(), 0);
    }
    assert_eq!(drops.get(), 100);
}

#[test]
fn removed_value_is_handed_out_and_not_dropped_by_the_list() {
    let drops = Rc::new(Cell::new(0));
    let mut list: SkipList<u32, Counted> = SkipList::new(6);
    for key in 0..10 {
        list.insert(key, Counted { drops: drops.clone() });
    }
    let taken = list.remove(&4);
    assert!(taken.is_some());
    assert_eq!(drops.get(), 0);
    drop(taken);
    assert_eq!(drops.get(), 1);
    drop(list);
    assert_eq!(drops.get(), 10);
}

#[test]
fn rejected_duplicate_value_is_dropped_at_once() {
    let drops = Rc::new(Cell::new(0));
    let mut list: SkipList<u32, Counted> = SkipList::new(6);
    list.insert(1, Counted { drops: drops.clone() });
    list.insert(1, Counted { drops: drops.clone() });
    assert_eq!(drops.get(), 1);
    assert_eq!(list.len(), 1);
}

#[test]
fn string_keys_are_ordered_as_strings() {
    let mut list: SkipList<String, usize> = SkipList::new(4);
    for (at, word) in ["pear", "apple", "fig", "banana"].iter().enumerate() {
        list.insert(word.to_string(), at);
    }
    let words: Vec<String> = list.level_entries(0).iter().map(|entry| entry.0.clone()).collect();
    assert_eq!(words, vec!["apple", "banana", "fig", "pear"]);
    assert_eq!(list.search(&"fig".to_string()), Some(&2));
    assert_eq!(list.remove(&"apple".to_string()), Some(1));
    assert_eq!(list.search(&"apple".to_string()), None);
}

#[test]
fn workload_agrees_with_a_sorted_map_under_every_ceiling() {
    for ceiling in [0usize, 1, 2, 5, 16] {
        let mut list: SkipList<i32, i32> = SkipList::new(ceiling);
        let mut model: BTreeMap<i32, i32> = BTreeMap::new();
        let mut numbers = Numbers(ceiling as u64 + 1);
        for step in 0..1500 {
            let key = (numbers.next() % 200) as i32 - 100;
            match numbers.next() % 4 {
                0 => assert_eq!(list.remove(&key), model.remove(&key)),
                1 => assert_eq!(list.search(&key), model.get(&key)),
                _ => {
                    list.insert(key, step);
                    model.entry(key).or_insert(step);
                }
            }
            assert_eq!(list.len(), model.len());
            if step % 100 == 0 {
                let levels = list.dump();
                assert!(levels.len() <= ceiling + 1);
                let lowest: Vec<i32> = levels[0].iter().map(|entry| *entry.0).collect();
                assert_eq!(lowest, model.keys().copied().collect::<Vec<i32>>());
                for level in 1..levels.len() {
                    let upper: Vec<i32> = levels[level].iter().map(|entry| *entry.0).collect();
                    let lower: Vec<i32> = levels[level - 1].iter().map(|entry| *entry.0).collect();
                    assert!(is_subsequence(&upper, &lower));
                }
                assert!(levels.len() == 1 || !levels[levels.len() - 1].is_empty());
            }
        }
    }
}

#[test]
fn dump_lists_each_level_as_level_entries_does() {
    let mut list: SkipList<i32, i32> = SkipList::new(3);
    list.insert_with_level(3, 30, 2);
    list.insert_with_level(1, 10, 1);
    list.insert_with_level(2, 20, 0);
    let levels = list.dump();
    assert_eq!(levels.len(), 3);
    for (level, entries) in levels.iter().enumerate() {
        assert_eq!(*entries, list.level_entries(level));
    }
    assert_eq!(levels[0], vec![(&1, &10), (&2, &20), (&3, &30)]);
    assert_eq!(levels[1], vec![(&1, &10), (&3, &30)]);
    assert_eq!(levels[2], vec![(&3, &30)]);
}

#[test]
fn level_from_flips_is_one_more_than_the_leading_heads() {
    assert_eq!(level_from_flips(&vec![true, true, false, true], 6), (3, 3));
    assert_eq!(level_from_flips(&vec![false, true, true], 6), (1, 1));
    assert_eq!(level_from_flips(&vec![true, false], 6), (2, 2));
    assert_eq!(level_from_flips(&vec![true, true, true, true, false], 6), (5, 5));
}

#[test]
fn level_from_flips_stops_at_the_ceiling_and_reads_no_further() {
    assert_eq!(level_from_flips(&vec![true; 10], 4), (4, 3));
    assert_eq!(level_from_flips(&vec![true, true, true], 4), (4, 3));
    assert_eq!(level_from_flips(&vec![true, true, true, false], 4), (4, 3));
    assert_eq!(level_from_flips(&vec![true, true], 2), (2, 1));
    assert_eq!(level_from_flips(&vec![true, false], 1), (1, 0));
    assert_eq!(level_from_flips(&vec![true], 0), (1, 0));
    assert_eq!(level_from_flips(&vec![true; 5], usize::MAX), (6, 5));
}

#[test]
fn level_from_flips_stops_where_the_flips_end() {
    assert_eq!(level_from_flips(&vec![], 6), (1, 0));
    assert_eq!(level_from_flips(&vec![true, true], 6), (3, 2));
    assert_eq!(level_from_flips(&vec![], 0), (1, 0));
}

#[test]
fn insert_with_flips_gives_the_node_the_height_of_the_flips() {
    let mut list: SkipList<i32, i32> = SkipList::new(4);
    assert_eq!(list.insert_with_flips(5, 50, &vec![true, true, false, true]), 3);
    assert_eq!(keys_of_level(&list, 3), vec![5]);
    assert_eq!(keys_of_level(&list, 4), Vec::<i32>::new());
    assert_eq!(list.dump().len(), 4);
    assert_eq!(list.insert_with_flips(7, 70, &vec![true; 9]), 3);
    assert_eq!(keys_of_level(&list, 4), vec![7]);
    assert_eq!(list.insert_with_flips(6, 60, &vec![false]), 1);
    assert_eq!(keys_of_level(&list, 0), vec![5, 6, 7]);
    assert_eq!(keys_of_level(&list, 1), vec![5, 6, 7]);
    assert_eq!(keys_of_level(&list, 2), vec![5, 7]);
    assert_eq!(list.len(), 3);
}

#[test]
fn insert_with_flips_reads_no_flip_for_a_key_that_is_held() {
    let mut list: SkipList<i32, i32> = SkipList::new(4);
    assert_eq!(list.insert_with_flips(5, 50, &vec![false]), 1);
    assert_eq!(list.insert_with_flips(5, 51, &vec![true, true, true]), 0);
    assert_eq!(list.search(&5), Some(&50));
    assert_eq!(list.len(), 1);
    assert_eq!(list.dump().len(), 2);
    assert_eq!(keys_of_level(&list, 2), Vec::<i32>::new());
}

#[test]
fn insert_with_flips_under_a_zero_ceiling_reads_no_flip() {
    let mut list: SkipList<i32, i32> = SkipList::new(0);
    assert_eq!(list.insert_with_flips(2, 20, &vec![true, true]), 0);
    assert_eq!(list.insert_with_flips(1, 10, &vec![]), 0);
    assert_eq!(keys_of_level(&list, 0), vec![1, 2]);
    assert_eq!(list.dump().len(), 1);
}
