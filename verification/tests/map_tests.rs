use omni_map::{OmniMap, Slot};

#[test]
fn test_map_new() {
    let map: OmniMap<u8, &str> = OmniMap::new();

    assert!(map.is_empty());
    assert_eq!(map.len(), 0);
    assert_eq!(map.deleted(), 0);
    assert_eq!(map.capacity(), 0);
}

#[test]
fn test_map_new_with_capacity() {
    let map: OmniMap<u8, &str> = OmniMap::with_capacity(10);

    assert_eq!(map.len(), 0);
    assert_eq!(map.deleted(), 0);
    assert_eq!(map.capacity(), 10);
}

#[test]
fn test_map_new_default() {
    let map: OmniMap<u8, &str> = OmniMap::default();

    assert_eq!(map.len(), 0);
    assert_eq!(map.deleted(), 0);
    assert_eq!(map.capacity(), 16);
}

#[test]
fn test_map_insert_get() {
    let mut map = OmniMap::new();

    // Access when the map is empty must return None.
    assert_eq!(map.get(&1), None);

    // Insert
    assert_eq!(map.insert(1, 2), None);
    assert_eq!(map.insert(2, 3), None);
    assert_eq!(map.insert(3, 4), None);

    // Map state
    assert_eq!(map.len(), 3);
    assert_eq!(map.deleted(), 0);
    assert_eq!(map.capacity(), 4);

    // Check values
    assert_eq!(map.get(&1), Some(&2));
    assert_eq!(map.get(&2), Some(&3));
    assert_eq!(map.get(&3), Some(&4));
}

#[test]
fn test_map_insert_update() {
    let mut map = OmniMap::new();

    // Insert a key-value pair
    map.insert(1, 2);
    map.insert(2, 3);
    map.insert(3, 4);

    // Update the value for keys 1 and 2
    assert_eq!(map.insert(1, 22), Some(2));
    assert_eq!(map.insert(2, 33), Some(3));

    // Values must be updated
    assert_eq!(map.get(&1), Some(&22));
    assert_eq!(map.get(&2), Some(&33));

    // Key 3 must remain the same
    assert_eq!(map.get(&3), Some(&4));
}

#[test]
fn test_map_access_get_mut() {
    let mut map = OmniMap::new();

    // Access when the map is empty must return None.
    assert_eq!(map.get_mut(&1), None);

    map.insert(1, 1);

    if let Some(value) = map.get_mut(&1) {
        *value = 10;
    }

    assert_eq!(map.get(&1), Some(&10));
}

#[test]
fn test_map_access_index() {
    let mut map = OmniMap::new();

    map.insert(1, 1);
    map.insert(2, 2);
    map.insert(3, 3);

    assert_eq!(*map.index(0), 1);
    assert_eq!(*map.index(1), 2);
    assert_eq!(*map.index(2), 3);

    // Remove the first item
    map.pop_front();

    // The first item now must be the second item
    // The second item now must be the third item
    assert_eq!(*map.index(0), 2);
    assert_eq!(*map.index(1), 3);
}

#[test]
fn test_map_access_index_mut() {
    let mut map = OmniMap::new();

    map.insert(1, 1);
    map.insert(2, 2);
    map.insert(3, 3);

    *map.index_mut(0) = 10;
    *map.index_mut(1) = 20;
    *map.index_mut(2) = 30;

    assert_eq!(*map.index(0), 10);
    assert_eq!(*map.index(1), 20);
    assert_eq!(*map.index(2), 30);
}

#[test]
fn test_map_access_get_first() {
    let mut map = OmniMap::new();

    // Access when the map is empty must return None.
    assert_eq!(map.first(), None);

    map.insert(1, 1);
    map.insert(2, 2);
    map.insert(3, 3);

    assert_eq!(map.first(), Some((&1, &1)));
}

#[test]
fn test_map_access_get_last() {
    let mut map = OmniMap::new();

    // Access when the map is empty must return None.
    assert_eq!(map.last(), None);

    map.insert(1, 1);
    map.insert(2, 2);
    map.insert(3, 3);

    assert_eq!(map.last(), Some((&3, &3)));
}

#[test]
fn test_map_pop_front() {
    let mut map = OmniMap::new();

    // Pop when the map is empty must return None.
    assert_eq!(map.pop_front(), None);

    // First item.
    map.insert(1, 2);

    // Must return the only item in the map.
    let (key, value) = map.pop_front().unwrap();

    assert_eq!(key, 1);
    assert_eq!(value, 2);
    assert_eq!(map.len(), 0);
    assert_eq!(map.deleted(), 1);
    assert_eq!(map.slot_at(0), Slot::Deleted);
    assert_eq!(map.capacity(), 1);

    // Must return None, because the map is empty.
    assert_eq!(map.pop_front(), None);

    // Insert new items.
    map.insert(1, 2);
    map.insert(2, 3);
    map.insert(3, 4);

    // Now, the map must expand its capacity reset the deleted counter.
    assert_eq!(map.len(), 3);
    assert_eq!(map.deleted(), 0);
    assert_eq!(map.capacity(), 4);

    // Pop the first item.
    assert_eq!(map.pop_front(), Some((1, 2)));

    // Map state at this point.
    assert_eq!(map.len(), 2);
    assert_eq!(map.deleted(), 1);
    assert_eq!(map.capacity(), 4);

    // Index state at this point.
    let mut deleted = 0;
    let mut occupied = 0;
    let mut empty = 0;

    for i in 0..map.capacity() {
        match map.slot_at(i) {
            Slot::Deleted => {
                deleted += 1;
            }
            Slot::Occupied(_) => {
                occupied += 1;
            }
            Slot::Empty => {
                empty += 1;
            }
        }
    }

    // Expected index state at this point.
    assert_eq!(deleted, 1);
    assert_eq!(occupied, 2);
    assert_eq!(empty, 1);

    // Expected values at this point.
    assert_eq!(map.get(&1), None);
    assert_eq!(map.get(&2), Some(&3));
    assert_eq!(map.get(&3), Some(&4));
}

#[test]
fn test_map_pop() {
    let mut map = OmniMap::new();

    // Pop when the map is empty must return None.
    assert_eq!(map.pop(), None);

    // Last item.
    map.insert(1, 2);

    // Must return the only item in the map.
    let (key, value) = map.pop().unwrap();

    assert_eq!(key, 1);
    assert_eq!(value, 2);
    assert_eq!(map.len(), 0);
    assert_eq!(map.deleted(), 1);
    assert_eq!(map.slot_at(0), Slot::Deleted);
    assert_eq!(map.capacity(), 1);

    // Must return None, because the map is empty.
    assert_eq!(map.pop(), None);

    // Insert new items.
    map.insert(1, 2);
    map.insert(2, 3);
    map.insert(3, 4);

    // Now, the map must expand its capacity reset the deleted counter.
    assert_eq!(map.len(), 3);
    assert_eq!(map.deleted(), 0);
    assert_eq!(map.capacity(), 4);

    // Pop the last item.
    assert_eq!(map.pop(), Some((3, 4)));

    // Map state at this point.
    assert_eq!(map.len(), 2);
    assert_eq!(map.deleted(), 1);
    assert_eq!(map.capacity(), 4);

    // Index state at this point.
    let mut deleted = 0;
    let mut occupied = 0;
    let mut empty = 0;

    for i in 0..map.capacity() {
        match map.slot_at(i) {
            Slot::Deleted => {
                deleted += 1;
            }
            Slot::Occupied(_) => {
                occupied += 1;
            }
            Slot::Empty => {
                empty += 1;
            }
        }
    }

    // Expected index state at this point.
    assert_eq!(deleted, 1);
    assert_eq!(occupied, 2);
    assert_eq!(empty, 1);

    // Expected values at this point.
    assert_eq!(map.get(&1), Some(&2));
    assert_eq!(map.get(&2), Some(&3));
    assert_eq!(map.get(&3), None);
}

#[test]
fn test_map_remove_existing_key() {
    let mut map = OmniMap::new();

    // Remove when the map is empty must return None.
    assert_eq!(map.remove(&1), None);

    // Insert 4 items
    map.insert(1, 2);
    map.insert(2, 3);
    map.insert(3, 4);

    assert_eq!(map.len(), 3);
    assert_eq!(map.deleted(), 0);
    assert_eq!(map.capacity(), 4);

    assert_eq!(map.remove(&1), Some(2));

    assert_eq!(map.len(), 2);
    assert_eq!(map.deleted(), 1);
    assert_eq!(map.capacity(), 4);

    // Access by get to the remaining items
    assert_eq!(map.get(&1), None);
    assert_eq!(map.get(&2), Some(&3));
    assert_eq!(map.get(&3), Some(&4));
}

#[test]
fn test_map_remove_preserve_order() {
    let mut map = OmniMap::new();

    map.insert(1, 2);

    // Remove the only item.
    assert_eq!(map.remove(&1), Some(2));

    assert_eq!(map.len(), 0);
    assert_eq!(map.deleted(), 1);
    assert_eq!(map.slot_at(0), Slot::Deleted);
    assert_eq!(map.capacity(), 1);

    // Must return None, because the map is empty.
    assert_eq!(map.remove(&1), None);

    // Insert new items.
    map.insert(1, 2);
    map.insert(2, 3);
    map.insert(3, 4);
    map.insert(4, 5);

    // Now, the map must have expanded its capacity and reset the deleted counter.
    assert_eq!(map.len(), 4);
    assert_eq!(map.deleted(), 0);
    assert_eq!(map.capacity(), 4);

    // Remove the second item (key "2").
    assert_eq!(map.remove(&2), Some(3));

    // Map state at this point.
    assert_eq!(map.len(), 3);
    assert_eq!(map.deleted(), 1);
    assert_eq!(map.capacity(), 4);

    // Index state at this point.
    let mut deleted = 0;
    let mut occupied = 0;
    let mut empty = 0;

    for i in 0..map.capacity() {
        match map.slot_at(i) {
            Slot::Deleted => {
                deleted += 1;
            }
            Slot::Occupied(_) => {
                occupied += 1;
            }
            Slot::Empty => {
                empty += 1;
            }
        }
    }

    // Expected index state at this point.
    assert_eq!(deleted, 1);
    assert_eq!(occupied, 3);
    assert_eq!(empty, 0);

    // Check the order of the remaining items.
    assert_eq!(map.iter(), vec![(&1, &2), (&3, &4), (&4, &5)]);

    // Order of the keys must be preserved, but index has been updated.
    assert_eq!(*map.index(0), 2);
    assert_eq!(*map.index(1), 4);
    assert_eq!(*map.index(2), 5);
}

#[test]
fn test_map_remove_nonexistent_key() {
    let mut map = OmniMap::new();

    map.insert(1, 1);

    assert_eq!(map.len(), 1);
    assert_eq!(map.deleted(), 0);
    assert_eq!(map.capacity(), 1);

    // Must return None, because the key does not exist
    assert_eq!(map.remove(&2), None);

    assert_eq!(map.len(), 1);
    assert_eq!(map.deleted(), 0);
    assert_eq!(map.capacity(), 1);

    assert_eq!(map.get(&1), Some(&1));
}

#[test]
fn test_map_clear() {
    let mut map = OmniMap::with_capacity(4);

    map.insert(1, 2);
    map.insert(2, 3);
    map.insert(3, 4);

    assert_eq!(map.len(), 3);
    assert_eq!(map.deleted(), 0);
    assert_eq!(map.capacity(), 4);

    // Remove an item
    map.remove(&1);

    assert_eq!(map.len(), 2);
    assert_eq!(map.deleted(), 1);
    assert_eq!(map.capacity(), 4);

    // Clear the map
    map.clear();

    assert_eq!(map.len(), 0);
    assert_eq!(map.deleted(), 0);
    assert_eq!(map.capacity(), 4);

    // All slots must be empty in the index
    for i in 0..map.capacity() {
        assert_eq!(map.slot_at(i), Slot::Empty);
    }

    // Reinserting items must work
    map.insert(1, 2);
    assert_eq!(map.get(&1), Some(&2));
}

#[test]
fn test_map_reserve_capacity() {
    let mut map = OmniMap::new();

    assert_eq!(map.capacity(), 0);

    map.insert(1, 1);

    assert_eq!(map.capacity(), 1);

    // Reserve capacity in advance
    map.reserve(10);

    // Capacity must be 1 + requested capacity = 11
    assert_eq!(map.capacity(), 11);

    assert_eq!(map.get(&1), Some(&1));
}

#[test]
fn test_map_capacity_shrink_to_fit() {
    let mut map = OmniMap::new();

    assert_eq!(map.capacity(), 0);

    for i in 0..10 {
        map.insert(i, i);
    }

    assert_eq!(map.capacity(), 16);

    // Shrink the capacity to the current length
    map.shrink_to_fit();

    assert_eq!(map.len(), 10);
    assert_eq!(map.deleted(), 0);
    assert_eq!(map.capacity(), 10);

    // All elements are accessible
    for i in 0..10 {
        assert_eq!(map.get(&i), Some(&i));
    }

    // Remove all elements
    map.clear();

    // Length must be 0 and capacity must be 10.
    assert_eq!(map.capacity(), 10);
    assert_eq!(map.len(), 0);

    // Shrink the capacity while empty.
    // This should cause deallocation of the internal buffers.
    map.shrink_to_fit();

    assert_eq!(map.len(), 0);
    assert_eq!(map.deleted(), 0);
    assert_eq!(map.capacity(), 0);
}

#[test]
fn test_map_capacity_shrink_to() {
    let mut map = OmniMap::new();

    assert_eq!(map.capacity(), 0);

    for i in 0..10 {
        map.insert(i, i);
    }

    assert_eq!(map.len(), 10);
    assert_eq!(map.deleted(), 0);
    assert_eq!(map.capacity(), 16);

    // Shrink and reserve less than the current length (no effect)
    map.shrink_to(5);

    assert_eq!(map.len(), 10);

    // Capacity must stay 16
    assert_eq!(map.capacity(), 16);

    // Shrink and reserve greater than the current capacity (no effect)
    map.shrink_to(20);

    assert_eq!(map.len(), 10);

    // Capacity must be adjusted to 16
    assert_eq!(map.capacity(), 16);

    // Shrink and reserve less than the current capacity and greater than the current length
    map.shrink_to(12);

    assert_eq!(map.len(), 10);

    // Capacity must be adjusted to 12
    assert_eq!(map.capacity(), 12);

    // All elements are accessible
    for i in 0..10 {
        assert_eq!(map.get(&i), Some(&i));
    }

    // Remove all elements
    map.clear();

    // Length must be 0 and capacity must be 12
    assert_eq!(map.capacity(), 12);
    assert_eq!(map.len(), 0);

    // Shrink the capacity to 0 while empty.
    // This should cause deallocation of the internal buffers.
    map.shrink_to(0);

    assert_eq!(map.len(), 0);
    assert_eq!(map.deleted(), 0);
    assert_eq!(map.capacity(), 0);
}

#[test]
fn test_map_into_iter_order() {
    let mut map = OmniMap::new();

    map.insert(1, 2);
    map.insert(2, 3);
    map.insert(3, 4);

    let mut iter = map.into_iter();

    assert_eq!(iter.next(), Some((1, 2)));
    assert_eq!(iter.next(), Some((2, 3)));
    assert_eq!(iter.next(), Some((3, 4)));
    assert_eq!(iter.next(), None);
}

#[test]
fn test_map_for_loop() {
    let mut map = OmniMap::new();

    map.insert(1, 2);
    map.insert(2, 3);
    map.insert(3, 4);

    // Immutable borrow
    for (key, value) in map.iter() {
        assert_eq!(map.get(key), Some(value));
    }
}

#[test]
fn test_map_for_loop_mut() {
    let mut map = OmniMap::new();

    map.insert(1, 2);
    map.insert(2, 3);
    map.insert(3, 4);

    // Mutable access to every value
    for i in 0..map.len() {
        *map.index_mut(i) += 1;
    }

    assert_eq!(map.get(&1), Some(&3));
    assert_eq!(map.get(&2), Some(&4));
    assert_eq!(map.get(&3), Some(&5));
}

#[test]
fn test_map_into_iter_consume() {
    let mut map = OmniMap::new();

    map.insert(1, 2);
    map.insert(2, 3);
    map.insert(3, 4);

    let mut iter: omni_map::OmniMapIntoIter<u8, u8> = map.into_iter();

    assert_eq!(iter.next(), Some((1, 2)));
    assert_eq!(iter.next(), Some((2, 3)));
    assert_eq!(iter.next(), Some((3, 4)));
    assert_eq!(iter.next(), None);
}

#[test]
fn test_map_clone() {
    let mut original = OmniMap::with_capacity(3);

    original.insert(1, 2);
    original.insert(2, 3);

    let mut cloned = original.clone();

    // Clone must have the same length and capacity as the original
    assert_eq!(cloned.len(), original.len());
    assert_eq!(cloned.deleted(), original.deleted());
    assert_eq!(cloned.capacity(), original.capacity());

    // Entries in the clone must be the same as in the original
    for (key, value) in original.iter() {
        assert_eq!(cloned.get(key), Some(value));
    }

    // Modifying the clone must not affect the original
    cloned.insert(3, 4);
    assert_eq!(cloned.len(), original.len() + 1);
    assert_eq!(original.len(), 2); // original length
    assert_eq!(original.get(&3), None); // Key in original does not exit
}

#[test]
fn test_map_clone_compact() {
    let mut original = OmniMap::with_capacity(3);

    original.insert(1, 2);
    original.insert(2, 3);
    original.insert(3, 4);

    // Remove the last item
    original.pop();

    let mut cloned = original.clone_compact();

    // Clone must have the same length as the original
    assert_eq!(cloned.len(), original.len());

    // Deleted slots must be removed in the clone
    assert_ne!(cloned.deleted(), original.deleted());

    // Clone must have a capacity equal to the length of the original
    assert_eq!(cloned.capacity(), original.len());

    // Entries in the clone must be the same as in the original
    for (key, value) in original.iter() {
        assert_eq!(cloned.get(key), Some(value));
    }

    // Modifying the clone must not affect the original
    cloned.insert(3, 4);
    assert_eq!(cloned.len(), original.len() + 1);
    assert_eq!(original.len(), 2); // original length
    assert_eq!(original.get(&3), None); // Key in original does not exit
}

#[test]
fn test_map_index_integrity() {
    let mut map = OmniMap::with_capacity(100);

    // Initial state, all slots must be empty
    assert!((0..map.capacity()).all(|i| matches!(map.slot_at(i), Slot::Empty)));
    assert_eq!(map.deleted(), 0);
    assert_eq!(map.len(), 0);
    assert_eq!(map.capacity(), 100);

    // Full capacity
    for i in 0..100 {
        assert_eq!(map.insert(i, i), None);
    }

    // Remove some entries
    for i in 75..100 {
        assert_eq!(map.remove(&i), Some(i));
    }

    // Collect slots' information
    let mut occupied_indices = std::collections::HashSet::new();
    let mut empty_indices = 0;
    let mut deleted_indices = 0;

    for i in 0..map.capacity() {
        match map.slot_at(i) {
            Slot::Occupied(index) => {
                assert!(occupied_indices.insert(index), "Duplicate index found: {}", index);
            }
            Slot::Empty => {
                empty_indices += 1;
            }
            Slot::Deleted => {
                deleted_indices += 1;
            }
        }
    }

    // Check integrity
    assert_eq!(occupied_indices.len(), 75);
    assert_eq!(deleted_indices, 25);
    assert_eq!(empty_indices, map.capacity() - (occupied_indices.len() + deleted_indices));

    // Compact the map to reindex
    map.shrink_to_fit();

    // No deleted slots should be present, all slots must be occupied
    assert!((0..map.capacity()).all(|i| matches!(map.slot_at(i), Slot::Occupied(_))));
    assert_eq!(map.deleted(), 0);
    assert_eq!(map.len(), 75);
    assert_eq!(map.capacity(), 75);

    // Update entries
    for i in 0..50 {
        map.insert(i, i * 2);
    }

    // Read updated entries
    for i in 0..50 {
        assert_eq!(map.get(&i), Some(&(i * 2)));
    }

    // Compact the map to reindex
    map.shrink_to_fit();

    // Remove all entries
    for i in 0..75 {
        map.remove(&i);
    }

    // No occupied or empty slots should be present, all slots must be deleted
    assert!((0..map.capacity()).all(|i| matches!(map.slot_at(i), Slot::Deleted)));
    assert_eq!(map.deleted(), 75);
    assert_eq!(map.len(), 0);
    assert_eq!(map.capacity(), 75);

    // Insert new entries, the map must be able to reindex successfully
    for i in 0..100 {
        map.insert(i, i);
    }

    // Map must be reindex successfully, no deleted slots should be present
    assert!((0..map.capacity()).all(|i| !matches!(map.slot_at(i), Slot::Deleted)));
    assert_eq!(map.deleted(), 0);
    assert_eq!(map.len(), 100);
    assert_eq!(map.capacity(), 256);

    // Read updated keys
    for i in 0..100 {
        assert_eq!(map.get(&i), Some(&i));
    }
}

/// These tests check the behavior of the map when the key and value are zero-sized types.
#[test]
fn test_map_zst_keys() {
    // Grow dynamically.
    let mut map = OmniMap::new();

    // Expected op: insert.
    map.insert((), 1);

    // Expected op: update.
    map.insert((), 2);
    map.insert((), 3);

    // Len stays 1.
    assert_eq!(map.len(), 1);

    // Normally it would grow to 4, but capacity will remain invariant after the second insert.
    assert_eq!(map.capacity(), 2);

    // Access the keys returns the last updated value
    assert_eq!(map.get(&()), Some(&3));

    map.remove(&());

    // Len goes back to 0.
    assert_eq!(map.len(), 0);
    assert_eq!(map.get(&()), None);

    map.shrink_to_fit();

    // Capacity goes back to 0.
    assert_eq!(map.capacity(), 0);
}

#[test]
fn test_map_zst_values() {
    // Grow dynamically.
    let mut map = OmniMap::new();

    // Add 3 items.
    map.insert(1, ());
    map.insert(2, ());
    map.insert(3, ());

    // Len and capacity as usual.
    assert_eq!(map.len(), 3);
    assert_eq!(map.capacity(), 4);

    // Access by get returns &().
    for i in 1..4 {
        assert_eq!(map.get(&i), Some(&()));
    }

    // Access by index returns ().
    for i in 0..3 {
        assert_eq!(*map.index(i), ());
    }

    // Remove an item.
    map.remove(&2);

    assert_eq!(map.len(), 2);
    assert_eq!(map.capacity(), 4);

    map.shrink_to_fit();

    assert_eq!(map.len(), 2);
    assert_eq!(map.capacity(), 2);
}
