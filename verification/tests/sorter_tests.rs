use extsort::ExternalSorter;

#[test]
fn test_smaller_than_segment() {
    let sorter = ExternalSorter::new();
    let data: Vec<u32> = (0..100u32).collect();
    let data_rev: Vec<u32> = data.iter().rev().cloned().collect();

    let sorted_iter = sorter.sort(data_rev);

    // should not have used any segments (all in memory)
    assert_eq!(sorted_iter.segment_count(), 0);
    let sorted_data: Vec<u32> = sorted_iter.into_vec();

    assert_eq!(data, sorted_data);
}

#[test]
fn test_multiple_segments() {
    let mut sorter = ExternalSorter::new();
    sorter.set_max_size(100);
    let data: Vec<u32> = (0..1000u32).collect();

    let data_rev: Vec<u32> = data.iter().rev().cloned().collect();
    let sorted_iter = sorter.sort(data_rev);
    assert_eq!(sorted_iter.segment_count(), 10);

    let sorted_data: Vec<u32> = sorted_iter.into_vec();
    assert_eq!(data, sorted_data);
}

#[test]
fn empty_input_yields_nothing() {
    let sorter = ExternalSorter::new();
    let mut sorted_iter = sorter.sort(Vec::<u32>::new());
    assert_eq!(sorted_iter.segment_count(), 0);
    assert_eq!(sorted_iter.next(), None);
    assert_eq!(sorted_iter.next(), None);
}

#[test]
fn next_emits_ascending_then_none() {
    let sorter = ExternalSorter::new();
    let mut it = sorter.sort(vec![4u32, 2, 7, 2]);
    assert_eq!(it.next(), Some(2));
    assert_eq!(it.next(), Some(2));
    assert_eq!(it.next(), Some(4));
    assert_eq!(it.next(), Some(7));
    assert_eq!(it.next(), None);
    assert_eq!(it.next(), None);
}

#[test]
fn tiny_buffer_spills_two_runs() {
    let mut sorter = ExternalSorter::new();
    sorter.set_max_size(1);
    let it = sorter.sort(vec![3u32, 1, 2]);
    assert_eq!(it.segment_count(), 2);

    // the first run holds [1, 3] and the residue run holds [2],
    // each item as four little-endian bytes
    assert_eq!(it.segment_bytes(0).as_slice(), &[1, 0, 0, 0, 3, 0, 0, 0]);
    assert_eq!(it.segment_bytes(1).as_slice(), &[2, 0, 0, 0]);

    assert_eq!(it.into_vec(), vec![1, 2, 3]);
}

#[test]
fn equal_items_are_all_delivered() {
    let mut sorter = ExternalSorter::new();
    sorter.set_max_size(2);
    let it = sorter.sort(vec![5u32, 5, 5, 5, 5]);
    assert_eq!(it.into_vec(), vec![5, 5, 5, 5, 5]);
}

#[test]
fn arrival_order_does_not_change_output() {
    let mut sorter = ExternalSorter::new();
    sorter.set_max_size(10);

    let ascending: Vec<u32> = (0..100u32).collect();
    let descending: Vec<u32> = ascending.iter().rev().cloned().collect();
    let mut shuffled: Vec<u32> = Vec::new();
    for i in 0..50u32 {
        shuffled.push(99 - i);
        shuffled.push(i);
    }

    let out_asc = sorter.sort(ascending.clone()).into_vec();
    let out_desc = sorter.sort(descending).into_vec();
    let out_shuf = sorter.sort(shuffled).into_vec();

    assert_eq!(out_asc, ascending);
    assert_eq!(out_desc, out_asc);
    assert_eq!(out_shuf, out_asc);
}

#[test]
fn large_reversed_input_is_sorted() {
    let mut sorter = ExternalSorter::new();
    sorter.set_max_size(100_000);
    let data: Vec<u32> = (0..1_000_000u32).rev().collect();
    let it = sorter.sort(data);
    assert_eq!(it.segment_count(), 10);
    let out = it.into_vec();
    assert_eq!(out.len(), 1_000_000);
    for i in 0..out.len() - 1 {
        assert!(out[i] <= out[i + 1]);
    }
    assert_eq!(out[0], 0);
    assert_eq!(out[999_999], 999_999);
}

#[test]
fn zero_buffer_spills_every_item() {
    let mut sorter = ExternalSorter::new();
    sorter.set_max_size(0);
    let it = sorter.sort(vec![2u32, 1]);
    assert_eq!(it.segment_count(), 2);
    assert_eq!(it.into_vec(), vec![1, 2]);
}

#[test]
fn sort_dir_is_remembered() {
    let mut sorter = ExternalSorter::new();
    assert_eq!(sorter.sort_dir(), &None);
    sorter.set_sort_dir(String::from("scratch"));
    assert_eq!(sorter.sort_dir(), &Some(String::from("scratch")));
}
