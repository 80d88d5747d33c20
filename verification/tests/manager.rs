use threads_control::{empty_slots, thread_manager};

#[test]
fn test1() {
    let strings = vec![
        "test 1".to_string(),
        "test 2".to_string(),
        "test 3".to_string(),
        "test 4".to_string(),
        "test 5".to_string(),
        "test 6".to_string(),
        "test 7".to_string(),
        "test 8".to_string(),
        "test 9".to_string(),
        "test 10".to_string(),
    ];

    let result = vec![
        Some("TEST 1".to_string()),
        Some("TEST 2".to_string()),
        Some("TEST 3".to_string()),
        Some("TEST 4".to_string()),
        Some("TEST 5".to_string()),
        Some("TEST 6".to_string()),
        Some("TEST 7".to_string()),
        Some("TEST 8".to_string()),
        Some("TEST 9".to_string()),
        Some("TEST 10".to_string()),
    ];

    assert_eq!(thread_manager(strings, |s| s.to_uppercase()), Ok(result));
}

#[test]
fn test2() {
    assert_eq!(
        thread_manager(vec![], |x: String| x.to_uppercase()),
        Err("Vector is empty!".to_string())
    );
}

#[test]
fn eighteen_strings_come_back_uppercased_in_order() {
    let mut strings = Vec::new();
    let mut expected = Vec::new();
    for i in 1..=18 {
        strings.push(format!("test {}", i));
        expected.push(Some(format!("TEST {}", i)));
    }
    assert_eq!(thread_manager(strings, |s| s.to_uppercase()), Ok(expected));
}

#[test]
fn empty_batch_of_numbers_is_refused() {
    let outcome = thread_manager(Vec::<u64>::new(), |x| x + 1);
    assert_eq!(outcome, Err("Vector is empty!".to_string()));
}

#[test]
fn single_input_gives_single_output() {
    assert_eq!(thread_manager(vec![20u32], |x| x * 2 + 1), Ok(vec![Some(41u32)]));
}

#[test]
fn every_slot_holds_the_image_of_its_own_input() {
    let data: Vec<u64> = vec![7, 0, 3, 3, 100, 1, 9, 42, 5, 6, 8, 2];
    let outcome = thread_manager(data.clone(), |x| x * x + 1).unwrap();
    assert_eq!(outcome.len(), data.len());
    for i in 0..data.len() {
        assert_eq!(outcome[i], Some(data[i] * data[i] + 1));
    }
}

#[test]
fn output_is_as_long_as_input_for_every_batch_size() {
    for n in 1usize..=12 {
        let data: Vec<usize> = (0..n).collect();
        let outcome = thread_manager(data, |x| x + 10).unwrap();
        assert_eq!(outcome.len(), n);
        for i in 0..n {
            assert_eq!(outcome[i], Some(i + 10));
        }
    }
}

#[test]
fn empty_slots_has_one_empty_slot_per_input() {
    let slots: Vec<Option<String>> = empty_slots(4).unwrap();
    assert_eq!(slots, vec![None, None, None, None]);
    let one: Vec<Option<u8>> = empty_slots(1).unwrap();
    assert_eq!(one, vec![None]);
}

#[test]
fn empty_slots_refuses_an_empty_batch() {
    assert_eq!(empty_slots::<u8>(0), Err("Vector is empty!".to_string()));
}
