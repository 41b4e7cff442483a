use heap_profiler::report::{collapsed_line, produce_profile};

fn names(v: &[&str]) -> Vec<Option<String>> {
    v.iter().map(|s| Some(s.to_string())).collect()
}

#[test]
fn scenario_profile_is_innermost_first() {
    let lines = vec![(names(&["bar", "foo", "main"]), 25i128)];
    assert_eq!(produce_profile(&lines), "bar;foo;main 25\n");
}

#[test]
fn profile_has_one_line_per_stack() {
    let lines = vec![(names(&["a", "b"]), 100i128), (names(&["c"]), 50i128)];
    assert_eq!(produce_profile(&lines), "a;b 100\nc 50\n");
    assert_eq!(produce_profile(&vec![]), "");
}

#[test]
fn unnamed_frame_leaves_its_place_empty() {
    let v = vec![Some("alloc".to_string()), None, Some("main".to_string())];
    assert_eq!(collapsed_line(&v, -5), "alloc;;main -5\n");
}

#[test]
fn line_numbers_in_decimal() {
    let v = names(&["f"]);
    assert_eq!(collapsed_line(&v, 0), "f 0\n");
    assert_eq!(collapsed_line(&v, 9), "f 9\n");
    assert_eq!(collapsed_line(&v, 10), "f 10\n");
    assert_eq!(collapsed_line(&v, -1234567890), "f -1234567890\n");
    assert_eq!(collapsed_line(&v, i128::MAX), format!("f {}\n", i128::MAX));
    assert_eq!(collapsed_line(&v, i128::MIN), format!("f {}\n", i128::MIN));
}

#[test]
fn line_of_stack_without_frames() {
    assert_eq!(collapsed_line(&vec![], 7), " 7\n");
    assert_eq!(collapsed_line(&vec![None], 7), " 7\n");
}

#[test]
fn names_keep_their_characters() {
    let v = names(&["<alloc::vec::Vec<u8>>::push", "ünïcode"]);
    assert_eq!(collapsed_line(&v, 1), "<alloc::vec::Vec<u8>>::push;ünïcode 1\n");
}
