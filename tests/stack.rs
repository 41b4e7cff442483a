use heap_profiler::stack::{Stack, MAX_DEPTH};

#[test]
fn new_stack_is_empty() {
    let s = Stack::new();
    assert_eq!(s.len(), 0);
    assert_eq!(s.to_vec(), Vec::<usize>::new());
}

#[test]
fn push_keeps_order_and_reports_room() {
    let mut s = Stack::new();
    assert!(s.push(0x10));
    assert!(s.push(0x20));
    assert_eq!(s.to_vec(), vec![0x10, 0x20]);
    assert_eq!(s.frame(0), 0x10);
    assert_eq!(s.frame(1), 0x20);
}

#[test]
fn push_beyond_capacity_drops_frames() {
    let mut s = Stack::new();
    let mut more = true;
    for pc in 1..=50usize {
        more = s.push(pc);
    }
    assert!(!more);
    assert_eq!(s.len(), MAX_DEPTH);
    assert_eq!(s.to_vec(), (1..=32usize).collect::<Vec<_>>());
}

#[test]
fn push_reports_full_on_last_slot() {
    let mut s = Stack::new();
    for pc in 1..32usize {
        assert!(s.push(pc));
    }
    assert!(!s.push(32));
    assert_eq!(s.len(), 32);
}

#[test]
fn deep_chain_keeps_innermost_frames() {
    let chain: Vec<usize> = (1000..1050usize).collect();
    let s = Stack::from_frames(&chain);
    assert_eq!(s.len(), 32);
    assert_eq!(s.to_vec(), chain[..32].to_vec());
}

#[test]
fn short_chain_is_kept_whole() {
    let chain = vec![7usize, 8, 9];
    let s = Stack::from_frames(&chain);
    assert_eq!(s.to_vec(), chain);
    let exact: Vec<usize> = (0..32usize).collect();
    assert_eq!(Stack::from_frames(&exact).to_vec(), exact);
    assert_eq!(Stack::from_frames(&[]).len(), 0);
}

#[test]
fn same_path_gives_equal_stacks() {
    let chain = vec![0xa, 0xb, 0xc];
    let first = Stack::from_frames(&chain);
    let mut second = Stack::new();
    for pc in &chain {
        second.push(*pc);
    }
    assert!(first.same_as(&second));
    assert!(second.same_as(&first));
    assert_eq!(first.key(), second.key());
}

#[test]
fn different_stacks_are_not_equal() {
    let a = Stack::from_frames(&[1, 2, 3]);
    let b = Stack::from_frames(&[1, 2, 4]);
    let prefix = Stack::from_frames(&[1, 2]);
    assert!(!a.same_as(&b));
    assert!(!a.same_as(&prefix));
    assert!(!prefix.same_as(&a));
    assert!(Stack::new().same_as(&Stack::new()));
}

#[test]
fn key_round_trip() {
    let a = Stack::from_frames(&[5, 6, 7]);
    let k = a.key();
    assert_eq!(k.1, 3);
    assert!(Stack::from_key(&k).same_as(&a));
    let mut odd = k;
    odd.1 = 40;
    assert_eq!(Stack::from_key(&odd).len(), 32);
}

#[test]
fn equality_operator_compares_frames() {
    let a = Stack::from_frames(&[1, 2, 3]);
    let b = Stack::from_frames(&[1, 2, 3, 4]);
    let mut c = Stack::new();
    c.push(1);
    c.push(2);
    c.push(3);
    assert!(a == c);
    assert!(a != b);
    assert!(b != a);
}
