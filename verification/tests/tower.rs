use towers_of_hanoi::{get_starting_stack, Tower};

#[test]
fn push_puts_the_ring_on_top() {
    let mut peg = Tower { rings: vec![5, 3] };
    peg.push(1);
    assert_eq!(peg.rings, vec![5, 3, 1]);
}

#[test]
fn push_does_not_compare_sizes() {
    let mut peg = Tower { rings: vec![2] };
    peg.push(9);
    assert_eq!(peg.rings, vec![2, 9]);
}

#[test]
fn pop_takes_the_top_ring() {
    let mut peg = Tower { rings: vec![5, 3, 1] };
    assert_eq!(peg.pop(), 1);
    assert_eq!(peg.rings, vec![5, 3]);
    assert_eq!(peg.pop(), 3);
    assert_eq!(peg.pop(), 5);
    assert!(peg.rings.is_empty());
}

#[test]
fn push_then_pop_gives_the_ring_back() {
    let mut peg = Tower { rings: vec![8, 4] };
    peg.push(2);
    assert_eq!(peg.pop(), 2);
    assert_eq!(peg, Tower { rings: vec![8, 4] });
}

#[test]
fn pegs_are_equal_when_their_rings_are() {
    assert_eq!(Tower { rings: vec![3, 2, 1] }, Tower { rings: vec![3, 2, 1] });
    assert_eq!(Tower { rings: vec![] }, Tower { rings: Vec::new() });
    assert_ne!(Tower { rings: vec![3, 2, 1] }, Tower { rings: vec![3, 1, 2] });
    assert_ne!(Tower { rings: vec![3, 2, 1] }, Tower { rings: vec![3, 2] });
    assert_ne!(Tower { rings: vec![3, 2] }, Tower { rings: vec![3, 2, 1] });
    assert_ne!(Tower { rings: vec![] }, Tower { rings: vec![1] });
}

#[test]
fn a_clone_is_equal_and_apart() {
    let peg = Tower { rings: vec![3, 2, 1] };
    let mut copy = peg.clone();
    assert_eq!(copy, peg);
    copy.pop();
    assert_eq!(peg.rings, vec![3, 2, 1]);
    assert_eq!(copy.rings, vec![3, 2]);
}

#[test]
fn debug_shows_the_rings() {
    let peg = Tower { rings: vec![2, 1] };
    assert_eq!(format!("{:?}", peg), "Tower { rings: [2, 1] }");
}

#[test]
fn starting_stack_counts_down_to_one() {
    assert_eq!(get_starting_stack(4).rings, vec![3, 2, 1]);
    assert_eq!(get_starting_stack(2).rings, vec![1]);
    assert_eq!(get_starting_stack(6).rings, vec![5, 4, 3, 2, 1]);
}

#[test]
fn starting_stack_for_zero_and_one_is_empty() {
    assert!(get_starting_stack(0).rings.is_empty());
    assert!(get_starting_stack(1).rings.is_empty());
}

#[test]
fn starting_stack_is_strictly_decreasing() {
    let stack = get_starting_stack(34);
    assert_eq!(stack.rings.len(), 33);
    assert_eq!(stack.rings[0], 33);
    assert_eq!(stack.rings[32], 1);
    for pair in stack.rings.windows(2) {
        assert!(pair[0] > pair[1]);
    }
}
