use chord::node::{FingerTable, Node};
use chord::ring_math::{power_of_two, BITLENGTH, RING_SIZE};

#[test]
fn constants_describe_an_eight_bit_ring() {
    assert_eq!(BITLENGTH, 8);
    assert_eq!(RING_SIZE, 256);
}

#[test]
fn powers_of_two_up_to_the_ring_size() {
    let expected: [u32; 9] = [1, 2, 4, 8, 16, 32, 64, 128, 256];
    for e in 0u8..=8 {
        assert_eq!(power_of_two(e), expected[e as usize]);
    }
}

#[test]
fn finger_starts_of_peer_65() {
    let expected: [u8; 8] = [66, 67, 69, 73, 81, 97, 129, 193];
    for i in 1u8..=8 {
        assert_eq!(FingerTable::finger_id(65, i), expected[(i - 1) as usize]);
    }
}

#[test]
fn finger_starts_wrap_at_the_seam() {
    assert_eq!(FingerTable::finger_id(255, 1), 0);
    assert_eq!(FingerTable::finger_id(255, 2), 1);
    assert_eq!(FingerTable::finger_id(230, 6), 6);
    assert_eq!(FingerTable::finger_id(230, 8), 102);
    assert_eq!(FingerTable::finger_id(128, 8), 0);
    assert_eq!(FingerTable::finger_id(0, 8), 128);
}

#[test]
fn decrease_is_subtraction_modulo_the_ring_size() {
    assert_eq!(Node::decrease(100, 1), 99);
    assert_eq!(Node::decrease(100, 100), 0);
    assert_eq!(Node::decrease(0, 1), 255);
    assert_eq!(Node::decrease(0, 128), 128);
    assert_eq!(Node::decrease(30, 64), 222);
    assert_eq!(Node::decrease(5, 255), 6);
    assert_eq!(Node::decrease(7, 0), 7);
    for v in 0u16..256 {
        for s in 0u16..256 {
            let expected = ((v + 256 - s) % 256) as u8;
            assert_eq!(Node::decrease(v as u8, s as u8), expected);
        }
    }
}

fn strictly_between(x: u8, a: u8, b: u8) -> bool {
    // walk clockwise from a + 1 until b
    let mut y = a.wrapping_add(1);
    if a == b {
        return x != a;
    }
    while y != b {
        if y == x {
            return true;
        }
        y = y.wrapping_add(1);
    }
    false
}

#[test]
fn between_agrees_with_a_clockwise_walk() {
    let n = Node::new(0);
    for a in (0u16..256).step_by(5) {
        for b in (0u16..256).step_by(3) {
            for x in 0u16..256 {
                let (x, a, b) = (x as u8, a as u8, b as u8);
                let open = strictly_between(x, a, b);
                assert_eq!(n.between(x, a, b), open);
                assert_eq!(n.e_is_between_ring(x, a, b), x == a || open);
                assert_eq!(n.is_between_ring_e(x, a, b), x == b || open);
            }
        }
    }
}

#[test]
fn between_without_wrap() {
    let n = Node::new(7);
    assert!(n.between(50, 30, 65));
    assert!(!n.between(30, 30, 65));
    assert!(!n.between(65, 30, 65));
    assert!(!n.between(66, 30, 65));
    assert!(!n.between(0, 30, 65));
}

#[test]
fn between_keeps_the_identifiers_at_the_seam() {
    let n = Node::new(7);
    assert!(n.between(255, 254, 0));
    assert!(n.between(0, 255, 1));
    assert!(n.between(255, 230, 0));
    assert!(n.between(0, 230, 30));
    assert!(n.between(240, 230, 30));
    assert!(n.between(29, 230, 30));
    assert!(!n.between(30, 230, 30));
    assert!(!n.between(230, 230, 30));
    assert!(!n.between(100, 230, 30));
    assert!(!n.between(0, 255, 0));
}

#[test]
fn between_equal_ends_is_the_whole_ring_but_the_end() {
    let n = Node::new(7);
    for x in 0u16..256 {
        let x = x as u8;
        assert_eq!(n.between(x, 42, 42), x != 42);
        assert!(n.e_is_between_ring(x, 42, 42));
        assert!(n.is_between_ring_e(x, 42, 42));
    }
}

#[test]
fn closed_ends_are_inside() {
    let n = Node::new(7);
    assert!(n.e_is_between_ring(30, 30, 65));
    assert!(!n.e_is_between_ring(65, 30, 65));
    assert!(n.is_between_ring_e(65, 30, 65));
    assert!(!n.is_between_ring_e(30, 30, 65));
    assert!(n.is_between_ring_e(0, 230, 0));
    assert!(n.e_is_between_ring(230, 230, 0));
}
