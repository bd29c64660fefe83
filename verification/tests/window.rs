use brotli::window::{DistanceRing, WindowBuffer};

#[test]
fn the_ring_at_the_start() {
    let ring = DistanceRing::new();
    assert_eq!((ring.d0, ring.d1, ring.d2, ring.d3), (4, 11, 15, 16));
}

#[test]
fn a_distance_enters_the_ring_at_the_front() {
    let mut ring = DistanceRing::new();
    ring.push(7);
    assert_eq!((ring.d0, ring.d1, ring.d2, ring.d3), (7, 4, 11, 15));
    ring.push(100);
    ring.push(1);
    ring.push(2);
    ring.push(3);
    assert_eq!((ring.d0, ring.d1, ring.d2, ring.d3), (3, 2, 1, 100));
}

#[test]
fn the_two_last_bytes() {
    let mut window = WindowBuffer::new(8);
    let mut sink = Vec::new();
    assert_eq!((window.p1(), window.p2()), (0, 0));
    window.emit(b'a', &mut sink);
    assert_eq!((window.p1(), window.p2()), (b'a', 0));
    window.emit(b'b', &mut sink);
    window.emit(b'c', &mut sink);
    assert_eq!((window.p1(), window.p2()), (b'c', b'b'));
    assert_eq!(sink, b"abc".to_vec());
    assert_eq!(window.max_distance(), 3);
}

#[test]
fn a_copy_adds_as_many_bytes_as_it_is_long() {
    let mut window = WindowBuffer::new(1008);
    let mut sink = Vec::new();
    for &b in b"abcdef" {
        window.emit(b, &mut sink);
    }
    window.copy(4, 6, &mut sink);
    assert_eq!(sink, b"abcdefabcd".to_vec());
    window.copy(0, 1, &mut sink);
    assert_eq!(sink.len(), 10);
    window.copy(7, 2, &mut sink);
    assert_eq!(sink, b"abcdefabcdcdcdcdc".to_vec());
    assert_eq!(window.max_distance(), 17);
}

#[test]
fn a_copy_at_distance_one_repeats_the_last_byte() {
    let mut window = WindowBuffer::new(16);
    let mut sink = Vec::new();
    window.emit(b'z', &mut sink);
    window.copy(40, 1, &mut sink);
    assert_eq!(sink, vec![b'z'; 41]);
    assert_eq!(window.max_distance(), 16);
}

#[test]
fn the_window_keeps_the_last_bytes_when_it_is_full() {
    let mut window = WindowBuffer::new(5);
    let mut sink = Vec::new();
    for &b in b"0123456789" {
        window.emit(b, &mut sink);
    }
    assert_eq!(window.max_distance(), 5);
    window.copy(3, 5, &mut sink);
    window.copy(2, 1, &mut sink);
    window.copy(4, 4, &mut sink);
    assert_eq!(sink, b"0123456789567776777".to_vec());
    assert_eq!((window.p1(), window.p2()), (b'7', b'7'));
}
