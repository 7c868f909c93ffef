use insolence::stream::DrawStream;

#[test]
fn stream_replays_values_in_order() {
    let mut s = DrawStream::new(vec![5, 6, 7]);
    assert_eq!(s.draw(), 5);
    assert_eq!(s.draw(), 6);
    assert_eq!(s.draw(), 7);
}

#[test]
fn stream_is_cyclic() {
    let mut s = DrawStream::new(vec![5, 6]);
    assert_eq!(s.draw(), 5);
    assert_eq!(s.draw(), 6);
    assert_eq!(s.draw(), 5);
    assert_eq!(s.draw(), 6);
    assert_eq!(s.draw(), 5);
}

#[test]
fn draw_below_reduces_modulo_bound() {
    let mut s = DrawStream::new(vec![10, 3, 7]);
    assert_eq!(s.draw_below(4), 2);
    assert_eq!(s.draw_below(4), 3);
    assert_eq!(s.draw_below(4), 3);
}

#[test]
fn position_counts_draws() {
    let mut s = DrawStream::new(vec![1, 2, 3, 4]);
    assert_eq!(s.position(), 0);
    s.draw();
    s.draw();
    assert_eq!(s.position(), 2);
    s.draw();
    s.draw();
    assert_eq!(s.position(), 0);
}

#[test]
fn same_seed_same_stream() {
    let mut a = DrawStream::from_seed(42, 8);
    let mut b = DrawStream::from_seed(42, 8);
    for _ in 0..16 {
        assert_eq!(a.draw(), b.draw());
    }
}

#[test]
fn different_seeds_differ() {
    let mut a = DrawStream::from_seed(1, 4);
    let mut b = DrawStream::from_seed(2, 4);
    let mut any_difference = false;
    for _ in 0..4 {
        if a.draw() != b.draw() {
            any_difference = true;
        }
    }
    assert!(any_difference);
}
