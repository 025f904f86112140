use fast_convolver::ring_buffer::{RingBuffer, FRAC_SCALE};
use fast_convolver::Error;

#[test]
fn test_new_primed_with_silence() {
    let mut rb = RingBuffer::new(4);
    assert_eq!(rb.capacity(), 4);
    assert_eq!(rb.get_read_index(), 0);
    assert_eq!(rb.get_write_index(), 1);
    assert_eq!(rb.len(), 1);
    assert_eq!(rb.peek(), 0);
    assert_eq!(rb.pop(), 0);
}

#[test]
fn test_push_pop_order() {
    let mut rb = RingBuffer::new(8);
    rb.push(11);
    rb.push(22);
    rb.push(33);
    assert_eq!(rb.len(), 4);
    assert_eq!(rb.pop(), 0);
    assert_eq!(rb.pop(), 11);
    assert_eq!(rb.pop(), 22);
    assert_eq!(rb.pop(), 33);
    assert_eq!(rb.len(), 0);
}

#[test]
fn test_put_and_peek_do_not_advance() {
    let mut rb = RingBuffer::new(4);
    rb.put(5);
    assert_eq!(rb.get_write_index(), 1);
    assert_eq!(rb.peek(), 0);
    assert_eq!(rb.get_read_index(), 0);
    rb.set_read_index(1);
    assert_eq!(rb.peek(), 5);
    assert_eq!(rb.get_read_index(), 1);
}

#[test]
fn test_get_set_wrap_around() {
    let mut rb = RingBuffer::new(3);
    rb.set(0, 7);
    assert_eq!(rb.get(0), 7);
    rb.set_read_index(2);
    assert_eq!(rb.get(1), 7);
    rb.set(2, 9);
    rb.set_read_index(0);
    assert_eq!(rb.get(1), 9);
}

#[test]
fn test_get_set_accept_any_offset() {
    let mut rb = RingBuffer::new(3);
    rb.set(0, 5);
    rb.set(1, 6);
    rb.set(2, 7);
    assert_eq!(rb.get(3), 5);
    assert_eq!(rb.get(7), 6);
    assert_eq!(rb.get(usize::MAX), 5);
    rb.set(5, 9);
    assert_eq!(rb.get(2), 9);
}

#[test]
fn test_cursor_accessors() {
    let mut rb = RingBuffer::new(16);
    rb.set_write_index(9);
    rb.set_read_index(4);
    assert_eq!(rb.get_write_index(), 9);
    assert_eq!(rb.get_read_index(), 4);
    assert_eq!(rb.len(), 5);
}

#[test]
fn test_len_wraps_modulo_capacity() {
    let mut rb = RingBuffer::new(4);
    rb.set_read_index(3);
    rb.set_write_index(1);
    assert_eq!(rb.len(), 2);
    rb.set_write_index(3);
    assert_eq!(rb.len(), 0);
}

#[test]
fn test_buffer_reset() {
    let mut rb = RingBuffer::new(5);
    rb.push(1);
    rb.push(2);
    rb.set_read_index(3);
    rb.reset();
    assert_eq!(rb.capacity(), 5);
    assert_eq!(rb.get_read_index(), 0);
    assert_eq!(rb.get_write_index(), 1);
    for offset in 0..5 {
        assert_eq!(rb.get(offset), 0);
    }
}

#[test]
fn test_get_frac_interpolates() {
    let mut rb = RingBuffer::new(4);
    rb.set(0, 100);
    rb.set(1, 200);
    let midpoint = rb.get_frac(FRAC_SCALE / 2).unwrap();
    assert_eq!(midpoint, 150);
    let at_zero = rb.get_frac(0).unwrap();
    assert_eq!(at_zero, 100);
    let quarter = rb.get_frac(FRAC_SCALE / 4).unwrap();
    assert_eq!(quarter, 125);
}

#[test]
fn test_get_frac_negative_is_out_of_range() {
    let rb = RingBuffer::new(4);
    assert_eq!(rb.get_frac(-1), Err(Error::OutOfRange));
    assert_eq!(rb.get_frac(i64::MIN), Err(Error::OutOfRange));
}

#[test]
fn test_get_frac_wraps_and_floors() {
    let mut rb = RingBuffer::new(3);
    rb.set(2, 10);
    rb.set(0, -100);
    let wrapped = rb.get_frac(2 * FRAC_SCALE + FRAC_SCALE / 2).unwrap();
    assert_eq!(wrapped, (10 - 100) / 2);
    let floored = rb.get_frac(5 * FRAC_SCALE + FRAC_SCALE / 2).unwrap();
    assert_eq!(floored, -45);
}
