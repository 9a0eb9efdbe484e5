use decoder::decoder::{ArchSize, ByteString, Context, Rex};
use decoder::instruction_tree::OperandSize;

fn bytes(v: &[u8], curr: usize) -> ByteString {
    ByteString { code: v.to_vec(), curr }
}

#[test]
fn len_counts_every_byte() {
    assert_eq!(bytes(&[1, 2, 3], 0).len(), 3);
    assert_eq!(bytes(&[], 0).len(), 0);
}

#[test]
fn advance_moves_only_within_the_code() {
    let mut b = bytes(&[1, 2, 3, 4], 0);
    assert!(b.advance(2));
    assert_eq!(b.curr, 2);
    assert!(!b.advance(2));
    assert_eq!(b.curr, 2);
    assert!(b.advance(1));
    assert_eq!(b.curr, 3);
}

#[test]
fn trim_drops_what_is_behind_the_cursor() {
    let mut b = bytes(&[1, 2, 3, 4], 2);
    let before = b.get();
    b.trim();
    assert_eq!(b.code, vec![3, 4]);
    assert_eq!(b.curr, 0);
    assert_eq!(b.get(), before);
}

#[test]
fn append_and_push_add_at_the_end() {
    let mut b = bytes(&[1], 0);
    b.append(&vec![2, 3]);
    b.push(4);
    assert_eq!(b.code, vec![1, 2, 3, 4]);
    assert_eq!(b.curr, 0);
}

#[test]
fn get_at_and_get_offset_read_relative_to_the_cursor() {
    let b = bytes(&[10, 20, 30, 40], 2);
    assert_eq!(b.get_at(0), 10);
    assert_eq!(b.get(), 30);
    assert_eq!(b.get_offset(0), 30);
    assert_eq!(b.get_offset(-2), 10);
    assert_eq!(b.get_offset(1), 40);
    assert_eq!(b.get_offset(2), 0);
    assert_eq!(b.get_offset(-3), 0);
}

#[test]
fn step_moves_to_the_next_byte_and_stays_on_the_last() {
    let mut b = bytes(&[1, 2], 0);
    assert_eq!(b.step(), 2);
    assert_eq!(b.curr, 1);
    assert_eq!(b.step(), 2);
    assert_eq!(b.curr, 1);
    let mut c = bytes(&[5, 6, 7], 0);
    assert_eq!(c.step(), 6);
    assert_eq!(c.curr, 1);
}

#[test]
fn inc_and_dec_move_up_to_the_end() {
    let mut b = bytes(&[5, 6, 7], 1);
    assert!(b.inc());
    assert_eq!(b.curr, 2);
    assert!(!b.is_end());
    assert!(b.inc());
    assert_eq!(b.curr, 3);
    assert!(b.is_end());
    assert!(!b.inc());
    assert_eq!(b.curr, 3);
    b.dec();
    assert_eq!(b.curr, 2);
    assert!(!b.is_end());
    assert!(bytes(&[], 0).is_end());
}

#[test]
fn slices_by_index_and_by_offset() {
    let mut b = bytes(&[1, 2, 3, 4, 5], 3);
    assert_eq!(b.get_slice(1, 3), &[2, 3]);
    assert_eq!(b.get_slice_offset(-2, 1), &[2, 3, 4]);
    assert_eq!(b.get_slice_offset(0, 0), &[] as &[u8]);
}

#[test]
fn rex_fields_are_placed_where_they_extend_a_register() {
    let r = Rex::from(0x4F);
    assert!(r.w);
    assert_eq!((r.r, r.x, r.b), (8, 8, 8));
    let r = Rex::from(0x41);
    assert!(!r.w);
    assert_eq!((r.r, r.x, r.b), (0, 0, 8));
}

#[test]
fn address_size_halves_with_the_override() {
    let mut c = Context::default();
    assert_eq!(c.size, ArchSize::I64);
    assert_eq!(c.addr_size(), OperandSize::Quad);
    c.addr_override = true;
    assert_eq!(c.addr_size(), OperandSize::Double);
    c.size = ArchSize::I32;
    assert_eq!(c.addr_size(), OperandSize::Word);
    c.addr_override = false;
    assert_eq!(c.addr_size(), OperandSize::Double);
    c.size = ArchSize::I16;
    assert_eq!(c.addr_size(), OperandSize::Word);
    c.addr_override = true;
    assert_eq!(c.addr_size(), OperandSize::Byte);
}
