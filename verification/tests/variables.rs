use lib::err::ErrCode;
use lib::stdops::{check_chance, check_ovf, pop_jumps, Array, Bind};

#[test]
fn new_bind_is_writable_and_unstashed() {
    let b = Bind::new(7u16);
    assert_eq!(b.val, 7);
    assert!(b.stack.is_empty());
    assert!(b.rw);
}

#[test]
fn assign_respects_ignore() {
    let mut b = Bind::new(1u16);
    b.assign(2);
    assert_eq!(b.val, 2);
    b.rw = false;
    b.assign(3);
    assert_eq!(b.val, 2);
    b.assign_unchecked(4);
    assert_eq!(b.val, 4);
    assert!(!b.rw);
}

#[test]
fn stash_then_retrieve_restores_value() {
    let mut b = Bind::new(10u32);
    b.stash();
    assert_eq!(b.stack, vec![10]);
    b.assign(20);
    b.stash();
    b.assign(30);
    assert!(b.retrieve(1).is_ok());
    assert_eq!(b.val, 20);
    assert!(b.retrieve(1).is_ok());
    assert_eq!(b.val, 10);
    assert!(b.stack.is_empty());
}

#[test]
fn retrieve_on_ignored_variable_pops_without_restoring() {
    let mut b = Bind::new(5u16);
    b.stash();
    b.assign(6);
    b.rw = false;
    assert!(b.retrieve(1).is_ok());
    assert_eq!(b.val, 6);
    assert!(b.stack.is_empty());
}

#[test]
fn retrieve_with_empty_stash_is_ie436() {
    let mut b = Bind::new(5u16);
    let e = b.retrieve(12).unwrap_err();
    assert_eq!(e.code, ErrCode::IE436);
    assert_eq!(e.line, 12);
    assert_eq!(b.val, 5);
}

#[test]
fn new_array_is_all_zero() {
    let a: Array<u16> = Array::new(vec![2, 3]);
    assert_eq!(a.dims, vec![2, 3]);
    assert_eq!(a.elems, vec![0; 6]);
    let e: Array<u32> = Array::empty();
    assert!(e.dims.is_empty());
    assert!(e.elems.is_empty());
}

#[test]
fn array_clone_is_equal() {
    let mut b = Bind::new(Array::<u16>::new(vec![3]));
    b.set(2, 9, 1).unwrap();
    let c = b.val.clone();
    assert_eq!(c.dims, b.val.dims);
    assert_eq!(c.elems, b.val.elems);
}

#[test]
fn dimension_then_read_gives_zero() {
    let mut b = Bind::new(Array::<u32>::empty());
    b.dimension(vec![2, 2], 1).unwrap();
    assert_eq!(b.get_md(vec![2, 2], 1).unwrap(), 0);
    assert_eq!(b.val.elems.len(), 4);
}

#[test]
fn dimension_with_zero_is_ie240() {
    let mut b = Bind::new(Array::<u16>::empty());
    let e = b.dimension(vec![3, 0], 8).unwrap_err();
    assert_eq!(e.code, ErrCode::IE240);
    assert_eq!(e.line, 8);
}

#[test]
fn dimension_of_ignored_array_keeps_it() {
    let mut b = Bind::new(Array::<u16>::new(vec![1]));
    b.rw = false;
    b.dimension(vec![5], 1).unwrap();
    assert_eq!(b.val.dims, vec![1]);
}

#[test]
fn multi_dimensional_write_then_read() {
    let mut b = Bind::new(Array::<u16>::new(vec![2, 3]));
    b.set_md(vec![2, 3], 42, 1).unwrap();
    b.set_md(vec![1, 2], 7, 1).unwrap();
    assert_eq!(b.get_md(vec![2, 3], 1).unwrap(), 42);
    assert_eq!(b.get_md(vec![1, 2], 1).unwrap(), 7);
    assert_eq!(b.get_md(vec![1, 1], 1).unwrap(), 0);
    // the first subscript varies fastest
    assert_eq!(b.val.elems, vec![0, 0, 7, 0, 0, 42]);
}

#[test]
fn out_of_range_subscripts_are_ie241() {
    let mut b = Bind::new(Array::<u16>::new(vec![2, 3]));
    assert_eq!(b.get_md(vec![3, 1], 4).unwrap_err().code, ErrCode::IE241);
    assert_eq!(b.get_md(vec![1], 4).unwrap_err().code, ErrCode::IE241);
    let e = b.set_md(vec![1, 4], 1, 9).unwrap_err();
    assert_eq!(e.code, ErrCode::IE241);
    assert_eq!(e.line, 9);
    assert_eq!(b.get(1, 4).unwrap_err().code, ErrCode::IE241);
}

#[test]
fn ignored_array_write_is_dropped_unless_unchecked() {
    let mut b = Bind::new(Array::<u32>::new(vec![4]));
    b.rw = false;
    b.set(1, 5, 1).unwrap();
    b.set_md(vec![2], 6, 1).unwrap();
    assert_eq!(b.val.elems, vec![0, 0, 0, 0]);
    b.set_unchecked(3, 7, 1).unwrap();
    b.set_md_unchecked(vec![4], 8, 1).unwrap();
    assert_eq!(b.get(3, 1).unwrap(), 7);
    assert_eq!(b.get(4, 1).unwrap(), 8);
    assert_eq!(b.set_unchecked(5, 1, 2).unwrap_err().code, ErrCode::IE241);
}

#[test]
fn array_stash_and_retrieve() {
    let mut b = Bind::new(Array::<u16>::new(vec![2]));
    b.set(1, 3, 1).unwrap();
    b.stash();
    b.set(1, 4, 1).unwrap();
    b.retrieve(1).unwrap();
    assert_eq!(b.get(1, 1).unwrap(), 3);
}

#[test]
fn readout_encodes_bytes() {
    let mut b = Bind::new(Array::<u16>::new(vec![2]));
    b.set(1, 238, 1).unwrap();
    b.set(2, 124, 1).unwrap();
    let mut state = 0u8;
    let bytes = b.readout(&mut state, 1).unwrap();
    assert_eq!(bytes, b"Hi".to_vec());
    assert_eq!(state, 0x96);
}

#[test]
fn readout_of_two_dimensional_array_is_ie241() {
    let b = Bind::new(Array::<u16>::new(vec![1, 1]));
    let mut state = 3u8;
    let e = b.readout(&mut state, 6).unwrap_err();
    assert_eq!(e.code, ErrCode::IE241);
    assert_eq!(e.line, 6);
    assert_eq!(state, 3);
}

#[test]
fn readout_of_large_values_is_taken_modulo_256() {
    let mut b = Bind::new(Array::<u32>::new(vec![2]));
    b.set(1, 0x8005, 1).unwrap();
    b.set(2, 0x1_0000 + 238, 1).unwrap();
    let mut state = 10u8;
    let bytes = b.readout(&mut state, 1).unwrap();
    // 10 - 0x8005 = 5 (mod 256), reversed 0xa0; 5 - 238 = 23, reversed 0xe8
    assert_eq!(bytes, vec![0xa0, 0xe8]);
    assert_eq!(state, 23);
}

#[test]
fn writein_decodes_bytes() {
    let mut b = Bind::new(Array::<u16>::new(vec![3]));
    let mut state = 0u8;
    b.writein(&vec![72, 105, 256], &mut state, 1).unwrap();
    assert_eq!(b.val.elems, vec![72, 33, 256]);
    assert_eq!(state, 0);
    let mut b2 = Bind::new(Array::<u32>::new(vec![1]));
    let mut state2 = 100u8;
    b2.writein(&vec![90], &mut state2, 1).unwrap();
    assert_eq!(b2.val.elems, vec![246]);
    assert_eq!(state2, 90);
}

#[test]
fn writein_to_ignored_array_keeps_elements_but_moves_state() {
    let mut b = Bind::new(Array::<u16>::new(vec![1]));
    b.rw = false;
    let mut state = 0u8;
    b.writein(&vec![65], &mut state, 1).unwrap();
    assert_eq!(b.val.elems, vec![0]);
    assert_eq!(state, 65);
}

#[test]
fn writein_of_scalar_like_array_is_ie241() {
    let mut b = Bind::new(Array::<u16>::empty());
    let mut state = 0u8;
    let e = b.writein(&vec![], &mut state, 2).unwrap_err();
    assert_eq!(e.code, ErrCode::IE241);
}

#[test]
fn chance_of_100_always_runs_and_keeps_state() {
    assert_eq!(check_chance(100, 1234), (true, 1234));
}

#[test]
fn chance_draws_from_the_generator() {
    assert_eq!(check_chance(1, 0), (true, 12345));
    assert_eq!(check_chance(0, 0), (false, 12345));
    assert_eq!(check_chance(36, 12345), (false, 3554416254));
    assert_eq!(check_chance(37, 12345), (true, 3554416254));
    assert_eq!(check_chance(50, 3554416254), (false, 2802067423));
}

#[test]
fn overflow_check() {
    assert_eq!(check_ovf(65535, 1).unwrap(), 65535);
    let e = check_ovf(65536, 3).unwrap_err();
    assert_eq!(e.code, ErrCode::IE533);
    assert_eq!(e.line, 3);
}

#[test]
fn pop_jumps_returns_last_popped() {
    let mut j = vec![1u16, 2, 3, 4];
    assert_eq!(pop_jumps(&mut j, 2, true, 1).unwrap(), Some(3));
    assert_eq!(j, vec![1, 2]);
    assert_eq!(pop_jumps(&mut j, 1, false, 1).unwrap(), Some(2));
    assert_eq!(j, vec![1]);
}

#[test]
fn pop_jumps_zero() {
    let mut j = vec![1u16];
    let e = pop_jumps(&mut j, 0, true, 5).unwrap_err();
    assert_eq!(e.code, ErrCode::IE621);
    assert_eq!(e.line, 5);
    assert_eq!(pop_jumps(&mut j, 0, false, 5).unwrap(), None);
    assert_eq!(j, vec![1]);
}

#[test]
fn pop_jumps_too_many() {
    let mut j = vec![1u16, 2];
    let e = pop_jumps(&mut j, 3, true, 6).unwrap_err();
    assert_eq!(e.code, ErrCode::IE632);
    assert_eq!(j, vec![1, 2]);
    assert_eq!(pop_jumps(&mut j, 3, false, 6).unwrap(), None);
    assert!(j.is_empty());
}

#[test]
fn pop_one_jump_undoes_a_push() {
    let mut j = vec![4u16, 9];
    j.push(17);
    assert_eq!(pop_jumps(&mut j, 1, true, 1).unwrap(), Some(17));
    assert_eq!(j, vec![4, 9]);
}

#[test]
fn write_then_read_other_elements_unchanged() {
    let mut b = Bind::new(Array::<u32>::new(vec![3, 2]));
    b.set_md(vec![1, 1], 11, 1).unwrap();
    b.set_md(vec![3, 2], 99, 1).unwrap();
    for x in 1..=3usize {
        for y in 1..=2usize {
            let expect = if (x, y) == (1, 1) { 11 } else if (x, y) == (3, 2) { 99 } else { 0 };
            assert_eq!(b.get_md(vec![x, y], 1).unwrap(), expect);
        }
    }
}

#[test]
fn zero_subscripts_are_ie241() {
    let mut b = Bind::new(Array::<u16>::new(vec![2, 2]));
    assert_eq!(b.get_md(vec![0, 2], 1).unwrap_err().code, ErrCode::IE241);
    assert_eq!(b.set_md(vec![1, 0], 5, 1).unwrap_err().code, ErrCode::IE241);
    let mut c = Bind::new(Array::<u32>::new(vec![3]));
    assert_eq!(c.get(0, 2).unwrap_err().code, ErrCode::IE241);
    assert_eq!(c.set(0, 1, 2).unwrap_err().code, ErrCode::IE241);
    assert_eq!(c.set_unchecked(0, 1, 2).unwrap_err().code, ErrCode::IE241);
    assert_eq!(c.val.elems, vec![0, 0, 0]);
}
