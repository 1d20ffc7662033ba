use elfloader::loader::{auxiliary_vector, AT_BASE, AT_PAGESZ};
use elfloader::page::{Pages, PAGE_SIZE};
use elfloader::stack::{encode_words, null_terminated, pairs_to_words, Stack};

fn word(stack: &Stack, at: usize) -> u64 {
    stack.read_word(at)
}

#[test]
fn pages_new_is_zeroed_and_aligned() {
    let p = Pages::new(2).unwrap();
    assert_eq!(p.num_bytes(), 2 * PAGE_SIZE);
    assert_eq!(p.num_pages(), 2);
    assert_eq!(p.as_ptr() % PAGE_SIZE, 0);
    assert_ne!(p.as_ptr(), 0);
    assert!(p.as_slice().iter().all(|b| *b == 0));
}

#[test]
fn pages_new_zero_pages_is_refused() {
    assert!(Pages::new(0).is_none());
    assert!(Pages::new(usize::MAX).is_none());
}

#[test]
fn pages_write_then_read() {
    let mut p = Pages::new(1).unwrap();
    p.write(10, 0xab);
    assert_eq!(p.read(10), 0xab);
    assert_eq!(p.read(11), 0);
    assert_eq!(p.as_slice()[10], 0xab);
}

#[test]
fn stack_starts_at_top() {
    let s = Stack::new(3).unwrap();
    assert_eq!(s.sp, 3 * 4096);
    assert_eq!(s.sp_addr(), s.base + 3 * 4096);
    assert_eq!(s.base % 4096, 0);
    assert!(Stack::new(0).is_none());
}

#[test]
fn align_to_moves_down_to_multiple() {
    let mut s = Stack::new(1).unwrap();
    s.push_bytes(&[1, 2, 3, 4, 5]);
    assert_eq!(s.sp, 4091);
    s.align_to(8);
    assert_eq!(s.sp, 4088);
    assert_eq!(s.sp % 8, 0);
    s.align_to(8);
    assert_eq!(s.sp, 4088);
    s.align_to(16);
    assert_eq!(s.sp, 4080);
}

#[test]
fn assert_aligned_accepts_aligned_cursor() {
    let mut s = Stack::new(1).unwrap();
    s.assert_aligned(8);
    s.assert_aligned_to::<u64>();
    s.push_bytes(&[7]);
    s.assert_aligned(1);
    s.assert_aligned_to::<u8>();
    assert_eq!(s.sp, 4095);
}

#[test]
fn push_bytes_writes_below_cursor() {
    let mut s = Stack::new(1).unwrap();
    s.push_bytes(&[9, 8, 7]);
    assert_eq!(s.sp, 4093);
    assert_eq!(&s.stack.as_slice()[4093..4096], &[9, 8, 7]);
}

#[test]
fn alloc_bytes_reserves_without_writing() {
    let mut s = Stack::new(1).unwrap();
    let at = s.alloc_bytes(100);
    assert_eq!(at, 3996);
    assert_eq!(s.sp, 3996);
    assert!(s.stack.as_slice().iter().all(|b| *b == 0));
}

#[test]
fn push_str_returns_string_address() {
    let mut s = Stack::new(1).unwrap();
    let before = s.sp;
    let p = s.push_str("world");
    assert_eq!(s.sp, before - 6);
    assert_eq!(p, s.base + s.sp);
    assert_eq!(p, s.sp_addr());
    assert_eq!(&s.stack.as_slice()[s.sp..before], b"world\0");
}

#[test]
fn push_str_empty_pushes_terminator() {
    let mut s = Stack::new(1).unwrap();
    let p = s.push_str("");
    assert_eq!(s.sp, 4095);
    assert_eq!(p, s.base + 4095);
    assert_eq!(s.stack.as_slice()[4095], 0);
}

#[test]
fn push_slice_reads_back_in_order() {
    let mut s = Stack::new(1).unwrap();
    s.push_slice(&[0x1111, 0x2222_3333_4444_5555, u64::MAX]);
    assert_eq!(s.sp, 4096 - 24);
    assert_eq!(word(&s, s.sp), 0x1111);
    assert_eq!(word(&s, s.sp + 8), 0x2222_3333_4444_5555);
    assert_eq!(word(&s, s.sp + 16), u64::MAX);
}

#[test]
fn push_value_is_little_endian() {
    let mut s = Stack::new(1).unwrap();
    s.push_value(0x0102_0304_0506_0708);
    assert_eq!(s.sp, 4088);
    assert_eq!(&s.stack.as_slice()[4088..4096], &[8, 7, 6, 5, 4, 3, 2, 1]);
    assert_eq!(word(&s, 4088), 0x0102_0304_0506_0708);
}

#[test]
fn encode_words_little_endian() {
    assert_eq!(encode_words(&[0x0a0b, 1]), vec![0x0b, 0x0a, 0, 0, 0, 0, 0, 0, 1, 0, 0, 0, 0, 0, 0, 0]);
    assert!(encode_words(&[]).is_empty());
}

#[test]
fn word_helpers() {
    assert_eq!(pairs_to_words(&[(6, 4096), (0, 0)]), vec![6, 4096, 0, 0]);
    assert_eq!(null_terminated(&[5, 6]), vec![5, 6, 0]);
    assert_eq!(null_terminated(&[]), vec![0]);
}

#[test]
fn initial_stack_decodes_in_abi_order() {
    let mut s = Stack::new(4).unwrap();
    s.push_value(0);
    let envp = s.push_strs(&["FOO=1", "BAR=2", "BAZ=3"]);
    let argv = s.push_strs(&["./hello", "world"]);
    let auxv = auxiliary_vector(0x5555_0000);
    s.push_tables(&argv, &envp, &auxv);
    assert_eq!(s.sp % 8, 0);
    let mut at = s.sp;
    let mut next = || {
        let w = word(&s, at);
        at += 8;
        w
    };
    assert_eq!(next(), 2);
    let a0 = next();
    let a1 = next();
    assert_ne!(a0, 0);
    assert_ne!(a1, 0);
    assert_eq!(next(), 0);
    for _ in 0..3 {
        assert_ne!(next(), 0);
    }
    assert_eq!(next(), 0);
    assert_eq!((next(), next()), (AT_PAGESZ, 4096));
    assert_eq!((next(), next()), (AT_BASE, 0x5555_0000));
    assert_eq!((next(), next()), (0, 0));
    let off = (a1 as usize) - s.base;
    assert_eq!(&s.stack.as_slice()[off..off + 6], b"world\0");
    let off = (a0 as usize) - s.base;
    assert_eq!(&s.stack.as_slice()[off..off + 8], b"./hello\0");
}

#[test]
fn push_strs_places_strings_in_order() {
    let mut s = Stack::new(1).unwrap();
    let ptrs = s.push_strs(&["ab", "", "xyz"]);
    assert_eq!(s.sp, 4096 - 3 - 1 - 4);
    assert_eq!(ptrs, vec![(s.base + 4093) as u64, (s.base + 4092) as u64, (s.base + 4088) as u64]);
    assert_eq!(&s.stack.as_slice()[4088..4096], b"xyz\0\0ab\0");
}
