use yjit::codebuf::{encode_jmp, CodeBlock};
use yjit::block::encode_exit;

#[test]
fn forward_and_backward_jumps() {
    assert_eq!(encode_jmp(0x1000, 0x2000), vec![0xE9, 0xFB, 0x0F, 0x00, 0x00]);
    assert_eq!(encode_jmp(0x2000, 0x1000), vec![0xE9, 0xFB, 0xEF, 0xFF, 0xFF]);
}

#[test]
fn exit_code() {
    assert_eq!(
        encode_exit(0x100, 3, 0x200),
        vec![0xB8, 3, 0, 0, 0, 0xE9, 0xF6, 0, 0, 0]
    );
}

#[test]
fn writes_and_patches() {
    let mut cb = CodeBlock::new(0x1000, 16);
    cb.write_bytes(&vec![1, 2, 3, 4, 5, 6]);
    assert_eq!(cb.get_write_pos(), 6);
    cb.patch_jmp(1, 0x1000);
    assert_eq!(cb.mem[0..7].to_vec(), vec![1, 0xE9, 0xFA, 0xFF, 0xFF, 0xFF, 0]);
    assert_eq!(cb.get_write_pos(), 6);
    cb.write_bytes(&vec![0; 11]);
    assert!(cb.dropped_bytes);
    assert_eq!(cb.get_write_pos(), 6);
    assert!(cb.has_capacity(10));
    assert!(!cb.has_capacity(11));
}
