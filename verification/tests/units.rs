//! Unit checks of the byte codec, the constraint solver, and the strategy
//! selector.

use incode::codec::{
    get_bytes32, get_dwords, get_full_bytes16, get_full_bytes32, get32, is_safe_byte,
    strip_trailing_zero, to_dword,
};
use incode::instructions::InstructionSet;
use incode::opcode::OpCode;
use incode::select::{check_add, check_sub, wrap};
use incode::solver::gen_values;
use incode::EncodeError;

fn ops_of(is: &InstructionSet) -> Vec<OpCode> {
    (0..is.count()).map(|i| is.instruction_at(i).opcode()).collect()
}

#[test]
fn safe_byte_bounds() {
    assert!(!is_safe_byte(0x00));
    assert!(is_safe_byte(0x01));
    assert!(is_safe_byte(0x7f));
    assert!(!is_safe_byte(0x80));
    assert!(!is_safe_byte(0xff));
}

#[test]
fn full_bytes_are_little_endian() {
    assert_eq!(get_full_bytes32(0x0102_0304), vec![0x04, 0x03, 0x02, 0x01]);
    assert_eq!(get_full_bytes32(0), vec![0, 0, 0, 0]);
    assert_eq!(get_full_bytes16(0xbeef), vec![0xef, 0xbe]);
}

#[test]
fn stripping_drops_trailing_zeros_but_never_to_three() {
    assert_eq!(strip_trailing_zero(&vec![0x00, 0xff, 0x00, 0x00]), vec![0x00, 0xff]);
    assert_eq!(strip_trailing_zero(&vec![0x01, 0x02, 0x03, 0x00]), vec![0x01, 0x02, 0x03, 0x00]);
    assert_eq!(strip_trailing_zero(&vec![0x00, 0x00, 0x00, 0x00]), Vec::<u8>::new());
    assert_eq!(get_bytes32(0x0001_0203), vec![0x03, 0x02, 0x01, 0x00]);
    assert_eq!(get_bytes32(0x7f), vec![0x7f]);
    assert_eq!(get_bytes32(0x7f00), vec![0x00, 0x7f]);
    assert_eq!(get_bytes32(0), Vec::<u8>::new());
}

#[test]
fn padding_fills_with_the_filler_byte() {
    let mut b = vec![0xe9u8, 0x10, 0xfe, 0xff, 0xff];
    to_dword(&mut b);
    assert_eq!(b, vec![0xe9, 0x10, 0xfe, 0xff, 0xff, 0x90, 0x90, 0x90]);
    let mut c = vec![1u8, 2, 3, 4];
    to_dword(&mut c);
    assert_eq!(c, vec![1, 2, 3, 4]);
}

#[test]
fn dwords_come_out_reversed() {
    let b = vec![0xe9u8, 0x10, 0xfe, 0xff, 0xff];
    assert_eq!(get32(&b), 0xfffe_10e9);
    assert_eq!(get_dwords(&b), vec![0x9090_90ff, 0xfffe_10e9]);
}

#[test]
fn far_jump_bytes_encode_the_displacement() {
    let code = InstructionSet::create_far_jump(0x0019_d588, 0x0019_d758);
    let disp = 0x0019_d588u32.wrapping_sub(0x0019_d758);
    let mut expect = vec![0xe9u8];
    expect.extend_from_slice(&disp.to_le_bytes());
    assert_eq!(code, expect);
}

#[test]
fn solver_preserves_the_exact_sum() {
    // Rebalancing caps each over-limit byte at 0x7F and moves the excess to
    // the same position of the next line.
    let lines = gen_values(0x9090_90fe).unwrap();
    assert_eq!(lines, vec![0x7f7f_7f7f, 0x1111_117f]);
    for d in [1u32, 0x7f, 0x80, 0xff, 0x1234_5678, 0xffff_ffff] {
        let lines = gen_values(d).unwrap();
        let total = lines.iter().fold(0u64, |a, v| a + *v as u64);
        assert_eq!(total, d as u64, "sum must be exactly the delta for {:08X}", d);
        for v in lines {
            for b in get_bytes32(v) {
                assert!(is_safe_byte(b), "unsafe byte in line {:08X} of {:08X}", v, d);
            }
        }
    }
}

#[test]
fn solver_rejects_a_first_line_borrow() {
    // 0x100 starts as bytes [00, 01]: the zero byte would have to borrow
    // from a line before the first, which does not exist.  0x80000001 hits
    // the same wall after its middle zero bytes.
    assert_eq!(gen_values(0x100), Err(EncodeError::UnencodableValue));
    assert_eq!(gen_values(0x8000_0001), Err(EncodeError::UnencodableValue));
}

#[test]
fn add_candidate_reaches_the_target() {
    let c = check_add(0xfffe_10e9, 0x9090_90ff).unwrap();
    assert_eq!(ops_of(&c), vec![OpCode::AddEax(0x6f6d_7f7f), OpCode::AddAl(0x6b)]);
    assert_eq!(c.len(), 7);
}

#[test]
fn sub_candidate_reaches_the_target() {
    let c = check_sub(0x9090_90ff, 1).unwrap();
    assert_eq!(ops_of(&c), vec![OpCode::SubEax(0x6f6f_6f02)]);
    assert_eq!(c.len(), 5);
}

#[test]
fn equal_values_need_no_arithmetic() {
    let c = check_add(5, 5).unwrap();
    assert_eq!(c.count(), 0);
    let w = wrap(5, 5, 0).unwrap();
    assert_eq!(w.count(), 0);
}

#[test]
fn selector_is_deterministic() {
    let a = wrap(0xfffe_10e9, 0x9090_90ff, 0).unwrap();
    let b = wrap(0xfffe_10e9, 0x9090_90ff, 0).unwrap();
    assert_eq!(ops_of(&a), ops_of(&b));
    let c = wrap(0x8080_8080, 1, 500).unwrap();
    let d = wrap(0x8080_8080, 1, 500).unwrap();
    assert_eq!(ops_of(&c), ops_of(&d));
}

#[test]
fn selector_never_loses_to_a_base_candidate() {
    for (dest, src) in [
        (0xfffe_10e9u32, 0x9090_90ffu32),
        (0x9090_90ff, 1),
        (0x0102_0304, 0xfef0_0010),
        (0x7f7f_7f7f, 0),
    ] {
        let w = wrap(dest, src, 0).expect("some candidate must exist");
        if let Ok(a) = check_add(dest, src) {
            assert!(w.len() <= a.len());
        }
        if let Ok(s) = check_sub(dest, src) {
            assert!(w.len() <= s.len());
        }
        if let Ok(a1) = check_add(dest, 1) {
            assert!(w.len() <= a1.len() + 3);
        }
        if let Ok(s1) = check_sub(dest, 1) {
            assert!(w.len() <= s1.len() + 3);
        }
    }
}

#[test]
fn instruction_set_tracks_its_length() {
    let mut a = InstructionSet::new();
    assert_eq!(a.len(), 0);
    assert_eq!(a.count(), 0);
    a.push8(0x41);
    a.add_eax(0x0101_0101);
    assert_eq!(a.len(), 7);
    let mut b = InstructionSet::new();
    b.sub_ax(0x0101);
    b.dec_eax();
    a.extend(b);
    assert_eq!(a.len(), 12);
    assert_eq!(a.count(), 4);
    let c = InstructionSet::new().combine(a);
    assert_eq!(c.len(), 12);
    assert_eq!(c.instruction_at(0).opcode(), OpCode::Push8(0x41));
    assert_eq!(c.instruction_at(0).encoded(), &vec![0x6a, 0x41]);
    assert_eq!(c.instruction_at(2).encoded(), &vec![0x66, 0x2d, 0x01, 0x01]);
}

#[test]
fn zero_eax_is_the_documented_three_instructions() {
    let mut a = InstructionSet::new();
    a.zero_eax();
    assert_eq!(ops_of(&a), vec![OpCode::Push8(1), OpCode::PopEax, OpCode::DecEax]);
}

#[test]
fn builders_encode_the_documented_bytes() {
    let mut a = InstructionSet::new();
    a.push32(0x4443_4241);
    a.push16(0x3231);
    a.push_eax(None);
    a.push_ax(None);
    a.push_esp();
    a.pop_esp();
    a.pop_eax();
    a.add_ax(0x082c);
    a.sub_al(0x7f);
    a.sub_eax(0x0101_0101);
    let expect: Vec<Vec<u8>> = vec![
        vec![0x68, 0x41, 0x42, 0x43, 0x44],
        vec![0x66, 0x68, 0x31, 0x32],
        vec![0x50],
        vec![0x66, 0x50],
        vec![0x54],
        vec![0x5c],
        vec![0x58],
        vec![0x66, 0x05, 0x2c, 0x08],
        vec![0x2c, 0x7f],
        vec![0x2d, 0x01, 0x01, 0x01, 0x01],
    ];
    for (i, e) in expect.iter().enumerate() {
        assert_eq!(a.instruction_at(i).encoded(), e);
    }
}
