//! End-to-end checks of the generators, each result re-run through a plain
//! interpreter of the instruction set: push/pop against a byte stack whose
//! front is the top of stack, add/sub on the 8/16/32-bit accumulator lanes.

use incode::instructions::InstructionSet;
use incode::opcode::OpCode;
use incode::position::{generate_far_jump, generate_position, generate_position_and_payload};

fn prepend(stack: &mut Vec<u8>, bytes: &[u8]) {
    for (i, b) in bytes.iter().enumerate() {
        stack.insert(i, *b);
    }
}

fn pop4(stack: &mut Vec<u8>) -> u32 {
    let v = u32::from_le_bytes([stack[0], stack[1], stack[2], stack[3]]);
    stack.drain(0..4);
    v
}

fn run(is: &InstructionSet, eax0: u32, esp0: u32) -> (u32, u32, Vec<u8>) {
    let mut eax = eax0;
    let mut esp = esp0;
    let mut stack: Vec<u8> = Vec::new();
    for i in 0..is.count() {
        match is.instruction_at(i).opcode() {
            OpCode::Push8(v) => {
                let wide = v as i8 as i32 as u32;
                prepend(&mut stack, &wide.to_le_bytes());
            }
            OpCode::Push16(v) => prepend(&mut stack, &v.to_le_bytes()),
            OpCode::Push32(v) => prepend(&mut stack, &v.to_le_bytes()),
            OpCode::PushEax(_) => prepend(&mut stack, &eax.to_le_bytes()),
            OpCode::PushAx(_) => prepend(&mut stack, &(eax as u16).to_le_bytes()),
            OpCode::PushEsp => prepend(&mut stack, &esp.to_le_bytes()),
            OpCode::PopEax => eax = pop4(&mut stack),
            OpCode::PopEsp => esp = pop4(&mut stack),
            OpCode::DecEax => eax = eax.wrapping_sub(1),
            OpCode::AddEax(v) => eax = eax.wrapping_add(v),
            OpCode::AddAx(v) => {
                let lo = (eax as u16).wrapping_add(v);
                eax = (eax & 0xffff_0000) | lo as u32;
            }
            OpCode::AddAl(v) => {
                let lo = (eax as u8).wrapping_add(v);
                eax = (eax & 0xffff_ff00) | lo as u32;
            }
            OpCode::SubEax(v) => eax = eax.wrapping_sub(v),
            OpCode::SubAx(v) => {
                let lo = (eax as u16).wrapping_sub(v);
                eax = (eax & 0xffff_0000) | lo as u32;
            }
            OpCode::SubAl(v) => {
                let lo = (eax as u8).wrapping_sub(v);
                eax = (eax & 0xffff_ff00) | lo as u32;
            }
        }
    }
    (eax, esp, stack)
}

fn padded(bytes: &[u8]) -> Vec<u8> {
    let mut p = bytes.to_vec();
    while p.len() % 4 != 0 {
        p.push(0x90);
    }
    p
}

fn all_bytes(is: &InstructionSet) -> Vec<u8> {
    let mut out = Vec::new();
    for i in 0..is.count() {
        out.extend_from_slice(is.instruction_at(i).encoded());
    }
    out
}

fn assert_round_trip(bytes: &[u8], budget: usize) {
    let is = incode::encode::encode_payload(&bytes.to_vec(), budget)
        .expect("payload must encode");
    for b in all_bytes(&is) {
        assert!(1 <= b && b <= 0x7f, "unsafe byte 0x{:02X} in output", b);
    }
    let (_eax, esp, stack) = run(&is, 0x1234_5678, 0x0040_0000);
    assert_eq!(esp, 0x0040_0000);
    assert_eq!(stack, padded(bytes));
}

/// Encodability is input-dependent (an unencodable word is a reported
/// error, not wrong output), so a sweep only demands that whatever encodes
/// round-trips exactly; the callers assert separately that known-good
/// payloads must encode.
fn round_trips_if_encodable(bytes: &[u8], budget: usize) -> bool {
    match incode::encode::encode_payload(&bytes.to_vec(), budget) {
        Ok(is) => {
            for b in all_bytes(&is) {
                assert!(1 <= b && b <= 0x7f, "unsafe byte 0x{:02X} in output", b);
            }
            let (_eax, esp, stack) = run(&is, 0x1234_5678, 0x0040_0000);
            assert_eq!(esp, 0x0040_0000);
            assert_eq!(stack, padded(bytes));
            true
        }
        Err(_) => false,
    }
}

#[test]
fn round_trip_known_payload() {
    assert_round_trip(&[0xe9, 0x10, 0xfe, 0xff, 0xff], 0);
}

#[test]
fn round_trip_all_zero_payloads() {
    // The n = 2 form needs one pre-load candidate: its padded word cannot be
    // reached from the baseline without a lane carry.
    for n in 1..=17 {
        assert_round_trip(&vec![0u8; n], 64);
    }
}

#[test]
fn round_trip_all_ff_payloads() {
    for n in 1..=17 {
        assert_round_trip(&vec![0xffu8; n], 0);
    }
}

#[test]
fn round_trip_long_all_ff_payload() {
    assert_round_trip(&vec![0xffu8; 300], 0);
}

#[test]
fn round_trip_safe_alphabet_payload() {
    // Words made of safe bytes go straight out as push immediates.
    let bytes: Vec<u8> = (0..300).map(|i| (i as u32 % 0x7f) as u8 + 1).collect();
    assert_round_trip(&bytes, 0);
}

#[test]
fn round_trip_patterned_payloads() {
    let mut encoded = 0;
    let mut tried = 0;
    for n in 1..=64 {
        let bytes: Vec<u8> = (0..n).map(|i| (i as u32 * 37 + 11) as u8).collect();
        tried += 1;
        if round_trips_if_encodable(&bytes, 64) {
            encoded += 1;
        }
    }
    assert!(encoded * 2 >= tried, "only {} of {} patterned payloads encoded", encoded, tried);
}

#[test]
fn round_trip_repeated_words() {
    // Repeated identical words exercise the push-accumulator shortcut.
    let bytes = [0xdeu8, 0xad, 0xbe, 0xef].repeat(8);
    assert_round_trip(&bytes, 0);
}

#[test]
fn known_payload_trace_and_length() {
    // The expected trace: prime the accumulator, one subtract for the
    // padded high word, one add plus a byte-lane add for the low word, each
    // followed by a push; seventeen bytes in all.
    let bytes = vec![0xe9u8, 0x10, 0xfe, 0xff, 0xff];
    let is = incode::encode::encode_payload(&bytes, 0).unwrap();
    assert_eq!(is.len(), 17);
    assert_eq!(is.count(), 7);
    let ops: Vec<OpCode> = (0..is.count()).map(|i| is.instruction_at(i).opcode()).collect();
    assert_eq!(ops[0], OpCode::Push8(1));
    assert_eq!(ops[1], OpCode::PopEax);
    assert_eq!(ops[2], OpCode::SubEax(0x6f6f_6f02));
    assert_eq!(ops[3], OpCode::PushEax(Some(0x9090_90ff)));
    assert_eq!(ops[4], OpCode::AddEax(0x6f6d_7f7f));
    assert_eq!(ops[5], OpCode::AddAl(0x6b));
    assert_eq!(ops[6], OpCode::PushEax(Some(0xfffe_10e9)));
    let (eax, _esp, stack) = run(&is, 0, 0);
    assert_eq!(eax, 0xfffe_10e9);
    assert_eq!(&stack[0..4], &[0xe9, 0x10, 0xfe, 0xff]);
}

#[test]
fn word_equal_to_accumulator_is_one_push() {
    let mut is = InstructionSet::new();
    let mut eax: u32 = 0x8080_8080;
    is.encode(0x8080_8080, &mut eax, 0).unwrap();
    assert_eq!(is.count(), 1);
    assert_eq!(is.instruction_at(0).opcode(), OpCode::PushEax(Some(0x8080_8080)));
    assert_eq!(eax, 0x8080_8080);
}

#[test]
fn position_matrix_converges_and_repositions() {
    let cases: [(u32, u32); 9] = [
        (0x0019_cf54, 0x0019_d758),
        (0x0019_d758, 0x0019_cf54),
        (0x0040_0000, 0x0040_0000),
        (0x0000_0010, 0x0000_2000),
        (0x0000_2000, 0x0000_0010),
        (0xffff_ff00, 0xffff_fff0),
        (0xffff_fff0, 0xffff_ff00),
        (0x0000_0004, 0xffff_fffc),
        (0xffff_fffc, 0x0000_0004),
    ] ;
    for (esp, eip) in cases {
        let is = generate_position(esp, eip, 0).expect("position must converge");
        for b in all_bytes(&is) {
            assert!(1 <= b && b <= 0x7f);
        }
        let (eax, fesp, stack) = run(&is, 0x1111_1111, esp);
        let expected = eip.wrapping_add(is.len() as u32);
        assert_eq!(fesp, expected, "esp={:08X} eip={:08X}", esp, eip);
        assert_eq!(eax, expected);
        assert!(stack.is_empty());
    }
}

#[test]
fn position_and_payload_lands_payload_past_the_code() {
    // The padded word of this payload needs one pre-load candidate, so a
    // small search budget is given.
    let bytes = vec![0x81u8, 0xc4, 0x00, 0x03, 0x00, 0x00];
    let esp: u32 = 0x0019_cf54;
    let eip: u32 = 0x0019_d758;
    let is = generate_position_and_payload(&bytes, esp, eip, 64).unwrap();
    for b in all_bytes(&is) {
        assert!(1 <= b && b <= 0x7f);
    }
    let (_eax, fesp, stack) = run(&is, 0, esp);
    let pad = padded(&bytes);
    assert_eq!(fesp, eip.wrapping_add(is.len() as u32).wrapping_add(pad.len() as u32));
    assert_eq!(stack, pad);
}

#[test]
fn far_jump_lands_jump_past_the_code() {
    // Sizing a far jump can genuinely oscillate (the displacement moves the
    // encoded length, which moves the displacement); non-convergence is a
    // reported error, never wrong output.  Over a spread of targets at least
    // some must converge, and every convergent result must simulate exactly.
    let esp: u32 = 0x0019_cf54;
    let eip: u32 = 0x0019_d758;
    let mut converged = 0;
    for target in [
        0x0019_d588u32,
        0x0019_c758,
        0x0018_d758,
        0x001a_0000,
        0x0010_0000,
        0x0040_0000,
    ] {
        let is = match generate_far_jump(esp, eip, target, 0) {
            Ok(is) => is,
            Err(_) => continue,
        };
        converged += 1;
        for b in all_bytes(&is) {
            assert!(1 <= b && b <= 0x7f);
        }
        let (_eax, fesp, stack) = run(&is, 0, esp);
        let total = is.len() as u32;
        assert_eq!(fesp, eip.wrapping_add(total).wrapping_add(8));
        assert_eq!(stack.len(), 8);
        assert_eq!(stack[0], 0xe9);
        let disp = u32::from_le_bytes([stack[1], stack[2], stack[3], stack[4]]);
        assert_eq!(disp, target.wrapping_sub(eip.wrapping_add(total).wrapping_add(5)));
        assert_eq!(&stack[5..8], &[0x90, 0x90, 0x90]);
    }
    assert!(converged >= 1, "no far jump target converged");
}

#[test]
fn exhaustive_budget_never_lengthens_the_payload() {
    let bytes = vec![0xe9u8, 0x10, 0xfe, 0xff, 0xff];
    let plain = incode::encode::encode_payload(&bytes, 0).unwrap();
    let brute = incode::encode::encode_payload(&bytes, 2000).unwrap();
    assert!(brute.len() <= plain.len());
    let (_e, esp, stack) = run(&brute, 7, 0x500);
    assert_eq!(esp, 0x500);
    assert_eq!(stack, padded(&bytes));
}
