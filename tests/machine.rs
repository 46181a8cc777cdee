use synacor_vm::codec::{
    char_is_printable, compose_value, decompose_value, pack_raw_value, unpack_data_to_raw_address,
    validate_value, Data, VmError,
};
use synacor_vm::config::Configuration;
use synacor_vm::shell::{run, SessionError};
use synacor_vm::vm::{Event, Vm, MEMORY_BYTES};

fn rom(words: &[u16]) -> Vec<u8> {
    let mut bytes = Vec::new();
    for w in words {
        bytes.push((w % 256) as u8);
        bytes.push((w / 256) as u8);
    }
    bytes
}

fn machine(words: &[u16]) -> Vm {
    Vm::new_from_rom(&rom(words))
}

#[test]
fn compose_and_decompose_round_trip() {
    for w in [0u16, 1, 255, 256, 32767, 32768, 32775] {
        let (lo, hi) = decompose_value(w);
        assert_eq!(compose_value((lo, hi)), Ok(w));
    }
    assert_eq!(decompose_value(0x1234), (0x34, 0x12));
    assert_eq!(compose_value((0x34, 0x12)), Ok(0x1234));
}

#[test]
fn compose_rejects_large_words() {
    assert_eq!(compose_value((8, 128)), Err(VmError::InvalidWord(32776)));
    assert_eq!(compose_value((255, 255)), Err(VmError::InvalidWord(65535)));
    assert!(validate_value(32775));
    assert!(!validate_value(32776));
}

#[test]
fn classify_words() {
    assert_eq!(pack_raw_value(32767), Ok(Data::LiteralValue(32767)));
    assert_eq!(pack_raw_value(32768), Ok(Data::Register(0)));
    assert_eq!(pack_raw_value(32775), Ok(Data::Register(7)));
    assert_eq!(pack_raw_value(32776), Err(VmError::InvalidWord(32776)));
    assert_eq!(unpack_data_to_raw_address(Data::Register(3)), 32771);
    assert_eq!(unpack_data_to_raw_address(Data::LiteralValue(42)), 42);
    assert!(Data::Register(1).is_register());
    assert!(Data::LiteralValue(1).is_literal());
}

#[test]
fn printable_characters() {
    assert!(char_is_printable(' '));
    assert!(char_is_printable('~'));
    assert!(!char_is_printable('\n'));
    assert!(!char_is_printable('\u{7f}'));
    assert!(!char_is_printable('\u{120}'));
}

#[test]
fn load_then_dump_pads_with_zeros() {
    let bytes = vec![1u8, 2, 3, 4, 5];
    let vm = Vm::new_from_rom(&bytes);
    let dump = vm.dump_memory();
    assert_eq!(dump.len(), MEMORY_BYTES);
    assert_eq!(&dump[..5], &bytes[..]);
    assert!(dump[5..].iter().all(|b| *b == 0));
}

#[test]
fn minimal_program() {
    let mut vm = machine(&[9, 32768, 32769, 4, 19, 32768]);
    let out = vm.run(&vec![], 2).unwrap();
    assert_eq!(vm.registers[0], 4);
    assert_eq!(out.output, vec![4u8]);
}

#[test]
fn halt_program() {
    let mut vm = machine(&[0]);
    let out = vm.run(&vec![], 100).unwrap();
    assert_eq!(out.instructions, 1);
    assert!(vm.halted);
    assert!(out.output.is_empty());
}

#[test]
fn out_literal() {
    let mut vm = machine(&[19, 65, 19, 10, 0]);
    let out = vm.run(&vec![], 100).unwrap();
    assert_eq!(out.output, b"A\n".to_vec());
}

#[test]
fn call_and_ret() {
    let mut vm = machine(&[17, 6, 19, 66, 0, 0, 19, 65, 18]);
    let out = vm.run(&vec![], 100).unwrap();
    assert_eq!(out.output, b"AB".to_vec());
    assert!(vm.halted);
}

#[test]
fn call_then_ret_restores_pc() {
    let mut vm = machine(&[17, 4, 0, 0, 18]);
    assert_eq!(vm.step(None), Ok(Event::Executed));
    assert_eq!(vm.pc, 4);
    assert_eq!(vm.stack, vec![2]);
    assert_eq!(vm.step(None), Ok(Event::Executed));
    assert_eq!(vm.pc, 2);
    assert!(vm.stack.is_empty());
}

#[test]
fn modulo_arithmetic() {
    let mut vm = machine(&[9, 32768, 32758, 15, 0]);
    vm.run(&vec![], 10).unwrap();
    assert_eq!(vm.registers[0], 5);
    let mut vm = machine(&[10, 32768, 32767, 32767, 0]);
    vm.run(&vec![], 10).unwrap();
    assert_eq!(vm.registers[0], 1);
}

#[test]
fn arithmetic_stays_below_modulus() {
    let mut vm = machine(&[14, 32768, 0, 12, 32769, 32767, 32767, 13, 32770, 1, 2, 11, 32771, 17, 5, 0]);
    vm.run(&vec![], 10).unwrap();
    assert_eq!(vm.registers[0], 32767);
    assert_eq!(vm.registers[1], 32767);
    assert_eq!(vm.registers[2], 3);
    assert_eq!(vm.registers[3], 2);
}

#[test]
fn literal_destination_fails_without_change() {
    let mut vm = machine(&[9, 5, 1, 2]);
    let before = vm.dump_memory();
    assert_eq!(vm.step(None), Err(VmError::LiteralDestination(5)));
    assert_eq!(vm.pc, 0);
    assert_eq!(vm.registers, vec![0; 8]);
    assert_eq!(vm.dump_memory(), before);
}

#[test]
fn comparisons() {
    let mut vm = machine(&[4, 32768, 7, 7, 5, 32769, 7, 8, 5, 32770, 9, 8, 0]);
    vm.run(&vec![], 10).unwrap();
    assert_eq!(vm.registers[0], 1);
    assert_eq!(vm.registers[1], 0);
    assert_eq!(vm.registers[2], 1);
}

#[test]
fn jump_to_last_address() {
    let mut vm = machine(&[6, 32767]);
    assert_eq!(vm.step(None), Ok(Event::Executed));
    assert_eq!(vm.pc, 32767);
}

#[test]
fn jump_to_modulus_fails() {
    // register 0 receives 32768 through rmem of a data word
    let mut vm = machine(&[15, 32768, 5, 6, 32768, 32768]);
    assert_eq!(vm.step(None), Ok(Event::Executed));
    assert_eq!(vm.registers[0], 32768);
    assert_eq!(vm.step(None), Err(VmError::AddressOutOfRange(32768)));
    assert_eq!(vm.pc, 3);
}

#[test]
fn conditional_jumps() {
    let mut vm = machine(&[7, 1, 5, 0, 0, 8, 0, 10, 0, 0, 19, 75, 0]);
    let out = vm.run(&vec![], 10).unwrap();
    assert_eq!(out.output, b"K".to_vec());
}

#[test]
fn pushes_then_pops_empty_the_stack() {
    let mut vm = machine(&[2, 10, 2, 20, 3, 32768, 3, 32769, 3, 32770]);
    for _ in 0..4 {
        vm.step(None).unwrap();
    }
    assert_eq!(vm.registers[0], 20);
    assert_eq!(vm.registers[1], 10);
    assert!(vm.stack.is_empty());
    assert_eq!(vm.step(None), Err(VmError::EmptyStack));
}

#[test]
fn ret_on_empty_stack_halts() {
    let mut vm = machine(&[18]);
    assert_eq!(vm.step(None), Ok(Event::Halted));
    assert!(vm.halted);
}

#[test]
fn write_then_read_memory() {
    let mut vm = machine(&[16, 0x7FFE, 1234, 15, 32768, 0x7FFE, 0]);
    vm.run(&vec![], 10).unwrap();
    assert_eq!(vm.registers[0], 1234);
}

#[test]
fn write_beyond_memory_fails() {
    let mut vm = machine(&[15, 32768, 4, 16, 32768, 1, 0]);
    vm.memory[8] = 0;
    vm.memory[9] = 128;
    vm.step(None).unwrap();
    assert_eq!(vm.registers[0], 32768);
    assert_eq!(vm.step(None), Err(VmError::AddressOutOfRange(32768)));
}

#[test]
fn undefined_opcode_and_division_by_zero() {
    let mut vm = machine(&[22]);
    assert_eq!(vm.step(None), Err(VmError::UndefinedOpcode(22)));
    let mut vm = machine(&[11, 32768, 5, 0]);
    assert_eq!(vm.step(None), Err(VmError::DivisionByZero));
}

#[test]
fn input_waits_then_takes_a_character() {
    let mut vm = machine(&[20, 32768, 19, 32768, 0]);
    assert_eq!(vm.step(None), Ok(Event::NeedInput));
    assert_eq!(vm.pc, 0);
    assert_eq!(vm.step(Some(b'x')), Ok(Event::Input(b'x')));
    assert_eq!(vm.registers[0], b'x' as u16);
    assert_eq!(vm.step(None), Ok(Event::Output(b'x')));
}

#[test]
fn run_stops_when_input_runs_out() {
    let mut vm = machine(&[20, 32768, 19, 32768, 6, 0]);
    let out = vm.run(&b"ab".to_vec(), 100).unwrap();
    assert_eq!(out.output, b"ab".to_vec());
    assert_eq!(out.consumed, 2);
    assert!(!vm.halted);
    assert_eq!(vm.pc, 0);
}

#[test]
fn session_runs_replay_lines() {
    let mut config = Configuration::new("echo.bin".to_string(), None);
    config.set_contents(rom(&[20, 32768, 19, 32768, 6, 0]), vec!["hi".to_string()]);
    let out = run(&config, 100).unwrap();
    assert_eq!(out.output, b"hi\n".to_vec());
    let empty = Configuration::default();
    assert_eq!(run(&empty, 10).unwrap_err(), SessionError::EmptyRom);
}
