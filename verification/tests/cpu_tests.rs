use sisprog::Config;
use sisprog::CpuError;
use sisprog::CPU;

/// Wraps raw program words into a loader image: the 6-byte header the
/// loader format reserves, then the bytes that land at address 0.
fn image(program: &[u8]) -> Vec<u8> {
    let mut v = vec![0u8; 6];
    v.extend_from_slice(program);
    v
}

fn run_program(program: &[u8], input: Vec<u8>) -> Result<CPU, CpuError> {
    let loader = image(program);
    let config = Config::new(&loader, input);
    CPU::run(config, 10_000)
}

#[test]
fn store_then_load_halts_with_memory_written() {
    // LV 10; MM 100; LD 100; HM 0
    let cpu = run_program(&[0x30, 10, 0x90, 100, 0x80, 100, 0xC0, 0], vec![]).unwrap();
    assert!(cpu.is_halted());
    assert_eq!(cpu.memory_at(100), 10);
    assert_eq!(cpu.accumulator(), 10);
}

#[test]
fn read_after_eof_yields_zero_and_continues() {
    // LV 5; GD 0; HM 0  with no input at all
    let cpu = run_program(&[0x30, 5, 0xD0, 0, 0xC0, 0], vec![]).unwrap();
    assert!(cpu.is_halted());
    assert_eq!(cpu.accumulator(), 0);
}

#[test]
fn input_bytes_flow_to_output() {
    // GD; PD; GD; PD; HM
    let cpu = run_program(
        &[0xD0, 0, 0xE0, 0, 0xD0, 0, 0xE0, 0, 0xC0, 0],
        vec![42, 7],
    )
    .unwrap();
    assert_eq!(cpu.output_bytes(), &vec![42, 7]);
}

#[test]
fn subroutine_call_and_return_resume_after_call() {
    // 0: SC 200   (stores the return address 2 at 200..202, jumps to 202)
    // 2: HM 0     (resumed here after the return)
    // 202: RS 200
    let mut program = vec![0u8; 204];
    program[0] = 0xA0;
    program[1] = 200;
    program[2] = 0xC0;
    program[3] = 0;
    program[202] = 0xB0;
    program[203] = 200;
    let cpu = run_program(&program, vec![]).unwrap();
    assert!(cpu.is_halted());
    // the stored return address is 2, big-endian across the two cells
    assert_eq!(cpu.memory_at(200), 0);
    assert_eq!(cpu.memory_at(201), 2);
}

#[test]
fn jump_if_zero_taken_and_not_taken() {
    // LV 1; JZ 8; LV 2; HM 0   -> no jump, ends with 2
    let cpu = run_program(&[0x30, 1, 0x10, 8, 0x30, 2, 0xC0, 0], vec![]).unwrap();
    assert_eq!(cpu.accumulator(), 2);
    // LV 0; JZ 6; LV 2; HM 0   -> jump over LV 2, ends with 0
    let cpu = run_program(&[0x30, 0, 0x10, 6, 0x30, 2, 0xC0, 0], vec![]).unwrap();
    assert_eq!(cpu.accumulator(), 0);
}

#[test]
fn jump_if_negative_follows_sign() {
    // LV 255 loads -1; JN 6 jumps over the LV 2
    let cpu = run_program(&[0x30, 255, 0x20, 6, 0x30, 2, 0xC0, 0], vec![]).unwrap();
    assert_eq!(cpu.accumulator(), -1);
}

#[test]
fn arithmetic_against_memory_cell() {
    // memory[100] = 3 via LV/MM, then LV 10; + 100; HM
    let cpu = run_program(
        &[0x30, 3, 0x90, 100, 0x30, 10, 0x40, 100, 0xC0, 0],
        vec![],
    )
    .unwrap();
    assert_eq!(cpu.accumulator(), 13);
    // subtraction: 10 - 3
    let cpu = run_program(
        &[0x30, 3, 0x90, 100, 0x30, 10, 0x50, 100, 0xC0, 0],
        vec![],
    )
    .unwrap();
    assert_eq!(cpu.accumulator(), 7);
    // multiplication: 10 * 3
    let cpu = run_program(
        &[0x30, 3, 0x90, 100, 0x30, 10, 0x60, 100, 0xC0, 0],
        vec![],
    )
    .unwrap();
    assert_eq!(cpu.accumulator(), 30);
    // division: 10 / 3 truncates toward zero
    let cpu = run_program(
        &[0x30, 3, 0x90, 100, 0x30, 10, 0x70, 100, 0xC0, 0],
        vec![],
    )
    .unwrap();
    assert_eq!(cpu.accumulator(), 3);
}

#[test]
fn addition_wraps_at_eight_bits() {
    // memory[100] = 100; LV 100; + 100 -> 200 wraps to -56
    let cpu = run_program(
        &[0x30, 100, 0x90, 100, 0x30, 100, 0x40, 100, 0xC0, 0],
        vec![],
    )
    .unwrap();
    assert_eq!(cpu.accumulator(), -56i8);
}

#[test]
fn division_by_zero_is_fatal() {
    // memory starts zeroed, so / 100 divides by zero
    let err = run_program(&[0x30, 10, 0x70, 100, 0xC0, 0], vec![]).unwrap_err();
    assert!(matches!(err, CpuError::DivisionByZero));
}

#[test]
fn os_call_is_fatal() {
    let err = run_program(&[0xF0, 0], vec![]).unwrap_err();
    assert!(matches!(err, CpuError::OsCallUnimplemented));
}

#[test]
fn fetch_outside_memory_is_fatal() {
    // JP 4095 leaves no room for a full instruction word
    let err = run_program(&[0x0F, 0xFF], vec![]).unwrap_err();
    assert!(matches!(err, CpuError::AddressOutOfRange));
}

#[test]
fn tight_loop_exhausts_the_step_budget() {
    // JP 0 forever
    let loader = image(&[0x00, 0x00]);
    let config = Config::new(&loader, vec![]);
    let err = CPU::run(config, 10).unwrap_err();
    assert!(matches!(err, CpuError::StepLimit));
}

#[test]
fn halt_sets_the_program_counter_to_its_argument() {
    let cpu = run_program(&[0xC0, 77], vec![]).unwrap();
    assert!(cpu.is_halted());
    assert_eq!(cpu.program_counter(), 77);
}

#[test]
fn loader_image_header_is_skipped() {
    let mut loader = vec![9u8; 6];
    loader.extend_from_slice(&[0xC0, 0, 55]);
    let config = Config::new(&loader, vec![]);
    assert_eq!(config.memory.len(), 4096);
    assert_eq!(config.memory[0], 0xC0);
    assert_eq!(config.memory[2], 55);
    assert_eq!(config.memory[3], 0);
}

#[test]
fn assembled_object_runs_on_the_cpu() {
    // assemble a program that loads 10, stores it at 100 and halts, then
    // execute its instruction words directly
    let source: Vec<String> = ["@ /2", "L LV 10", "MM 100", "LD 100", "HM 0", "# L"]
        .iter()
        .map(|s| s.to_string())
        .collect();
    let buf = sisprog::Assembler::run(&source).unwrap();
    // lay the object out by hand: the entry jump word at address 0, then
    // the block's code from byte 6 of the buffer at its address 2
    let mut program = Vec::new();
    program.extend_from_slice(&buf[1..3]);
    program.extend_from_slice(&buf[6..]);
    let cpu = run_program(&program, vec![]).unwrap();
    assert!(cpu.is_halted());
    assert_eq!(cpu.memory_at(100), 10);
}
