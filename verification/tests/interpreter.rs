use chip8::cpu::CPU;
use chip8::state::Fault;

/// A machine with `program` loaded at the start address.
fn boot(program: &[u8]) -> CPU {
    let mut cpu = CPU::new();
    cpu.load(program).expect("program fits in memory");
    cpu
}

/// Run `n` instruction steps, requiring each to succeed.
fn run(cpu: &mut CPU, n: usize) {
    for _ in 0..n {
        cpu.tick().expect("step succeeds");
    }
}

#[test]
fn initial_state_is_clean() {
    let cpu = CPU::new();
    assert_eq!(cpu.pc(), 0x200);
    assert_eq!(cpu.index_reg(), 0);
    assert_eq!(cpu.delay_timer(), 0);
    assert_eq!(cpu.sound_timer(), 0);
    assert_eq!(cpu.stack_depth(), 0);
    for x in 0..16 {
        assert_eq!(cpu.reg(x), 0);
    }
    let display = cpu.get_display();
    assert_eq!(display.len(), 2048);
    assert!(display.iter().all(|&p| !p));
    // The character sprite table sits in the first eighty bytes.
    assert_eq!(cpu.read_ram(0), 0xF0);
    assert_eq!(cpu.read_ram(4), 0xF0);
    assert_eq!(cpu.read_ram(5), 0x20);
    assert_eq!(cpu.read_ram(79), 0x80);
    for addr in 80..4096 {
        assert_eq!(cpu.read_ram(addr), 0);
    }
}

#[test]
fn reset_restores_the_initial_state() {
    let mut cpu = boot(&[0x60, 0x2A, 0xA1, 0x23]);
    run(&mut cpu, 2);
    assert_eq!(cpu.reg(0), 0x2A);
    assert_eq!(cpu.index_reg(), 0x123);
    cpu.reset();
    assert_eq!(cpu.pc(), 0x200);
    assert_eq!(cpu.reg(0), 0);
    assert_eq!(cpu.index_reg(), 0);
    // The loaded program is gone.
    assert_eq!(cpu.read_ram(0x200), 0);
    assert_eq!(cpu.read_ram(0x203), 0);
    // The sprite table is back in place.
    assert_eq!(cpu.read_ram(0), 0xF0);
}

#[test]
fn nop_advances_only_the_counter() {
    let mut cpu = boot(&[0x00, 0x00]);
    run(&mut cpu, 1);
    assert_eq!(cpu.pc(), 0x202);
    assert_eq!(cpu.stack_depth(), 0);
}

#[test]
fn jump_sets_the_counter() {
    let mut cpu = boot(&[0x12, 0x34]);
    run(&mut cpu, 1);
    assert_eq!(cpu.pc(), 0x234);
}

#[test]
fn call_then_return_comes_back_after_the_call() {
    // 0x200: CALL 0x300; 0x300: RET.
    let mut program = vec![0x23, 0x00];
    program.resize(0x102, 0x00);
    program[0x100] = 0x00;
    program[0x101] = 0xEE;
    let mut cpu = boot(&program);
    run(&mut cpu, 1);
    assert_eq!(cpu.pc(), 0x300);
    assert_eq!(cpu.stack_depth(), 1);
    run(&mut cpu, 1);
    assert_eq!(cpu.pc(), 0x202);
    assert_eq!(cpu.stack_depth(), 0);
}

#[test]
fn skip_if_equal_immediate() {
    let mut cpu = boot(&[0x60, 0x07, 0x30, 0x07, 0x00, 0x00, 0x30, 0x08]);
    run(&mut cpu, 2);
    assert_eq!(cpu.pc(), 0x206); // skip taken over the no-op
    run(&mut cpu, 1);
    assert_eq!(cpu.pc(), 0x208); // skip not taken
}

#[test]
fn skip_if_not_equal_immediate() {
    let mut cpu = boot(&[0x40, 0x01]);
    run(&mut cpu, 1);
    assert_eq!(cpu.pc(), 0x204);
    let mut cpu = boot(&[0x40, 0x00]);
    run(&mut cpu, 1);
    assert_eq!(cpu.pc(), 0x202);
}

#[test]
fn skip_if_registers_equal_and_not_equal() {
    let mut cpu = boot(&[0x60, 0x09, 0x61, 0x09, 0x50, 0x10]);
    run(&mut cpu, 3);
    assert_eq!(cpu.pc(), 0x208);
    let mut cpu = boot(&[0x60, 0x09, 0x61, 0x08, 0x90, 0x10]);
    run(&mut cpu, 3);
    assert_eq!(cpu.pc(), 0x208);
    let mut cpu = boot(&[0x60, 0x09, 0x61, 0x09, 0x90, 0x10]);
    run(&mut cpu, 3);
    assert_eq!(cpu.pc(), 0x206);
}

#[test]
fn set_and_add_immediate_wraps_without_flag() {
    // VF is given a value first to see that the add never touches it.
    let mut cpu = boot(&[0x6F, 0x0A, 0x60, 0xFF, 0x70, 0x01]);
    run(&mut cpu, 3);
    assert_eq!(cpu.reg(0), 0x00);
    assert_eq!(cpu.reg(0xF), 0x0A);
}

#[test]
fn register_copy_and_bitwise_family() {
    let mut cpu = boot(&[0x60, 0x0C, 0x81, 0x00]);
    run(&mut cpu, 2);
    assert_eq!(cpu.reg(1), 0x0C);
    // The whole bitwise family computes OR in this interpretation.
    for k in [0x01u8, 0x02, 0x03] {
        let mut cpu = boot(&[0x60, 0x0C, 0x61, 0x0A, 0x80, 0x10 | k]);
        run(&mut cpu, 3);
        assert_eq!(cpu.reg(0), 0x0E, "8xy{k} computes OR");
        assert_eq!(cpu.reg(1), 0x0A);
    }
}

#[test]
fn add_registers_sets_carry_flag() {
    let mut cpu = boot(&[0x60, 0xFF, 0x61, 0x01, 0x80, 0x14]);
    run(&mut cpu, 3);
    assert_eq!(cpu.reg(0), 0x00);
    assert_eq!(cpu.reg(0xF), 1);
    let mut cpu = boot(&[0x60, 0x02, 0x61, 0x03, 0x80, 0x14]);
    run(&mut cpu, 3);
    assert_eq!(cpu.reg(0), 0x05);
    assert_eq!(cpu.reg(0xF), 0);
}

#[test]
fn arithmetic_five_adds_like_four() {
    // In this interpretation the 8xy5 pattern adds, exactly as 8xy4 does.
    let mut cpu = boot(&[0x60, 0xFF, 0x61, 0x01, 0x80, 0x15]);
    run(&mut cpu, 3);
    assert_eq!(cpu.reg(0), 0x00);
    assert_eq!(cpu.reg(0xF), 1);
    let mut cpu = boot(&[0x60, 0x02, 0x61, 0x03, 0x80, 0x15]);
    run(&mut cpu, 3);
    assert_eq!(cpu.reg(0), 0x05);
    assert_eq!(cpu.reg(0xF), 0);
}

#[test]
fn shift_right_keeps_dropped_bit() {
    let mut cpu = boot(&[0x60, 0x07, 0x80, 0x06]);
    run(&mut cpu, 2);
    assert_eq!(cpu.reg(0), 0x03);
    assert_eq!(cpu.reg(0xF), 1);
    let mut cpu = boot(&[0x60, 0x06, 0x80, 0x06]);
    run(&mut cpu, 2);
    assert_eq!(cpu.reg(0), 0x03);
    assert_eq!(cpu.reg(0xF), 0);
}

#[test]
fn reverse_subtract_sets_no_borrow_flag() {
    let mut cpu = boot(&[0x60, 0x01, 0x61, 0x05, 0x80, 0x17]);
    run(&mut cpu, 3);
    assert_eq!(cpu.reg(0), 0x04);
    assert_eq!(cpu.reg(0xF), 1);
    let mut cpu = boot(&[0x60, 0x05, 0x61, 0x01, 0x80, 0x17]);
    run(&mut cpu, 3);
    assert_eq!(cpu.reg(0), 0xFC);
    assert_eq!(cpu.reg(0xF), 0);
}

#[test]
fn shift_left_keeps_dropped_bit() {
    let mut cpu = boot(&[0x60, 0x81, 0x80, 0x0E]);
    run(&mut cpu, 2);
    assert_eq!(cpu.reg(0), 0x02);
    assert_eq!(cpu.reg(0xF), 1);
    let mut cpu = boot(&[0x60, 0x41, 0x80, 0x0E]);
    run(&mut cpu, 2);
    assert_eq!(cpu.reg(0), 0x82);
    assert_eq!(cpu.reg(0xF), 0);
}

#[test]
fn index_register_load_and_indexed_jump() {
    let mut cpu = boot(&[0xA1, 0x23]);
    run(&mut cpu, 1);
    assert_eq!(cpu.index_reg(), 0x123);
    let mut cpu = boot(&[0x60, 0x10, 0xB3, 0x00]);
    run(&mut cpu, 2);
    assert_eq!(cpu.pc(), 0x310);
}

#[test]
fn random_byte_respects_the_mask() {
    let mut cpu = boot(&[0xC0, 0x0F, 0xC1, 0x00]);
    run(&mut cpu, 2);
    assert_eq!(cpu.reg(0) & 0xF0, 0, "masked bits stay clear");
    assert_eq!(cpu.reg(1), 0, "a zero mask forces zero");
}

#[test]
fn draw_lights_pixels_and_reports_no_collision_on_dark_screen() {
    // Index at the sprite for character 0, drawn at the origin.
    let mut cpu = boot(&[0xA0, 0x00, 0x60, 0x00, 0x61, 0x00, 0xD0, 0x15]);
    run(&mut cpu, 4);
    let display = cpu.get_display();
    // Top row of the 0 glyph is 0xF0: columns 0 through 3 lit.
    for col in 0..4 {
        assert!(display[col], "column {col} of the top row is lit");
    }
    for col in 4..8 {
        assert!(!display[col]);
    }
    // Second row is 0x90: columns 0 and 3 lit.
    assert!(display[64]);
    assert!(!display[64 + 1]);
    assert!(!display[64 + 2]);
    assert!(display[64 + 3]);
    assert_eq!(cpu.reg(0xF), 0);
}

#[test]
fn drawing_twice_restores_the_display_and_reports_collision() {
    let mut cpu = boot(&[0xA0, 0x00, 0xD0, 0x05, 0xD0, 0x05]);
    run(&mut cpu, 2);
    assert!(cpu.get_display().iter().any(|&p| p));
    assert_eq!(cpu.reg(0xF), 0);
    run(&mut cpu, 1);
    assert!(cpu.get_display().iter().all(|&p| !p));
    assert_eq!(cpu.reg(0xF), 1);
}

#[test]
fn sprite_wraps_around_both_edges() {
    // Draw the 0 glyph with origin (62, 30): columns wrap past 63 into 0,
    // rows wrap past 31 into 0.
    let mut cpu = boot(&[0xA0, 0x00, 0x60, 0x3E, 0x61, 0x1E, 0xD0, 0x15]);
    run(&mut cpu, 4);
    let display = cpu.get_display();
    // Top row 0xF0 lands on row 30, columns 62, 63, 0, 1.
    assert!(display[30 * 64 + 62]);
    assert!(display[30 * 64 + 63]);
    assert!(display[30 * 64]);
    assert!(display[30 * 64 + 1]);
    assert!(!display[30 * 64 + 2]);
    // Third row 0x90 lands on row 0, columns 62 and 1.
    assert!(display[62]);
    assert!(!display[63]);
    assert!(!display[0]);
    assert!(display[1]);
}

#[test]
fn clear_screen_turns_every_pixel_off() {
    let mut cpu = boot(&[0xA0, 0x00, 0xD0, 0x05, 0x00, 0xE0]);
    run(&mut cpu, 2);
    assert!(cpu.get_display().iter().any(|&p| p));
    run(&mut cpu, 1);
    assert!(cpu.get_display().iter().all(|&p| !p));
}

#[test]
fn key_skips_follow_the_key_state() {
    let mut cpu = boot(&[0x60, 0x04, 0xE0, 0x9E]);
    cpu.keypress(4, true);
    run(&mut cpu, 2);
    assert_eq!(cpu.pc(), 0x206, "pressed key takes the skip");
    let mut cpu = boot(&[0x60, 0x04, 0xE0, 0x9E]);
    run(&mut cpu, 2);
    assert_eq!(cpu.pc(), 0x204, "released key does not");
    let mut cpu = boot(&[0x60, 0x04, 0xE0, 0xA1]);
    run(&mut cpu, 2);
    assert_eq!(cpu.pc(), 0x206, "released key takes the inverted skip");
    let mut cpu = boot(&[0x60, 0x04, 0xE0, 0xA1]);
    cpu.keypress(4, true);
    run(&mut cpu, 2);
    assert_eq!(cpu.pc(), 0x204, "pressed key does not");
}

#[test]
fn key_wait_spins_until_a_key_arrives() {
    let mut cpu = boot(&[0xF0, 0x0A]);
    for _ in 0..5 {
        cpu.tick().expect("the wait itself is no fault");
        assert_eq!(cpu.pc(), 0x200, "the counter stays on the wait");
        assert_eq!(cpu.reg(0), 0);
    }
    cpu.keypress(7, true);
    cpu.keypress(3, true);
    run(&mut cpu, 1);
    assert_eq!(cpu.reg(0), 3, "the lowest pressed key is taken");
    assert_eq!(cpu.pc(), 0x202);
}

#[test]
fn timers_load_read_and_count_down() {
    let mut cpu = boot(&[0x60, 0x03, 0xF0, 0x15, 0xF0, 0x18, 0xF1, 0x07]);
    run(&mut cpu, 3);
    assert_eq!(cpu.delay_timer(), 3);
    assert_eq!(cpu.sound_timer(), 3);
    run(&mut cpu, 1);
    assert_eq!(cpu.reg(1), 3, "the delay timer is read back");
    assert!(!cpu.tick_timers());
    assert_eq!(cpu.delay_timer(), 2);
    assert!(!cpu.tick_timers());
    assert!(cpu.tick_timers(), "the sound timer hits zero: the beep edge");
    assert_eq!(cpu.delay_timer(), 0);
    assert_eq!(cpu.sound_timer(), 0);
    assert!(!cpu.tick_timers(), "a timer at zero stays at zero");
    assert_eq!(cpu.delay_timer(), 0);
}

#[test]
fn index_register_grows_by_register_with_wraparound() {
    let mut cpu = boot(&[0xAF, 0xFF, 0x60, 0x10, 0xF0, 0x1E]);
    run(&mut cpu, 3);
    assert_eq!(cpu.index_reg(), 0x100F);
    let mut cpu = boot(&[0x60, 0x05, 0xF0, 0x1E]);
    run(&mut cpu, 2);
    assert_eq!(cpu.index_reg(), 5);
}

#[test]
fn font_address_is_five_bytes_per_character() {
    let mut cpu = boot(&[0x60, 0x0A, 0xF0, 0x29]);
    run(&mut cpu, 2);
    assert_eq!(cpu.index_reg(), 50);
    assert_eq!(cpu.read_ram(50), 0xF0, "first row of the A glyph");
}

#[test]
fn bcd_writes_the_three_decimal_digits() {
    let mut cpu = boot(&[0x60, 0x9D, 0xA3, 0x00, 0xF0, 0x33]);
    run(&mut cpu, 3);
    assert_eq!(cpu.read_ram(0x300), 1);
    assert_eq!(cpu.read_ram(0x301), 5);
    assert_eq!(cpu.read_ram(0x302), 7);
}

#[test]
fn bulk_store_and_load_round_trip() {
    let mut cpu = boot(&[
        0x60, 0x11, 0x61, 0x22, 0x62, 0x33, 0xA3, 0x00, 0xF2, 0x55, 0x63, 0x00, 0xF3, 0x65,
    ]);
    run(&mut cpu, 5);
    assert_eq!(cpu.read_ram(0x300), 0x11);
    assert_eq!(cpu.read_ram(0x301), 0x22);
    assert_eq!(cpu.read_ram(0x302), 0x33);
    assert_eq!(cpu.read_ram(0x303), 0, "memory past register x is untouched");
    run(&mut cpu, 2);
    assert_eq!(cpu.reg(0), 0x11);
    assert_eq!(cpu.reg(1), 0x22);
    assert_eq!(cpu.reg(2), 0x33);
    assert_eq!(cpu.reg(3), 0, "register 3 reads the zero past the block");
}

#[test]
fn return_with_empty_stack_is_a_fault_and_leaves_state() {
    let mut cpu = boot(&[0x00, 0xEE]);
    assert_eq!(cpu.tick(), Err(Fault::StackUnderflow));
    assert_eq!(cpu.pc(), 0x200, "the machine is left untouched");
    assert_eq!(cpu.stack_depth(), 0);
}

#[test]
fn seventeenth_nested_call_overflows_the_stack() {
    // 0x200: CALL 0x200, forever.
    let mut cpu = boot(&[0x22, 0x00]);
    for depth in 1..=16 {
        cpu.tick().expect("sixteen calls fit");
        assert_eq!(cpu.stack_depth(), depth);
    }
    assert_eq!(cpu.tick(), Err(Fault::StackOverflow));
    assert_eq!(cpu.stack_depth(), 16);
    assert_eq!(cpu.pc(), 0x200);
}

#[test]
fn unmatched_patterns_are_faults() {
    for program in [[0x50u8, 0x11], [0x80, 0x18], [0xE0, 0x00], [0xF0, 0x99]] {
        let mut cpu = boot(&program);
        assert_eq!(cpu.tick(), Err(Fault::UnimplementedOpcode));
        assert_eq!(cpu.pc(), 0x200, "the machine is left untouched");
    }
}

#[test]
fn draw_past_the_end_of_memory_is_a_fault() {
    let mut cpu = boot(&[0xAF, 0xFF, 0xD0, 0x02]);
    run(&mut cpu, 1);
    assert_eq!(cpu.tick(), Err(Fault::OutOfBounds));
    assert_eq!(cpu.pc(), 0x202);
}

#[test]
fn key_index_past_fifteen_is_a_fault() {
    let mut cpu = boot(&[0x60, 0x10, 0xE0, 0x9E]);
    run(&mut cpu, 1);
    assert_eq!(cpu.tick(), Err(Fault::OutOfBounds));
}

#[test]
fn bulk_copies_past_the_end_of_memory_are_faults() {
    let mut cpu = boot(&[0xAF, 0xFE, 0xF5, 0x55]);
    run(&mut cpu, 1);
    assert_eq!(cpu.tick(), Err(Fault::OutOfBounds));
    let mut cpu = boot(&[0xAF, 0xFE, 0xF5, 0x65]);
    run(&mut cpu, 1);
    assert_eq!(cpu.tick(), Err(Fault::OutOfBounds));
}

#[test]
fn bcd_past_the_end_of_memory_is_a_fault() {
    let mut cpu = boot(&[0xAF, 0xFE, 0xF0, 0x33]);
    run(&mut cpu, 1);
    assert_eq!(cpu.tick(), Err(Fault::OutOfBounds));
}

#[test]
fn fetch_past_the_end_of_memory_is_a_fault() {
    let mut cpu = boot(&[0x1F, 0xFF]);
    run(&mut cpu, 1);
    assert_eq!(cpu.pc(), 0xFFF);
    assert_eq!(cpu.tick(), Err(Fault::OutOfBounds));
    assert_eq!(cpu.pc(), 0xFFF);
}

#[test]
fn oversized_program_is_refused_whole() {
    let mut cpu = CPU::new();
    let too_long = vec![0xAB; 4096 - 0x200 + 1];
    assert_eq!(cpu.load(&too_long), Err(Fault::OutOfBounds));
    assert_eq!(cpu.read_ram(0x200), 0, "nothing was copied");
    let just_fits = vec![0xCD; 4096 - 0x200];
    assert_eq!(cpu.load(&just_fits), Ok(()));
    assert_eq!(cpu.read_ram(0x200), 0xCD);
    assert_eq!(cpu.read_ram(4095), 0xCD);
}
