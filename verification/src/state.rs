//! The mathematical model of the machine: its dimensions, the ghost view of
//! the whole state, the built-in character sprites, and the initial state
//! that a fresh or reset machine is in.

use vstd::prelude::*;

verus! {

/// Width of the display in pixels.
pub const SCREEN_WIDTH: usize = 64;

/// Height of the display in pixels.
pub const SCREEN_HEIGHT: usize = 32;

/// Number of display cells.
pub const SCREEN_CELLS: usize = 2048;

/// Size of the address space in bytes.
pub const RAM_SIZE: usize = 4096;

/// Number of general-purpose registers.
pub const NUM_REGS: usize = 16;

/// Depth of the call stack.
pub const STACK_SIZE: usize = 16;

/// Number of virtual keys.
pub const NUM_KEYS: usize = 16;

/// Address at which loaded programs start, and the initial program counter.
pub const START_ADDR: u16 = 0x200;

/// Size of the built-in character sprite table in bytes.
pub const FONTSET_SIZE: usize = 80;

/// A fatal interpreter condition. The machine state is left exactly as it
/// was before the failing step, so the host can decide whether to stop,
/// reset, or report.
#[derive(Clone, Copy, Debug, PartialEq, Eq, Structural)]
pub enum Fault {
    /// A call was made with sixteen return addresses already pending.
    StackOverflow,
    /// A return was executed with no pending return address.
    StackUnderflow,
    /// The fetched word matches no instruction pattern.
    UnimplementedOpcode,
    /// An instruction fetch, a memory-touching instruction, or a key lookup
    /// reached past the end of its array.
    OutOfBounds,
}

/// The machine state as mathematics: every field of the interpreter as a
/// plain value or a sequence. The call stack holds only the pending return
/// addresses, youngest last.
#[verifier::ext_equal]
pub ghost struct CpuView {
    /// Address of the next instruction.
    pub pc: u16,
    /// The 4096-byte address space.
    pub ram: Seq<u8>,
    /// The 64x32 display, row-major; `true` is a lit pixel.
    pub screen: Seq<bool>,
    /// The sixteen general-purpose registers; index 15 doubles as the flag.
    pub v: Seq<u8>,
    /// The index register: the memory pointer of draw, BCD and bulk copies.
    pub i: u16,
    /// Pending return addresses, youngest last; at most sixteen.
    pub stack: Seq<u16>,
    /// Press state of the sixteen virtual keys.
    pub keys: Seq<bool>,
    /// The delay timer.
    pub dt: u8,
    /// The sound timer.
    pub st: u8,
}

impl CpuView {
    /// `self` agrees with `other` on every field but the display.
    pub open spec fn agrees_except_screen(self, other: CpuView) -> bool {
        &&& self.pc == other.pc
        &&& self.ram == other.ram
        &&& self.v == other.v
        &&& self.i == other.i
        &&& self.stack == other.stack
        &&& self.keys == other.keys
        &&& self.dt == other.dt
        &&& self.st == other.st
    }

    /// Every sequence has its fixed size and the stack is within depth.
    pub open spec fn wf(self) -> bool {
        &&& self.ram.len() == RAM_SIZE
        &&& self.screen.len() == SCREEN_CELLS
        &&& self.v.len() == NUM_REGS
        &&& self.stack.len() <= STACK_SIZE
        &&& self.keys.len() == NUM_KEYS
    }
}

/// The built-in sprites for the characters 0 through F: five bytes per
/// character, one byte per row, most significant bit leftmost.
pub open spec fn font_seq() -> Seq<u8> {
    seq![
        0xF0u8, 0x90, 0x90, 0x90, 0xF0, // 0
        0x20, 0x60, 0x20, 0x20, 0x70, // 1
        0xF0, 0x10, 0xF0, 0x80, 0xF0, // 2
        0xF0, 0x10, 0xF0, 0x10, 0xF0, // 3
        0x90, 0x90, 0xF0, 0x10, 0x10, // 4
        0xF0, 0x80, 0xF0, 0x10, 0xF0, // 5
        0xF0, 0x80, 0xF0, 0x90, 0xF0, // 6
        0xF0, 0x10, 0x20, 0x40, 0x40, // 7
        0xF0, 0x90, 0xF0, 0x90, 0xF0, // 8
        0xF0, 0x90, 0xF0, 0x10, 0xF0, // 9
        0xF0, 0x90, 0xF0, 0x90, 0x90, // A
        0xE0, 0x90, 0xE0, 0x90, 0xE0, // B
        0xF0, 0x80, 0x80, 0x80, 0xF0, // C
        0xE0, 0x90, 0x90, 0x90, 0xE0, // D
        0xF0, 0x80, 0xF0, 0x80, 0xF0, // E
        0xF0, 0x80, 0xF0, 0x80, 0x80, // F
    ]
}

/// Memory at power-on: the character sprites in the first eighty bytes,
/// zero everywhere else.
pub open spec fn initial_ram() -> Seq<u8> {
    Seq::new(RAM_SIZE as nat, |j: int| if j < FONTSET_SIZE { font_seq()[j] } else { 0u8 })
}

/// The whole machine at power-on: the program counter at the load address,
/// the sprite table in low memory, and everything else zero, off and empty.
pub open spec fn initial_view() -> CpuView {
    CpuView {
        pc: START_ADDR,
        ram: initial_ram(),
        screen: Seq::new(SCREEN_CELLS as nat, |j: int| false),
        v: Seq::new(NUM_REGS as nat, |j: int| 0u8),
        i: 0,
        stack: Seq::empty(),
        keys: Seq::new(NUM_KEYS as nat, |j: int| false),
        dt: 0,
        st: 0,
    }
}

} // verus!
