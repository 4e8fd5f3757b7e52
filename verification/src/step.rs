//! The instruction semantics as mathematics. `step_spec` maps a machine
//! state to the state after one fetch-decode-execute step, or to the fault
//! that the step runs into; the interpreter in `cpu` is proved against it.

use vstd::prelude::*;

verus! {

use crate::state::{
    CpuView, Fault, NUM_KEYS, RAM_SIZE, SCREEN_CELLS, SCREEN_HEIGHT, SCREEN_WIDTH, STACK_SIZE,
    START_ADDR,
};

// ---------------------------------------------------------------------------
// Decoding

/// The 16-bit instruction word formed from two bytes, big-endian.
pub open spec fn combine(hi: u8, lo: u8) -> u16 {
    (hi * 256 + lo) as u16
}

/// Most significant 4-bit field of an instruction word.
pub open spec fn nib1(op: u16) -> u16 {
    op / 0x1000
}

/// Second 4-bit field: the register operand `x`.
pub open spec fn nib2(op: u16) -> u16 {
    (op / 0x100) % 16
}

/// Third 4-bit field: the register operand `y`.
pub open spec fn nib3(op: u16) -> u16 {
    (op / 16) % 16
}

/// Least significant 4-bit field.
pub open spec fn nib4(op: u16) -> u16 {
    op % 16
}

/// The low twelve bits: an address operand.
pub open spec fn low12(op: u16) -> u16 {
    op % 0x1000
}

/// The low byte: an immediate operand.
pub open spec fn low8(op: u16) -> u8 {
    (op % 256) as u8
}

// ---------------------------------------------------------------------------
// Wraparound arithmetic

/// A value reduced to eight bits, the wraparound of the arithmetic family.
pub open spec fn wrap8(x: int) -> u8 {
    (x % 256) as u8
}

/// A value reduced to sixteen bits.
pub open spec fn wrap16(x: int) -> u16 {
    (x % 0x10000) as u16
}

// ---------------------------------------------------------------------------
// Sprite drawing

/// Bit `col` of a sprite row byte, most significant bit leftmost.
pub open spec fn sprite_bit(b: u8, col: int) -> bool {
    (b >> ((7 - col) as u8)) & 1 == 1
}

/// Sprite bit (`row`, `col`) of the sprite at memory address `i` lands on
/// display cell (`px`, `py`) and is set. Coordinates wrap modulo the screen
/// size.
pub open spec fn row_col_hits(
    ram: Seq<u8>,
    i: int,
    x0: int,
    y0: int,
    row: int,
    col: int,
    px: int,
    py: int,
) -> bool {
    &&& px == (x0 + col) % (SCREEN_WIDTH as int)
    &&& py == (y0 + row) % (SCREEN_HEIGHT as int)
    &&& sprite_bit(ram[i + row], col)
}

/// Some sprite bit lexicographically before (`r`, `c`) — a full row before
/// row `r`, or row `r` before column `c` — lands set on cell (`px`, `py`).
pub open spec fn hit_before(
    ram: Seq<u8>,
    i: int,
    x0: int,
    y0: int,
    r: int,
    c: int,
    px: int,
    py: int,
) -> bool {
    exists|row: int, col: int|
        {
            &&& 0 <= row
            &&& 0 <= col < 8
            &&& row < r || (row == r && col < c)
            &&& #[trigger] row_col_hits(ram, i, x0, y0, row, col, px, py)
        }
}

/// Some set bit of the `n`-row sprite at address `i`, drawn at origin
/// (`x0`, `y0`), lands on cell (`px`, `py`).
pub open spec fn sprite_hit(
    ram: Seq<u8>,
    i: int,
    x0: int,
    y0: int,
    n: int,
    px: int,
    py: int,
) -> bool {
    hit_before(ram, i, x0, y0, n, 0, px, py)
}

/// The display after the draw: every cell hit by a set sprite bit is
/// toggled, every other cell keeps its value.
pub open spec fn draw_screen(
    screen: Seq<bool>,
    ram: Seq<u8>,
    i: int,
    x0: int,
    y0: int,
    n: int,
) -> Seq<bool> {
    Seq::new(
        SCREEN_CELLS as nat,
        |idx: int|
            screen[idx] != sprite_hit(
                ram,
                i,
                x0,
                y0,
                n,
                idx % (SCREEN_WIDTH as int),
                idx / (SCREEN_WIDTH as int),
            ),
    )
}

/// The draw toggles some cell that was already lit.
pub open spec fn draw_collision(
    screen: Seq<bool>,
    ram: Seq<u8>,
    i: int,
    x0: int,
    y0: int,
    n: int,
) -> bool {
    exists|px: int, py: int|
        {
            &&& 0 <= px < SCREEN_WIDTH
            &&& 0 <= py < SCREEN_HEIGHT
            &&& #[trigger] sprite_hit(ram, i, x0, y0, n, px, py)
            &&& screen[py * (SCREEN_WIDTH as int) + px]
        }
}

/// Two offsets below the modulus that land on the same wrapped position are
/// the same offset: each sprite bit has its own display cell.
pub proof fn lemma_wrap_distinct(a: int, c1: int, c2: int, w: int)
    requires
        0 < w,
        0 <= a,
        0 <= c1 < w,
        0 <= c2 < w,
        (a + c1) % w == (a + c2) % w,
    ensures
        c1 == c2,
{
    vstd::arithmetic::div_mod::lemma_mod_equivalence(a + c1, a + c2, w);
    assert(((a + c1) - (a + c2)) % w == 0);
    assert((c1 - c2) % w == 0);
    if c1 > c2 {
        vstd::arithmetic::div_mod::lemma_small_mod((c1 - c2) as nat, w as nat);
        assert(false);
    } else if c1 < c2 {
        vstd::arithmetic::div_mod::lemma_mod_add_multiples_vanish(c1 - c2, w);
        vstd::arithmetic::div_mod::lemma_small_mod((c1 - c2 + w) as nat, w as nat);
        assert(false);
    }
}

/// Moving the column bound one to the right adds exactly the one bit at
/// (`r`, `c`) to the set of bits considered.
pub proof fn lemma_hit_step_col(
    ram: Seq<u8>,
    i: int,
    x0: int,
    y0: int,
    r: int,
    c: int,
    px: int,
    py: int,
)
    requires
        0 <= r,
        0 <= c < 8,
    ensures
        hit_before(ram, i, x0, y0, r, c + 1, px, py) <==> (hit_before(ram, i, x0, y0, r, c, px, py)
            || row_col_hits(ram, i, x0, y0, r, c, px, py)),
{
    if hit_before(ram, i, x0, y0, r, c + 1, px, py) {
        let (row, col) = choose|row: int, col: int|
            {
                &&& 0 <= row
                &&& 0 <= col < 8
                &&& row < r || (row == r && col < c + 1)
                &&& #[trigger] row_col_hits(ram, i, x0, y0, row, col, px, py)
            };
        if row < r || (row == r && col < c) {
            assert(hit_before(ram, i, x0, y0, r, c, px, py));
        } else {
            assert(row == r && col == c);
        }
    }
    if hit_before(ram, i, x0, y0, r, c, px, py) {
        let (row, col) = choose|row: int, col: int|
            {
                &&& 0 <= row
                &&& 0 <= col < 8
                &&& row < r || (row == r && col < c)
                &&& #[trigger] row_col_hits(ram, i, x0, y0, row, col, px, py)
            };
        assert(hit_before(ram, i, x0, y0, r, c + 1, px, py));
    }
    if row_col_hits(ram, i, x0, y0, r, c, px, py) {
        assert(hit_before(ram, i, x0, y0, r, c + 1, px, py));
    }
}

/// A row fully scanned is the same set of bits as the next row not yet
/// begun.
pub proof fn lemma_hit_step_row(
    ram: Seq<u8>,
    i: int,
    x0: int,
    y0: int,
    r: int,
    px: int,
    py: int,
)
    requires
        0 <= r,
    ensures
        hit_before(ram, i, x0, y0, r + 1, 0, px, py) <==> hit_before(ram, i, x0, y0, r, 8, px, py),
{
    if hit_before(ram, i, x0, y0, r + 1, 0, px, py) {
        let (row, col) = choose|row: int, col: int|
            {
                &&& 0 <= row
                &&& 0 <= col < 8
                &&& row < r + 1 || (row == r + 1 && col < 0)
                &&& #[trigger] row_col_hits(ram, i, x0, y0, row, col, px, py)
            };
        assert(row < r || (row == r && col < 8));
        assert(hit_before(ram, i, x0, y0, r, 8, px, py));
    }
    if hit_before(ram, i, x0, y0, r, 8, px, py) {
        let (row, col) = choose|row: int, col: int|
            {
                &&& 0 <= row
                &&& 0 <= col < 8
                &&& row < r || (row == r && col < 8)
                &&& #[trigger] row_col_hits(ram, i, x0, y0, row, col, px, py)
            };
        assert(hit_before(ram, i, x0, y0, r + 1, 0, px, py));
    }
}

/// No sprite bit before (`r`, `c`) lands on the very cell that bit
/// (`r`, `c`) lands on: within one sprite of at most sixteen rows, distinct
/// bits fall on distinct cells.
pub proof fn lemma_hit_before_not_target(
    ram: Seq<u8>,
    i: int,
    x0: int,
    y0: int,
    r: int,
    c: int,
)
    requires
        0 <= r < SCREEN_HEIGHT,
        0 <= c < 8,
        0 <= x0,
        0 <= y0,
    ensures
        !hit_before(
            ram,
            i,
            x0,
            y0,
            r,
            c,
            (x0 + c) % (SCREEN_WIDTH as int),
            (y0 + r) % (SCREEN_HEIGHT as int),
        ),
{
    let px = (x0 + c) % (SCREEN_WIDTH as int);
    let py = (y0 + r) % (SCREEN_HEIGHT as int);
    if hit_before(ram, i, x0, y0, r, c, px, py) {
        let (row, col) = choose|row: int, col: int|
            {
                &&& 0 <= row
                &&& 0 <= col < 8
                &&& row < r || (row == r && col < c)
                &&& #[trigger] row_col_hits(ram, i, x0, y0, row, col, px, py)
            };
        lemma_wrap_distinct(x0, col, c, SCREEN_WIDTH as int);
        lemma_wrap_distinct(y0, row, r, SCREEN_HEIGHT as int);
        assert(false);
    }
}

// ---------------------------------------------------------------------------
// Key scanning

/// The lowest pressed key at index `k` or above, if any.
pub open spec fn first_key_from(keys: Seq<bool>, k: int) -> Option<u8>
    decreases NUM_KEYS - k,
{
    if k < 0 || k >= NUM_KEYS {
        None
    } else if keys[k] {
        Some(k as u8)
    } else {
        first_key_from(keys, k + 1)
    }
}

/// The lowest pressed key, if any.
pub open spec fn first_key(keys: Seq<bool>) -> Option<u8> {
    first_key_from(keys, 0)
}

// ---------------------------------------------------------------------------
// Small state transformers

/// The machine with the program counter moved past one more instruction
/// when `cond` holds: the conditional skip.
pub open spec fn skip_if(m: CpuView, cond: bool) -> CpuView {
    if cond {
        CpuView { pc: wrap16(m.pc + 2), ..m }
    } else {
        m
    }
}

/// The machine with register `x` set to `val`.
pub open spec fn set_reg(m: CpuView, x: int, val: u8) -> CpuView {
    CpuView { v: m.v.update(x, val), ..m }
}

/// The machine with register `x` set to `val` and the flag register set to
/// `flag`; when `x` is 15 the flag write wins, as the flag write comes last.
pub open spec fn set_reg_and_flag(m: CpuView, x: int, val: u8, flag: u8) -> CpuView {
    CpuView { v: m.v.update(x, val).update(15, flag), ..m }
}

/// Memory with registers 0 through `x` copied in at addresses `i` through
/// `i + x`.
pub open spec fn regs_to_ram(ram: Seq<u8>, i: int, v: Seq<u8>, x: int) -> Seq<u8> {
    Seq::new(ram.len(), |j: int| if i <= j <= i + x { v[j - i] } else { ram[j] })
}

/// Registers 0 through `x` replaced by memory at addresses `i` through
/// `i + x`, the rest untouched.
pub open spec fn ram_to_regs(v: Seq<u8>, ram: Seq<u8>, i: int, x: int) -> Seq<u8> {
    Seq::new(v.len(), |j: int| if 0 <= j <= x { ram[i + j] } else { v[j] })
}

// ---------------------------------------------------------------------------
// Instruction execution

/// The effect of the already-fetched instruction word `op` on machine `m`,
/// whose program counter has already moved past `op`. `rnd` is the byte the
/// random-number source hands the masked-random instruction; no other
/// instruction reads it.
pub open spec fn apply_op(m: CpuView, op: u16, rnd: u8) -> Result<CpuView, Fault> {
    let d1 = nib1(op);
    let d3 = nib3(op);
    let d4 = nib4(op);
    let x = nib2(op) as int;
    let y = nib3(op) as int;
    let nnn = low12(op);
    let nn = low8(op);
    if op == 0x0000 {
        // 0000: no-op.
        Ok(m)
    } else if op == 0x00E0 {
        // 00E0: clear the display.
        Ok(CpuView { screen: Seq::new(SCREEN_CELLS as nat, |j: int| false), ..m })
    } else if op == 0x00EE {
        // 00EE: return; pop the youngest pending address into the counter.
        if m.stack.len() == 0 {
            Err(Fault::StackUnderflow)
        } else {
            Ok(CpuView { pc: m.stack.last(), stack: m.stack.drop_last(), ..m })
        }
    } else if d1 == 1 {
        // 1nnn: jump.
        Ok(CpuView { pc: nnn, ..m })
    } else if d1 == 2 {
        // 2nnn: call; push the address of the following instruction.
        if m.stack.len() >= STACK_SIZE {
            Err(Fault::StackOverflow)
        } else {
            Ok(CpuView { pc: nnn, stack: m.stack.push(m.pc), ..m })
        }
    } else if d1 == 3 {
        // 3xnn: skip when Vx equals nn.
        Ok(skip_if(m, m.v[x] == nn))
    } else if d1 == 4 {
        // 4xnn: skip when Vx differs from nn.
        Ok(skip_if(m, m.v[x] != nn))
    } else if d1 == 5 && d4 == 0 {
        // 5xy0: skip when Vx equals Vy.
        Ok(skip_if(m, m.v[x] == m.v[y]))
    } else if d1 == 6 {
        // 6xnn: Vx = nn.
        Ok(set_reg(m, x, nn))
    } else if d1 == 7 {
        // 7xnn: Vx = Vx + nn with wraparound; the flag is not written.
        Ok(set_reg(m, x, wrap8(m.v[x] + nn)))
    } else if d1 == 8 && d4 == 0 {
        // 8xy0: Vx = Vy.
        Ok(set_reg(m, x, m.v[y]))
    } else if d1 == 8 && (d4 == 1 || d4 == 2 || d4 == 3) {
        // 8xy1, 8xy2, 8xy3: the whole bitwise family computes Vx | Vy in
        // this interpretation.
        Ok(set_reg(m, x, m.v[x] | m.v[y]))
    } else if d1 == 8 && (d4 == 4 || d4 == 5) {
        // 8xy4 and, in this interpretation, 8xy5 too: Vx = Vx + Vy with
        // wraparound; the flag is 1 exactly when the sum overflowed.
        Ok(
            set_reg_and_flag(
                m,
                x,
                wrap8(m.v[x] + m.v[y]),
                if m.v[x] + m.v[y] > 255 {
                    1u8
                } else {
                    0u8
                },
            ),
        )
    } else if d1 == 8 && d4 == 6 {
        // 8xy6: shift Vx right; the flag takes the dropped bit.
        Ok(set_reg_and_flag(m, x, m.v[x] / 2, m.v[x] % 2))
    } else if d1 == 8 && d4 == 7 {
        // 8xy7: Vx = Vy - Vx with wraparound; the flag is 1 exactly when no
        // borrow occurred.
        Ok(
            set_reg_and_flag(
                m,
                x,
                wrap8(m.v[y] - m.v[x]),
                if m.v[x] <= m.v[y] {
                    1u8
                } else {
                    0u8
                },
            ),
        )
    } else if d1 == 8 && d4 == 0xE {
        // 8xyE: shift Vx left with wraparound; the flag takes the dropped
        // bit.
        Ok(set_reg_and_flag(m, x, wrap8(m.v[x] * 2), m.v[x] / 128))
    } else if d1 == 9 && d4 == 0 {
        // 9xy0: skip when Vx differs from Vy.
        Ok(skip_if(m, m.v[x] != m.v[y]))
    } else if d1 == 0xA {
        // Annn: the index register takes the address operand.
        Ok(CpuView { i: nnn, ..m })
    } else if d1 == 0xB {
        // Bnnn: jump to V0 + nnn.
        Ok(CpuView { pc: (m.v[0] + nnn) as u16, ..m })
    } else if d1 == 0xC {
        // Cxnn: Vx takes a random byte masked by nn.
        Ok(set_reg(m, x, rnd & nn))
    } else if d1 == 0xD {
        // Dxyn: draw the n-row sprite at the index register with origin
        // (Vx, Vy); the flag reports a collision.
        let n = d4 as int;
        if n > 0 && m.i + n > RAM_SIZE {
            Err(Fault::OutOfBounds)
        } else {
            Ok(
                CpuView {
                    screen: draw_screen(m.screen, m.ram, m.i as int, m.v[x] as int, m.v[y] as int, n),
                    v: m.v.update(
                        15,
                        if draw_collision(m.screen, m.ram, m.i as int, m.v[x] as int, m.v[y] as int, n) {
                            1u8
                        } else {
                            0u8
                        },
                    ),
                    ..m
                },
            )
        }
    } else if d1 == 0xE && d3 == 9 && d4 == 0xE {
        // Ex9E: skip when the key numbered by Vx is pressed.
        if m.v[x] >= NUM_KEYS {
            Err(Fault::OutOfBounds)
        } else {
            Ok(skip_if(m, m.keys[m.v[x] as int]))
        }
    } else if d1 == 0xE && d3 == 0xA && d4 == 1 {
        // ExA1: skip when the key numbered by Vx is not pressed.
        if m.v[x] >= NUM_KEYS {
            Err(Fault::OutOfBounds)
        } else {
            Ok(skip_if(m, !m.keys[m.v[x] as int]))
        }
    } else if d1 == 0xF && d3 == 0 && d4 == 7 {
        // Fx07: Vx reads the delay timer.
        Ok(set_reg(m, x, m.dt))
    } else if d1 == 0xF && d3 == 0 && d4 == 0xA {
        // Fx0A: wait for a key; the lowest pressed key goes to Vx, and with
        // none pressed the counter rewinds so the instruction runs again.
        match first_key(m.keys) {
            Option::Some(k) => Ok(set_reg(m, x, k)),
            Option::None => Ok(CpuView { pc: wrap16(m.pc - 2), ..m }),
        }
    } else if d1 == 0xF && d3 == 1 && d4 == 5 {
        // Fx15: the delay timer takes Vx.
        Ok(CpuView { dt: m.v[x], ..m })
    } else if d1 == 0xF && d3 == 1 && d4 == 8 {
        // Fx18: the sound timer takes Vx.
        Ok(CpuView { st: m.v[x], ..m })
    } else if d1 == 0xF && d3 == 1 && d4 == 0xE {
        // Fx1E: the index register grows by Vx with wraparound.
        Ok(CpuView { i: wrap16(m.i + m.v[x]), ..m })
    } else if d1 == 0xF && d3 == 2 && d4 == 9 {
        // Fx29: the index register points at the built-in sprite for the
        // character in Vx, five bytes per character from address zero.
        Ok(CpuView { i: (m.v[x] * 5) as u16, ..m })
    } else if d1 == 0xF && d3 == 3 && d4 == 3 {
        // Fx33: the decimal digits of Vx go to memory at the index
        // register: hundreds, tens, ones.
        if m.i + 3 > RAM_SIZE {
            Err(Fault::OutOfBounds)
        } else {
            Ok(
                CpuView {
                    ram: m.ram
                        .update(m.i as int, (m.v[x] / 100) as u8)
                        .update(m.i + 1, ((m.v[x] / 10) % 10) as u8)
                        .update(m.i + 2, (m.v[x] % 10) as u8),
                    ..m
                },
            )
        }
    } else if d1 == 0xF && d3 == 5 && d4 == 5 {
        // Fx55: registers 0 through x go to memory at the index register.
        if m.i + x + 1 > RAM_SIZE {
            Err(Fault::OutOfBounds)
        } else {
            Ok(CpuView { ram: regs_to_ram(m.ram, m.i as int, m.v, x), ..m })
        }
    } else if d1 == 0xF && d3 == 6 && d4 == 5 {
        // Fx65: registers 0 through x read memory at the index register.
        if m.i + x + 1 > RAM_SIZE {
            Err(Fault::OutOfBounds)
        } else {
            Ok(CpuView { v: ram_to_regs(m.v, m.ram, m.i as int, x), ..m })
        }
    } else {
        // No pattern of the instruction table matches.
        Err(Fault::UnimplementedOpcode)
    }
}

// ---------------------------------------------------------------------------
// One full step, and the timers

/// One fetch-decode-execute step from `pre`: read the two instruction bytes
/// at the program counter, advance the counter past them, and apply the
/// instruction. A counter within two bytes of the end of memory cannot be
/// fetched from and faults.
pub open spec fn step_spec(pre: CpuView, rnd: u8) -> Result<CpuView, Fault> {
    if pre.pc + 1 >= RAM_SIZE {
        Err(Fault::OutOfBounds)
    } else {
        let op = combine(pre.ram[pre.pc as int], pre.ram[pre.pc as int + 1]);
        apply_op(CpuView { pc: (pre.pc + 2) as u16, ..pre }, op, rnd)
    }
}

/// How `tick` may relate the machine before and after: on success the new
/// state is one spec step under some random byte; on a fault the machine is
/// untouched and the spec step faults the same way under every random byte.
pub open spec fn tick_rel(pre: CpuView, post: CpuView, r: Result<(), Fault>) -> bool {
    match r {
        Result::Ok(u) => exists|rnd: u8| #[trigger] step_spec(pre, rnd) == Ok::<CpuView, Fault>(post),
        Result::Err(e) => post == pre && forall|rnd: u8|
            #[trigger] step_spec(pre, rnd) == Err::<CpuView, Fault>(e),
    }
}

/// One timer tick: each timer that is above zero comes down by one,
/// nothing else moves.
pub open spec fn timers_spec(pre: CpuView) -> CpuView {
    CpuView {
        dt: if pre.dt > 0 {
            (pre.dt - 1) as u8
        } else {
            0u8
        },
        st: if pre.st > 0 {
            (pre.st - 1) as u8
        } else {
            0u8
        },
        ..pre
    }
}

/// Memory after a program load: the program bytes from the start address
/// on, everything else untouched.
pub open spec fn loaded_ram(ram: Seq<u8>, data: Seq<u8>) -> Seq<u8> {
    Seq::new(
        ram.len(),
        |j: int|
            if START_ADDR <= j < START_ADDR + data.len() {
                data[j - START_ADDR]
            } else {
                ram[j]
            },
    )
}

} // verus!
