//! The interpreter itself: the machine state as data, and one executable
//! function per host-facing operation, each proved against the spec
//! functions of `state` and `step`.

use vstd::prelude::*;

verus! {

use crate::state::{
    CpuView, Fault, FONTSET_SIZE, NUM_KEYS, NUM_REGS, RAM_SIZE, SCREEN_CELLS, SCREEN_HEIGHT,
    SCREEN_WIDTH, STACK_SIZE, START_ADDR, font_seq, initial_ram, initial_view,
};
use crate::step::{
    apply_op, combine, draw_collision, draw_screen, first_key, first_key_from, hit_before,
    lemma_hit_before_not_target, lemma_hit_step_col, lemma_hit_step_row, loaded_ram, ram_to_regs,
    regs_to_ram, row_col_hits, sprite_hit, step_spec, tick_rel, timers_spec,
};

/// The emulated machine. All state lives here; the host drives it through
/// `load`, `tick`, `tick_timers`, `keypress` and the read accessors.
pub struct CPU {
    pc: u16,
    ram: Vec<u8>,
    screen: Vec<bool>,
    v_reg: Vec<u8>,
    i_reg: u16,
    stack: Vec<u16>,
    keys: Vec<bool>,
    dt: u8,
    st: u8,
}

impl View for CPU {
    type V = CpuView;

    closed spec fn view(&self) -> CpuView {
        CpuView {
            pc: self.pc,
            ram: self.ram@,
            screen: self.screen@,
            v: self.v_reg@,
            i: self.i_reg,
            stack: self.stack@,
            keys: self.keys@,
            dt: self.dt,
            st: self.st,
        }
    }
}

impl CPU {
    /// The concrete machine is well formed exactly when its view is.
    pub open spec fn wf(&self) -> bool {
        self@.wf()
    }
}

/// Relies on `rand::random`: one byte drawn from the thread-local
/// generator. Nothing is assumed about which byte comes back; every caller
/// is verified for every possible value.
#[verifier::external_body]
fn random_byte() -> u8 {
    rand::random()
}

/// A vector of `n` copies of `false`.
fn falses(n: usize) -> (v: Vec<bool>)
    ensures
        v@ == Seq::new(n as nat, |j: int| false),
{
    let mut v: Vec<bool> = Vec::new();
    let mut k: usize = 0;
    while k < n
        invariant
            k <= n,
            v@.len() == k,
            forall|j: int| 0 <= j < k ==> v@[j] == false,
        decreases n - k,
    {
        v.push(false);
        k = k + 1;
    }
    proof {
        assert(v@ =~= Seq::new(n as nat, |j: int| false));
    }
    v
}

/// A vector of `n` zero bytes.
fn zero_bytes(n: usize) -> (v: Vec<u8>)
    ensures
        v@ == Seq::new(n as nat, |j: int| 0u8),
{
    let mut v: Vec<u8> = Vec::new();
    let mut k: usize = 0;
    while k < n
        invariant
            k <= n,
            v@.len() == k,
            forall|j: int| 0 <= j < k ==> v@[j] == 0u8,
        decreases n - k,
    {
        v.push(0);
        k = k + 1;
    }
    proof {
        assert(v@ =~= Seq::new(n as nat, |j: int| 0u8));
    }
    v
}

/// The eighty bytes of the built-in character sprites, in order.
#[verifier::rlimit(100)]
fn font_vec() -> (v: Vec<u8>)
    ensures
        v@ == font_seq(),
{
    let mut v: Vec<u8> = Vec::new();
    v.push(0xF0);
    v.push(0x90);
    v.push(0x90);
    v.push(0x90);
    v.push(0xF0);
    v.push(0x20);
    v.push(0x60);
    v.push(0x20);
    v.push(0x20);
    v.push(0x70);
    v.push(0xF0);
    v.push(0x10);
    v.push(0xF0);
    v.push(0x80);
    v.push(0xF0);
    v.push(0xF0);
    v.push(0x10);
    v.push(0xF0);
    v.push(0x10);
    v.push(0xF0);
    v.push(0x90);
    v.push(0x90);
    v.push(0xF0);
    v.push(0x10);
    v.push(0x10);
    v.push(0xF0);
    v.push(0x80);
    v.push(0xF0);
    v.push(0x10);
    v.push(0xF0);
    v.push(0xF0);
    v.push(0x80);
    v.push(0xF0);
    v.push(0x90);
    v.push(0xF0);
    v.push(0xF0);
    v.push(0x10);
    v.push(0x20);
    v.push(0x40);
    v.push(0x40);
    v.push(0xF0);
    v.push(0x90);
    v.push(0xF0);
    v.push(0x90);
    v.push(0xF0);
    v.push(0xF0);
    v.push(0x90);
    v.push(0xF0);
    v.push(0x10);
    v.push(0xF0);
    v.push(0xF0);
    v.push(0x90);
    v.push(0xF0);
    v.push(0x90);
    v.push(0x90);
    v.push(0xE0);
    v.push(0x90);
    v.push(0xE0);
    v.push(0x90);
    v.push(0xE0);
    v.push(0xF0);
    v.push(0x80);
    v.push(0x80);
    v.push(0x80);
    v.push(0xF0);
    v.push(0xE0);
    v.push(0x90);
    v.push(0x90);
    v.push(0x90);
    v.push(0xE0);
    v.push(0xF0);
    v.push(0x80);
    v.push(0xF0);
    v.push(0x80);
    v.push(0xF0);
    v.push(0xF0);
    v.push(0x80);
    v.push(0xF0);
    v.push(0x80);
    v.push(0x80);
    proof {
        assert(v@ =~= font_seq());
    }
    v
}

/// Memory at power-on: the eighty font bytes followed by zeroes.
#[verifier::rlimit(50)]
fn initial_ram_vec() -> (v: Vec<u8>)
    ensures
        v@ == initial_ram(),
{
    let mut v: Vec<u8> = font_vec();
    let mut k: usize = FONTSET_SIZE;
    while k < RAM_SIZE
        invariant
            FONTSET_SIZE <= k <= RAM_SIZE,
            v@.len() == k,
            forall|j: int| 0 <= j < FONTSET_SIZE ==> v@[j] == font_seq()[j],
            forall|j: int| FONTSET_SIZE <= j < k ==> v@[j] == 0u8,
        decreases RAM_SIZE - k,
    {
        v.push(0);
        k = k + 1;
    }
    proof {
        assert(v@ =~= initial_ram());
    }
    v
}

impl CPU {
    /// A fresh machine in the power-on state: program counter at the load
    /// address, the character sprites in low memory, everything else zero,
    /// off and empty.
    pub fn new() -> (cpu: CPU)
        ensures
            cpu@ == initial_view(),
            cpu.wf(),
    {
        let cpu = CPU {
            pc: START_ADDR,
            ram: initial_ram_vec(),
            screen: falses(SCREEN_CELLS),
            v_reg: zero_bytes(NUM_REGS),
            i_reg: 0,
            stack: Vec::new(),
            keys: falses(NUM_KEYS),
            dt: 0,
            st: 0,
        };
        proof {
            assert(cpu@ =~~= initial_view());
        }
        cpu
    }

    /// Back to the power-on state in place; any loaded program is gone.
    pub fn reset(&mut self)
        ensures
            final(self)@ == initial_view(),
            final(self).wf(),
    {
        *self = CPU::new();
    }

    /// Copy a program into memory at the start address, where the next
    /// `tick` after a fresh start or reset will fetch it. A program too
    /// long for memory is refused whole, with the machine untouched.
    pub fn load(&mut self, data: &[u8]) -> (r: Result<(), Fault>)
        requires
            old(self).wf(),
        ensures
            final(self).wf(),
            match r {
                Result::Ok(u) => data@.len() + START_ADDR <= RAM_SIZE && final(self)@
                    == (CpuView { ram: loaded_ram(old(self)@.ram, data@), ..old(self)@ }),
                Result::Err(e) => data@.len() + START_ADDR > RAM_SIZE && e == Fault::OutOfBounds
                    && final(self)@ == old(self)@,
            },
    {
        if data.len() > RAM_SIZE - (START_ADDR as usize) {
            return Err(Fault::OutOfBounds);
        }
        let mut k: usize = 0;
        while k < data.len()
            invariant
                old(self).wf(),
                k <= data@.len(),
                data@.len() + START_ADDR <= RAM_SIZE,
                self@.pc == old(self)@.pc,
                self@.screen == old(self)@.screen,
                self@.v == old(self)@.v,
                self@.i == old(self)@.i,
                self@.stack == old(self)@.stack,
                self@.keys == old(self)@.keys,
                self@.dt == old(self)@.dt,
                self@.st == old(self)@.st,
                self@.ram.len() == RAM_SIZE,
                forall|j: int| 0 <= j < RAM_SIZE && !(START_ADDR <= j < START_ADDR + k)
                    ==> self@.ram[j] == old(self)@.ram[j],
                forall|j: int| START_ADDR <= j < START_ADDR + k
                    ==> self@.ram[j] == data@[j - START_ADDR],
            decreases data@.len() - k,
        {
            let b = data[k];
            self.ram.set((START_ADDR as usize) + k, b);
            k = k + 1;
        }
        proof {
            assert(self@.ram =~= loaded_ram(old(self)@.ram, data@));
            assert(self@ =~~= (CpuView { ram: loaded_ram(old(self)@.ram, data@), ..old(self)@ }));
        }
        Ok(())
    }

    /// Record one key going down or up. Keys are the one part of the state
    /// the host writes directly between steps.
    pub fn keypress(&mut self, idx: usize, pressed: bool)
        requires
            old(self).wf(),
            idx < NUM_KEYS,
        ensures
            final(self).wf(),
            final(self)@ == (CpuView { keys: old(self)@.keys.update(idx as int, pressed), ..old(self)@ }),
    {
        self.keys.set(idx, pressed);
        proof {
            assert(self@ =~~= (CpuView {
                keys: old(self)@.keys.update(idx as int, pressed),
                ..old(self)@
            }));
        }
    }

    /// The framebuffer, 2048 cells row-major, valid until the next step or
    /// reset.
    pub fn get_display(&self) -> (d: &[bool])
        ensures
            d@ == self@.screen,
    {
        self.screen.as_slice()
    }

    /// Count both timers down by one where they are above zero. The result
    /// is the beep edge: it is `true` exactly when the sound timer hits
    /// zero on this tick, the instant for the host to sound its tone.
    pub fn tick_timers(&mut self) -> (beep: bool)
        requires
            old(self).wf(),
        ensures
            final(self).wf(),
            final(self)@ == timers_spec(old(self)@),
            beep == (old(self)@.st == 1),
    {
        if self.dt > 0 {
            self.dt = self.dt - 1;
        }
        let beep = self.st == 1;
        if self.st > 0 {
            self.st = self.st - 1;
        }
        proof {
            assert(self@ =~~= timers_spec(old(self)@));
        }
        beep
    }

    /// Park one return address, youngest last.
    fn push(&mut self, val: u16)
        requires
            old(self).wf(),
            old(self)@.stack.len() < STACK_SIZE,
        ensures
            final(self).wf(),
            final(self)@ == (CpuView { stack: old(self)@.stack.push(val), ..old(self)@ }),
    {
        self.stack.push(val);
        proof {
            assert(self@ =~~= (CpuView { stack: old(self)@.stack.push(val), ..old(self)@ }));
        }
    }

    /// Take back the youngest pending return address.
    fn pop(&mut self) -> (val: u16)
        requires
            old(self).wf(),
            old(self)@.stack.len() > 0,
        ensures
            final(self).wf(),
            val == old(self)@.stack.last(),
            final(self)@ == (CpuView { stack: old(self)@.stack.drop_last(), ..old(self)@ }),
    {
        let val = match self.stack.pop() {
            Option::Some(v) => v,
            Option::None => 0,
        };
        proof {
            assert(self@ =~~= (CpuView { stack: old(self)@.stack.drop_last(), ..old(self)@ }));
        }
        val
    }

    /// Read the two instruction bytes at the program counter, big-endian,
    /// and move the counter past them.
    fn fetch(&mut self) -> (op: u16)
        requires
            old(self).wf(),
            old(self)@.pc + 1 < RAM_SIZE,
        ensures
            final(self).wf(),
            op == combine(
                old(self)@.ram[old(self)@.pc as int],
                old(self)@.ram[old(self)@.pc as int + 1],
            ),
            final(self)@ == (CpuView { pc: (old(self)@.pc + 2) as u16, ..old(self)@ }),
    {
        let hi = self.ram[self.pc as usize] as u16;
        let lo = self.ram[self.pc as usize + 1] as u16;
        self.pc = self.pc + 2;
        proof {
            assert(self@ =~~= (CpuView { pc: (old(self)@.pc + 2) as u16, ..old(self)@ }));
        }
        hi * 256 + lo
    }

    /// Draw the `n`-row sprite at the index register with origin
    /// (`x0`, `y0`): every set sprite bit toggles its display cell, with
    /// coordinates wrapping modulo the screen size. The result reports
    /// whether some lit cell was toggled off.
    fn op_draw(&mut self, x0: u8, y0: u8, n: u8) -> (collision: bool)
        requires
            old(self).wf(),
            n <= 15,
            n > 0 ==> old(self)@.i + n <= RAM_SIZE,
        ensures
            final(self).wf(),
            final(self)@.agrees_except_screen(old(self)@),
            final(self)@.screen == draw_screen(
                old(self)@.screen,
                old(self)@.ram,
                old(self)@.i as int,
                x0 as int,
                y0 as int,
                n as int,
            ),
            collision == draw_collision(
                old(self)@.screen,
                old(self)@.ram,
                old(self)@.i as int,
                x0 as int,
                y0 as int,
                n as int,
            ),
    {
        let ghost g_ram = self@.ram;
        let ghost g_scr = self@.screen;
        let ghost gi = self@.i as int;
        let ghost gx = x0 as int;
        let ghost gy = y0 as int;
        let mut flipped = false;
        let mut row: u8 = 0;
        while row < n
            invariant
                self.wf(),
                self@.agrees_except_screen(old(self)@),
                g_ram == old(self)@.ram,
                g_scr == old(self)@.screen,
                gi == old(self)@.i as int,
                gx == x0 as int,
                gy == y0 as int,
                n <= 15,
                n > 0 ==> gi + n <= RAM_SIZE,
                row <= n,
                forall|px: int, py: int|
                    0 <= px < SCREEN_WIDTH && 0 <= py < SCREEN_HEIGHT ==> self@.screen[py * (
                    SCREEN_WIDTH as int) + px] == (g_scr[py * (SCREEN_WIDTH as int) + px]
                        != #[trigger] hit_before(g_ram, gi, gx, gy, row as int, 0, px, py)),
                flipped == exists|px: int, py: int|
                    {
                        &&& 0 <= px < SCREEN_WIDTH
                        &&& 0 <= py < SCREEN_HEIGHT
                        &&& #[trigger] hit_before(g_ram, gi, gx, gy, row as int, 0, px, py)
                        &&& g_scr[py * (SCREEN_WIDTH as int) + px]
                    },
            decreases n - row,
        {
            let pixels = self.ram[self.i_reg as usize + row as usize];
            let mut col: u8 = 0;
            while col < 8
                invariant
                    self.wf(),
                    self@.agrees_except_screen(old(self)@),
                    g_ram == old(self)@.ram,
                    g_scr == old(self)@.screen,
                    gi == old(self)@.i as int,
                    gx == x0 as int,
                    gy == y0 as int,
                    n <= 15,
                    row < n,
                    gi + n <= RAM_SIZE,
                    col <= 8,
                    pixels == g_ram[gi + row as int],
                    forall|px: int, py: int|
                        0 <= px < SCREEN_WIDTH && 0 <= py < SCREEN_HEIGHT ==> self@.screen[py * (
                        SCREEN_WIDTH as int) + px] == (g_scr[py * (SCREEN_WIDTH as int) + px]
                            != #[trigger] hit_before(g_ram, gi, gx, gy, row as int, col as int, px, py)),
                    flipped == exists|px: int, py: int|
                        {
                            &&& 0 <= px < SCREEN_WIDTH
                            &&& 0 <= py < SCREEN_HEIGHT
                            &&& #[trigger] hit_before(g_ram, gi, gx, gy, row as int, col as int, px, py)
                            &&& g_scr[py * (SCREEN_WIDTH as int) + px]
                        },
                decreases 8 - col,
            {
                if (pixels >> (7 - col)) & 1 == 1 {
                    let px = ((x0 as u16 + col as u16) % (SCREEN_WIDTH as u16)) as usize;
                    let py = ((y0 as u16 + row as u16) % (SCREEN_HEIGHT as u16)) as usize;
                    let idx = py * SCREEN_WIDTH + px;
                    proof {
                        lemma_hit_before_not_target(g_ram, gi, gx, gy, row as int, col as int);
                        assert(row_col_hits(g_ram, gi, gx, gy, row as int, col as int, px as int, py as int));
                    }
                    let cur = self.screen[idx];
                    flipped = flipped || cur;
                    self.screen.set(idx, !cur);
                    proof {
                        assert forall|qx: int, qy: int|
                            0 <= qx < SCREEN_WIDTH && 0 <= qy < SCREEN_HEIGHT implies self@.screen[qy
                            * (SCREEN_WIDTH as int) + qx] == (g_scr[qy * (SCREEN_WIDTH as int) + qx]
                            != #[trigger] hit_before(g_ram, gi, gx, gy, row as int, col as int + 1, qx, qy)) by {
                            lemma_hit_step_col(g_ram, gi, gx, gy, row as int, col as int, qx, qy);
                        };
                        assert(flipped == exists|qx: int, qy: int|
                            {
                                &&& 0 <= qx < SCREEN_WIDTH
                                &&& 0 <= qy < SCREEN_HEIGHT
                                &&& #[trigger] hit_before(g_ram, gi, gx, gy, row as int, col as int + 1, qx, qy)
                                &&& g_scr[qy * (SCREEN_WIDTH as int) + qx]
                            }) by {
                            lemma_hit_step_col(g_ram, gi, gx, gy, row as int, col as int, px as int, py as int);
                            if flipped {
                                if g_scr[py as int * (SCREEN_WIDTH as int) + px as int] {
                                    assert(hit_before(g_ram, gi, gx, gy, row as int, col as int + 1, px as int, py as int));
                                } else {
                                    let (qx, qy) = choose|qx: int, qy: int|
                                        {
                                            &&& 0 <= qx < SCREEN_WIDTH
                                            &&& 0 <= qy < SCREEN_HEIGHT
                                            &&& #[trigger] hit_before(g_ram, gi, gx, gy, row as int, col as int, qx, qy)
                                            &&& g_scr[qy * (SCREEN_WIDTH as int) + qx]
                                        };
                                    lemma_hit_step_col(g_ram, gi, gx, gy, row as int, col as int, qx, qy);
                                    assert(hit_before(g_ram, gi, gx, gy, row as int, col as int + 1, qx, qy));
                                }
                            } else {
                                if exists|qx: int, qy: int|
                                    {
                                        &&& 0 <= qx < SCREEN_WIDTH
                                        &&& 0 <= qy < SCREEN_HEIGHT
                                        &&& #[trigger] hit_before(g_ram, gi, gx, gy, row as int, col as int + 1, qx, qy)
                                        &&& g_scr[qy * (SCREEN_WIDTH as int) + qx]
                                    } {
                                    let (qx, qy) = choose|qx: int, qy: int|
                                        {
                                            &&& 0 <= qx < SCREEN_WIDTH
                                            &&& 0 <= qy < SCREEN_HEIGHT
                                            &&& #[trigger] hit_before(g_ram, gi, gx, gy, row as int, col as int + 1, qx, qy)
                                            &&& g_scr[qy * (SCREEN_WIDTH as int) + qx]
                                        };
                                    lemma_hit_step_col(g_ram, gi, gx, gy, row as int, col as int, qx, qy);
                                    assert(false);
                                }
                            }
                        };
                    }
                } else {
                    proof {
                        assert forall|qx: int, qy: int|
                            0 <= qx < SCREEN_WIDTH && 0 <= qy < SCREEN_HEIGHT implies self@.screen[qy
                            * (SCREEN_WIDTH as int) + qx] == (g_scr[qy * (SCREEN_WIDTH as int) + qx]
                            != #[trigger] hit_before(g_ram, gi, gx, gy, row as int, col as int + 1, qx, qy)) by {
                            lemma_hit_step_col(g_ram, gi, gx, gy, row as int, col as int, qx, qy);
                        };
                        assert(flipped == exists|qx: int, qy: int|
                            {
                                &&& 0 <= qx < SCREEN_WIDTH
                                &&& 0 <= qy < SCREEN_HEIGHT
                                &&& #[trigger] hit_before(g_ram, gi, gx, gy, row as int, col as int + 1, qx, qy)
                                &&& g_scr[qy * (SCREEN_WIDTH as int) + qx]
                            }) by {
                            if flipped {
                                let (qx, qy) = choose|qx: int, qy: int|
                                    {
                                        &&& 0 <= qx < SCREEN_WIDTH
                                        &&& 0 <= qy < SCREEN_HEIGHT
                                        &&& #[trigger] hit_before(g_ram, gi, gx, gy, row as int, col as int, qx, qy)
                                        &&& g_scr[qy * (SCREEN_WIDTH as int) + qx]
                                    };
                                lemma_hit_step_col(g_ram, gi, gx, gy, row as int, col as int, qx, qy);
                                assert(hit_before(g_ram, gi, gx, gy, row as int, col as int + 1, qx, qy));
                            } else {
                                if exists|qx: int, qy: int|
                                    {
                                        &&& 0 <= qx < SCREEN_WIDTH
                                        &&& 0 <= qy < SCREEN_HEIGHT
                                        &&& #[trigger] hit_before(g_ram, gi, gx, gy, row as int, col as int + 1, qx, qy)
                                        &&& g_scr[qy * (SCREEN_WIDTH as int) + qx]
                                    } {
                                    let (qx, qy) = choose|qx: int, qy: int|
                                        {
                                            &&& 0 <= qx < SCREEN_WIDTH
                                            &&& 0 <= qy < SCREEN_HEIGHT
                                            &&& #[trigger] hit_before(g_ram, gi, gx, gy, row as int, col as int + 1, qx, qy)
                                            &&& g_scr[qy * (SCREEN_WIDTH as int) + qx]
                                        };
                                    lemma_hit_step_col(g_ram, gi, gx, gy, row as int, col as int, qx, qy);
                                    assert(false);
                                }
                            }
                        };
                    }
                }
                col = col + 1;
            }
            proof {
                assert forall|qx: int, qy: int|
                    0 <= qx < SCREEN_WIDTH && 0 <= qy < SCREEN_HEIGHT implies self@.screen[qy * (
                    SCREEN_WIDTH as int) + qx] == (g_scr[qy * (SCREEN_WIDTH as int) + qx]
                    != #[trigger] hit_before(g_ram, gi, gx, gy, row as int + 1, 0, qx, qy)) by {
                    lemma_hit_step_row(g_ram, gi, gx, gy, row as int, qx, qy);
                };
                assert(flipped == exists|qx: int, qy: int|
                    {
                        &&& 0 <= qx < SCREEN_WIDTH
                        &&& 0 <= qy < SCREEN_HEIGHT
                        &&& #[trigger] hit_before(g_ram, gi, gx, gy, row as int + 1, 0, qx, qy)
                        &&& g_scr[qy * (SCREEN_WIDTH as int) + qx]
                    }) by {
                    if flipped {
                        let (qx, qy) = choose|qx: int, qy: int|
                            {
                                &&& 0 <= qx < SCREEN_WIDTH
                                &&& 0 <= qy < SCREEN_HEIGHT
                                &&& #[trigger] hit_before(g_ram, gi, gx, gy, row as int, 8, qx, qy)
                                &&& g_scr[qy * (SCREEN_WIDTH as int) + qx]
                            };
                        lemma_hit_step_row(g_ram, gi, gx, gy, row as int, qx, qy);
                        assert(hit_before(g_ram, gi, gx, gy, row as int + 1, 0, qx, qy));
                    } else {
                        if exists|qx: int, qy: int|
                            {
                                &&& 0 <= qx < SCREEN_WIDTH
                                &&& 0 <= qy < SCREEN_HEIGHT
                                &&& #[trigger] hit_before(g_ram, gi, gx, gy, row as int + 1, 0, qx, qy)
                                &&& g_scr[qy * (SCREEN_WIDTH as int) + qx]
                            } {
                            let (qx, qy) = choose|qx: int, qy: int|
                                {
                                    &&& 0 <= qx < SCREEN_WIDTH
                                    &&& 0 <= qy < SCREEN_HEIGHT
                                    &&& #[trigger] hit_before(g_ram, gi, gx, gy, row as int + 1, 0, qx, qy)
                                    &&& g_scr[qy * (SCREEN_WIDTH as int) + qx]
                                };
                            lemma_hit_step_row(g_ram, gi, gx, gy, row as int, qx, qy);
                            assert(false);
                        }
                    }
                };
            }
            row = row + 1;
        }
        proof {
            assert forall|idx: int| 0 <= idx < SCREEN_CELLS implies self@.screen[idx] == (g_scr[idx]
                != #[trigger] sprite_hit(
                g_ram,
                gi,
                gx,
                gy,
                n as int,
                idx % (SCREEN_WIDTH as int),
                idx / (SCREEN_WIDTH as int),
            )) by {
                vstd::arithmetic::div_mod::lemma_fundamental_div_mod(idx, SCREEN_WIDTH as int);
                let px = idx % (SCREEN_WIDTH as int);
                let py = idx / (SCREEN_WIDTH as int);
                assert(0 <= px < SCREEN_WIDTH);
                vstd::arithmetic::div_mod::lemma_multiply_divide_lt(idx, SCREEN_WIDTH as int, SCREEN_HEIGHT as int);
                assert(py < SCREEN_HEIGHT);
                assert(py >= 0);
                assert(py * (SCREEN_WIDTH as int) + px == idx);
            };
            assert(self@.screen =~= draw_screen(g_scr, g_ram, gi, gx, gy, n as int));
            if flipped {
                let (qx, qy) = choose|qx: int, qy: int|
                    {
                        &&& 0 <= qx < SCREEN_WIDTH
                        &&& 0 <= qy < SCREEN_HEIGHT
                        &&& #[trigger] hit_before(g_ram, gi, gx, gy, n as int, 0, qx, qy)
                        &&& g_scr[qy * (SCREEN_WIDTH as int) + qx]
                    };
                assert(sprite_hit(g_ram, gi, gx, gy, n as int, qx, qy));
                assert(draw_collision(g_scr, g_ram, gi, gx, gy, n as int));
            } else {
                if draw_collision(g_scr, g_ram, gi, gx, gy, n as int) {
                    let (qx, qy) = choose|qx: int, qy: int|
                        {
                            &&& 0 <= qx < SCREEN_WIDTH
                            &&& 0 <= qy < SCREEN_HEIGHT
                            &&& #[trigger] sprite_hit(g_ram, gi, gx, gy, n as int, qx, qy)
                            &&& g_scr[qy * (SCREEN_WIDTH as int) + qx]
                        };
                    assert(hit_before(g_ram, gi, gx, gy, n as int, 0, qx, qy));
                    assert(false);
                }
            }
        }
        flipped
    }

    /// The lowest pressed key, scanning upward from key zero.
    fn find_first_key(&self) -> (r: Option<u8>)
        requires
            self.wf(),
        ensures
            r == first_key(self@.keys),
    {
        let mut kidx: usize = 0;
        while kidx < NUM_KEYS
            invariant
                self.wf(),
                kidx <= NUM_KEYS,
                first_key(self@.keys) == first_key_from(self@.keys, kidx as int),
            decreases NUM_KEYS - kidx,
        {
            if self.keys[kidx] {
                proof {
                    assert(first_key_from(self@.keys, kidx as int) == Option::Some(kidx as u8));
                }
                return Some(kidx as u8);
            }
            kidx = kidx + 1;
        }
        proof {
            assert(first_key_from(self@.keys, NUM_KEYS as int) == Option::None::<u8>);
        }
        None
    }

    /// Copy registers 0 through `x` into memory at the index register.
    fn op_store_regs(&mut self, x: usize)
        requires
            old(self).wf(),
            x < NUM_REGS,
            old(self)@.i + x + 1 <= RAM_SIZE,
        ensures
            final(self).wf(),
            final(self)@ == (CpuView {
                ram: regs_to_ram(old(self)@.ram, old(self)@.i as int, old(self)@.v, x as int),
                ..old(self)@
            }),
    {
        let i0 = self.i_reg as usize;
        let mut idx: usize = 0;
        while idx <= x
            invariant
                self.wf(),
                idx <= x + 1,
                x < NUM_REGS,
                i0 == old(self)@.i,
                i0 + x + 1 <= RAM_SIZE,
                self@.pc == old(self)@.pc,
                self@.screen == old(self)@.screen,
                self@.v == old(self)@.v,
                self@.i == old(self)@.i,
                self@.stack == old(self)@.stack,
                self@.keys == old(self)@.keys,
                self@.dt == old(self)@.dt,
                self@.st == old(self)@.st,
                self@.ram.len() == RAM_SIZE,
                forall|j: int| 0 <= j < RAM_SIZE && !(i0 <= j < i0 + idx) ==> self@.ram[j]
                    == old(self)@.ram[j],
                forall|j: int| i0 <= j < i0 + idx ==> self@.ram[j] == old(self)@.v[j - i0],
            decreases x + 1 - idx,
        {
            let b = self.v_reg[idx];
            self.ram.set(i0 + idx, b);
            idx = idx + 1;
        }
        proof {
            assert(self@.ram =~= regs_to_ram(old(self)@.ram, old(self)@.i as int, old(self)@.v, x as int));
            assert(self@ =~~= (CpuView {
                ram: regs_to_ram(old(self)@.ram, old(self)@.i as int, old(self)@.v, x as int),
                ..old(self)@
            }));
        }
    }

    /// Fill registers 0 through `x` from memory at the index register.
    fn op_load_regs(&mut self, x: usize)
        requires
            old(self).wf(),
            x < NUM_REGS,
            old(self)@.i + x + 1 <= RAM_SIZE,
        ensures
            final(self).wf(),
            final(self)@ == (CpuView {
                v: ram_to_regs(old(self)@.v, old(self)@.ram, old(self)@.i as int, x as int),
                ..old(self)@
            }),
    {
        let i0 = self.i_reg as usize;
        let mut idx: usize = 0;
        while idx <= x
            invariant
                self.wf(),
                idx <= x + 1,
                x < NUM_REGS,
                i0 == old(self)@.i,
                i0 + x + 1 <= RAM_SIZE,
                self@.pc == old(self)@.pc,
                self@.screen == old(self)@.screen,
                self@.ram == old(self)@.ram,
                self@.i == old(self)@.i,
                self@.stack == old(self)@.stack,
                self@.keys == old(self)@.keys,
                self@.dt == old(self)@.dt,
                self@.st == old(self)@.st,
                self@.v.len() == NUM_REGS,
                forall|j: int| 0 <= j < NUM_REGS && !(j < idx) ==> self@.v[j] == old(self)@.v[j],
                forall|j: int| 0 <= j < idx ==> self@.v[j] == old(self)@.ram[i0 + j],
            decreases x + 1 - idx,
        {
            let b = self.ram[i0 + idx];
            self.v_reg.set(idx, b);
            idx = idx + 1;
        }
        proof {
            assert(self@.v =~= ram_to_regs(old(self)@.v, old(self)@.ram, old(self)@.i as int, x as int));
            assert(self@ =~~= (CpuView {
                v: ram_to_regs(old(self)@.v, old(self)@.ram, old(self)@.i as int, x as int),
                ..old(self)@
            }));
        }
    }

    /// Decode and execute the already-fetched instruction word `op`. On a
    /// fault the machine is left exactly as it was handed in; on success
    /// the new state is what `apply_op` gives for some random byte.
    #[verifier::rlimit(100)]
    fn execute(&mut self, op: u16) -> (r: Result<(), Fault>)
        requires
            old(self).wf(),
            2 <= old(self)@.pc <= RAM_SIZE,
        ensures
            final(self).wf(),
            match r {
                Result::Ok(u) => exists|rnd: u8|
                    #[trigger] apply_op(old(self)@, op, rnd) == Ok::<CpuView, Fault>(final(self)@),
                Result::Err(e) => final(self)@ == old(self)@ && forall|rnd: u8|
                    #[trigger] apply_op(old(self)@, op, rnd) == Err::<CpuView, Fault>(e),
            },
    {
        let d1 = op / 0x1000;
        let d3 = (op / 16) % 16;
        let d4 = op % 16;
        let nnn = op % 0x1000;
        let nn = (op % 256) as u8;
        let x = ((op / 0x100) % 16) as usize;
        let y = ((op / 16) % 16) as usize;
        if op == 0x0000 {
            // 0000: no-op.
            proof {
                assert(apply_op(old(self)@, op, 0u8) == Ok::<CpuView, Fault>(self@));
            }
            Ok(())
        } else if op == 0x00E0 {
            // 00E0: clear the display.
            self.screen = falses(SCREEN_CELLS);
            proof {
                assert(self@ =~~= (CpuView {
                    screen: Seq::new(SCREEN_CELLS as nat, |j: int| false),
                    ..old(self)@
                }));
                assert(apply_op(old(self)@, op, 0u8) == Ok::<CpuView, Fault>(self@));
            }
            Ok(())
        } else if op == 0x00EE {
            // 00EE: return from a call.
            if self.stack.len() == 0 {
                proof {
                    assert(forall|rnd: u8|
                        #[trigger] apply_op(old(self)@, op, rnd) == Err::<CpuView, Fault>(
                            Fault::StackUnderflow,
                        ));
                }
                return Err(Fault::StackUnderflow);
            }
            let addr = self.pop();
            self.pc = addr;
            proof {
                assert(self@ =~~= (CpuView {
                    pc: old(self)@.stack.last(),
                    stack: old(self)@.stack.drop_last(),
                    ..old(self)@
                }));
                assert(apply_op(old(self)@, op, 0u8) == Ok::<CpuView, Fault>(self@));
            }
            Ok(())
        } else if d1 == 1 {
            // 1nnn: jump.
            self.pc = nnn;
            proof {
                assert(self@ =~~= (CpuView { pc: nnn, ..old(self)@ }));
                assert(apply_op(old(self)@, op, 0u8) == Ok::<CpuView, Fault>(self@));
            }
            Ok(())
        } else if d1 == 2 {
            // 2nnn: call.
            if self.stack.len() >= STACK_SIZE {
                proof {
                    assert(forall|rnd: u8|
                        #[trigger] apply_op(old(self)@, op, rnd) == Err::<CpuView, Fault>(
                            Fault::StackOverflow,
                        ));
                }
                return Err(Fault::StackOverflow);
            }
            let ret = self.pc;
            self.push(ret);
            self.pc = nnn;
            proof {
                assert(self@ =~~= (CpuView {
                    pc: nnn,
                    stack: old(self)@.stack.push(old(self)@.pc),
                    ..old(self)@
                }));
                assert(apply_op(old(self)@, op, 0u8) == Ok::<CpuView, Fault>(self@));
            }
            Ok(())
        } else if d1 == 3 {
            // 3xnn: skip when Vx equals nn.
            if self.v_reg[x] == nn {
                self.pc = self.pc + 2;
            }
            proof {
                assert(apply_op(old(self)@, op, 0u8) == Ok::<CpuView, Fault>(self@));
            }
            Ok(())
        } else if d1 == 4 {
            // 4xnn: skip when Vx differs from nn.
            if self.v_reg[x] != nn {
                self.pc = self.pc + 2;
            }
            proof {
                assert(apply_op(old(self)@, op, 0u8) == Ok::<CpuView, Fault>(self@));
            }
            Ok(())
        } else if d1 == 5 && d4 == 0 {
            // 5xy0: skip when Vx equals Vy.
            if self.v_reg[x] == self.v_reg[y] {
                self.pc = self.pc + 2;
            }
            proof {
                assert(apply_op(old(self)@, op, 0u8) == Ok::<CpuView, Fault>(self@));
            }
            Ok(())
        } else if d1 == 6 {
            // 6xnn: Vx = nn.
            self.v_reg.set(x, nn);
            proof {
                assert(self@ =~~= (CpuView { v: old(self)@.v.update(x as int, nn), ..old(self)@ }));
                assert(apply_op(old(self)@, op, 0u8) == Ok::<CpuView, Fault>(self@));
            }
            Ok(())
        } else if d1 == 7 {
            // 7xnn: Vx = Vx + nn with wraparound, no flag.
            let sum = (self.v_reg[x] as u16 + nn as u16) % 256;
            self.v_reg.set(x, sum as u8);
            proof {
                assert(self@ =~~= (CpuView {
                    v: old(self)@.v.update(x as int, crate::step::wrap8(old(self)@.v[x as int] + nn)),
                    ..old(self)@
                }));
                assert(apply_op(old(self)@, op, 0u8) == Ok::<CpuView, Fault>(self@));
            }
            Ok(())
        } else if d1 == 8 && d4 == 0 {
            // 8xy0: Vx = Vy.
            let vy = self.v_reg[y];
            self.v_reg.set(x, vy);
            proof {
                assert(self@ =~~= (CpuView { v: old(self)@.v.update(x as int, vy), ..old(self)@ }));
                assert(apply_op(old(self)@, op, 0u8) == Ok::<CpuView, Fault>(self@));
            }
            Ok(())
        } else if d1 == 8 && (d4 == 1 || d4 == 2 || d4 == 3) {
            // 8xy1, 8xy2, 8xy3: the bitwise family, all Vx | Vy here.
            let vor = self.v_reg[x] | self.v_reg[y];
            self.v_reg.set(x, vor);
            proof {
                assert(self@ =~~= (CpuView { v: old(self)@.v.update(x as int, vor), ..old(self)@ }));
                assert(apply_op(old(self)@, op, 0u8) == Ok::<CpuView, Fault>(self@));
            }
            Ok(())
        } else if d1 == 8 && (d4 == 4 || d4 == 5) {
            // 8xy4, and 8xy5 alike: Vx = Vx + Vy with wraparound, flag on
            // overflow.
            let sum16 = self.v_reg[x] as u16 + self.v_reg[y] as u16;
            let sum = (sum16 % 256) as u8;
            let carry: u8 = if sum16 > 255 {
                1
            } else {
                0
            };
            self.v_reg.set(x, sum);
            self.v_reg.set(15, carry);
            proof {
                assert(self@ =~~= (CpuView {
                    v: old(self)@.v.update(x as int, sum).update(15, carry),
                    ..old(self)@
                }));
                assert(apply_op(old(self)@, op, 0u8) == Ok::<CpuView, Fault>(self@));
            }
            Ok(())
        } else if d1 == 8 && d4 == 6 {
            // 8xy6: shift right, flag takes the dropped bit.
            let vx = self.v_reg[x];
            self.v_reg.set(x, vx / 2);
            self.v_reg.set(15, vx % 2);
            proof {
                assert(self@ =~~= (CpuView {
                    v: old(self)@.v.update(x as int, (vx / 2) as u8).update(15, (vx % 2) as u8),
                    ..old(self)@
                }));
                assert(apply_op(old(self)@, op, 0u8) == Ok::<CpuView, Fault>(self@));
            }
            Ok(())
        } else if d1 == 8 && d4 == 7 {
            // 8xy7: Vx = Vy - Vx with wraparound, flag set when no borrow.
            let vx = self.v_reg[x];
            let vy = self.v_reg[y];
            let diff = ((vy as u16 + 256 - vx as u16) % 256) as u8;
            let noborrow: u8 = if vx <= vy {
                1
            } else {
                0
            };
            self.v_reg.set(x, diff);
            self.v_reg.set(15, noborrow);
            proof {
                vstd::arithmetic::div_mod::lemma_mod_add_multiples_vanish(vy - vx, 256);
                assert(self@ =~~= (CpuView {
                    v: old(self)@.v.update(x as int, crate::step::wrap8(vy - vx)).update(15, noborrow),
                    ..old(self)@
                }));
                assert(apply_op(old(self)@, op, 0u8) == Ok::<CpuView, Fault>(self@));
            }
            Ok(())
        } else if d1 == 8 && d4 == 0xE {
            // 8xyE: shift left with wraparound, flag takes the dropped bit.
            let vx = self.v_reg[x];
            let doubled = ((vx as u16 * 2) % 256) as u8;
            self.v_reg.set(x, doubled);
            self.v_reg.set(15, vx / 128);
            proof {
                assert(self@ =~~= (CpuView {
                    v: old(self)@.v.update(x as int, crate::step::wrap8(vx * 2)).update(
                        15,
                        (vx / 128) as u8,
                    ),
                    ..old(self)@
                }));
                assert(apply_op(old(self)@, op, 0u8) == Ok::<CpuView, Fault>(self@));
            }
            Ok(())
        } else if d1 == 9 && d4 == 0 {
            // 9xy0: skip when Vx differs from Vy.
            if self.v_reg[x] != self.v_reg[y] {
                self.pc = self.pc + 2;
            }
            proof {
                assert(apply_op(old(self)@, op, 0u8) == Ok::<CpuView, Fault>(self@));
            }
            Ok(())
        } else if d1 == 0xA {
            // Annn: the index register takes the address operand.
            self.i_reg = nnn;
            proof {
                assert(self@ =~~= (CpuView { i: nnn, ..old(self)@ }));
                assert(apply_op(old(self)@, op, 0u8) == Ok::<CpuView, Fault>(self@));
            }
            Ok(())
        } else if d1 == 0xB {
            // Bnnn: jump to V0 + nnn.
            self.pc = self.v_reg[0] as u16 + nnn;
            proof {
                assert(self@ =~~= (CpuView {
                    pc: (old(self)@.v[0] + nnn) as u16,
                    ..old(self)@
                }));
                assert(apply_op(old(self)@, op, 0u8) == Ok::<CpuView, Fault>(self@));
            }
            Ok(())
        } else if d1 == 0xC {
            // Cxnn: Vx takes a random byte masked by nn.
            let rnd = random_byte();
            let masked = rnd & nn;
            self.v_reg.set(x, masked);
            proof {
                assert(self@ =~~= (CpuView {
                    v: old(self)@.v.update(x as int, masked),
                    ..old(self)@
                }));
                assert(apply_op(old(self)@, op, rnd) == Ok::<CpuView, Fault>(self@));
            }
            Ok(())
        } else if d1 == 0xD {
            // Dxyn: draw a sprite.
            let n = d4 as u8;
            if n > 0 && self.i_reg as usize + n as usize > RAM_SIZE {
                proof {
                    assert(forall|rnd: u8|
                        #[trigger] apply_op(old(self)@, op, rnd) == Err::<CpuView, Fault>(
                            Fault::OutOfBounds,
                        ));
                }
                return Err(Fault::OutOfBounds);
            }
            let vx = self.v_reg[x];
            let vy = self.v_reg[y];
            let collision = self.op_draw(vx, vy, n);
            let flag: u8 = if collision {
                1
            } else {
                0
            };
            self.v_reg.set(15, flag);
            proof {
                assert(self@ =~~= (CpuView {
                    screen: draw_screen(
                        old(self)@.screen,
                        old(self)@.ram,
                        old(self)@.i as int,
                        old(self)@.v[x as int] as int,
                        old(self)@.v[y as int] as int,
                        n as int,
                    ),
                    v: old(self)@.v.update(15, flag),
                    ..old(self)@
                }));
                assert(apply_op(old(self)@, op, 0u8) == Ok::<CpuView, Fault>(self@));
            }
            Ok(())
        } else if d1 == 0xE && d3 == 9 && d4 == 0xE {
            // Ex9E: skip when the key numbered by Vx is pressed.
            let vx = self.v_reg[x];
            if vx >= 16 {
                proof {
                    assert(forall|rnd: u8|
                        #[trigger] apply_op(old(self)@, op, rnd) == Err::<CpuView, Fault>(
                            Fault::OutOfBounds,
                        ));
                }
                return Err(Fault::OutOfBounds);
            }
            if self.keys[vx as usize] {
                self.pc = self.pc + 2;
            }
            proof {
                assert(apply_op(old(self)@, op, 0u8) == Ok::<CpuView, Fault>(self@));
            }
            Ok(())
        } else if d1 == 0xE && d3 == 0xA && d4 == 1 {
            // ExA1: skip when the key numbered by Vx is not pressed.
            let vx = self.v_reg[x];
            if vx >= 16 {
                proof {
                    assert(forall|rnd: u8|
                        #[trigger] apply_op(old(self)@, op, rnd) == Err::<CpuView, Fault>(
                            Fault::OutOfBounds,
                        ));
                }
                return Err(Fault::OutOfBounds);
            }
            if !self.keys[vx as usize] {
                self.pc = self.pc + 2;
            }
            proof {
                assert(apply_op(old(self)@, op, 0u8) == Ok::<CpuView, Fault>(self@));
            }
            Ok(())
        } else if d1 == 0xF && d3 == 0 && d4 == 7 {
            // Fx07: Vx reads the delay timer.
            let dt = self.dt;
            self.v_reg.set(x, dt);
            proof {
                assert(self@ =~~= (CpuView { v: old(self)@.v.update(x as int, dt), ..old(self)@ }));
                assert(apply_op(old(self)@, op, 0u8) == Ok::<CpuView, Fault>(self@));
            }
            Ok(())
        } else if d1 == 0xF && d3 == 0 && d4 == 0xA {
            // Fx0A: wait for a key.
            match self.find_first_key() {
                Option::Some(k) => {
                    self.v_reg.set(x, k);
                    proof {
                        assert(self@ =~~= (CpuView {
                            v: old(self)@.v.update(x as int, k),
                            ..old(self)@
                        }));
                        assert(apply_op(old(self)@, op, 0u8) == Ok::<CpuView, Fault>(self@));
                    }
                },
                Option::None => {
                    self.pc = self.pc - 2;
                    proof {
                        assert(self@ =~~= (CpuView {
                            pc: crate::step::wrap16(old(self)@.pc - 2),
                            ..old(self)@
                        }));
                        assert(apply_op(old(self)@, op, 0u8) == Ok::<CpuView, Fault>(self@));
                    }
                },
            }
            Ok(())
        } else if d1 == 0xF && d3 == 1 && d4 == 5 {
            // Fx15: the delay timer takes Vx.
            self.dt = self.v_reg[x];
            proof {
                assert(self@ =~~= (CpuView { dt: old(self)@.v[x as int], ..old(self)@ }));
                assert(apply_op(old(self)@, op, 0u8) == Ok::<CpuView, Fault>(self@));
            }
            Ok(())
        } else if d1 == 0xF && d3 == 1 && d4 == 8 {
            // Fx18: the sound timer takes Vx.
            self.st = self.v_reg[x];
            proof {
                assert(self@ =~~= (CpuView { st: old(self)@.v[x as int], ..old(self)@ }));
                assert(apply_op(old(self)@, op, 0u8) == Ok::<CpuView, Fault>(self@));
            }
            Ok(())
        } else if d1 == 0xF && d3 == 1 && d4 == 0xE {
            // Fx1E: the index register grows by Vx with wraparound.
            let widened = self.i_reg as u32 + self.v_reg[x] as u32;
            self.i_reg = (widened % 0x10000) as u16;
            proof {
                assert(self@ =~~= (CpuView {
                    i: crate::step::wrap16(old(self)@.i + old(self)@.v[x as int]),
                    ..old(self)@
                }));
                assert(apply_op(old(self)@, op, 0u8) == Ok::<CpuView, Fault>(self@));
            }
            Ok(())
        } else if d1 == 0xF && d3 == 2 && d4 == 9 {
            // Fx29: point the index register at the sprite for character Vx.
            self.i_reg = self.v_reg[x] as u16 * 5;
            proof {
                assert(self@ =~~= (CpuView {
                    i: (old(self)@.v[x as int] * 5) as u16,
                    ..old(self)@
                }));
                assert(apply_op(old(self)@, op, 0u8) == Ok::<CpuView, Fault>(self@));
            }
            Ok(())
        } else if d1 == 0xF && d3 == 3 && d4 == 3 {
            // Fx33: the decimal digits of Vx go to memory.
            if self.i_reg as usize + 3 > RAM_SIZE {
                proof {
                    assert(forall|rnd: u8|
                        #[trigger] apply_op(old(self)@, op, rnd) == Err::<CpuView, Fault>(
                            Fault::OutOfBounds,
                        ));
                }
                return Err(Fault::OutOfBounds);
            }
            let vx = self.v_reg[x];
            let i0 = self.i_reg as usize;
            self.ram.set(i0, vx / 100);
            self.ram.set(i0 + 1, (vx / 10) % 10);
            self.ram.set(i0 + 2, vx % 10);
            proof {
                assert(self@ =~~= (CpuView {
                    ram: old(self)@.ram
                        .update(old(self)@.i as int, (vx / 100) as u8)
                        .update(old(self)@.i + 1, ((vx / 10) % 10) as u8)
                        .update(old(self)@.i + 2, (vx % 10) as u8),
                    ..old(self)@
                }));
                assert(apply_op(old(self)@, op, 0u8) == Ok::<CpuView, Fault>(self@));
            }
            Ok(())
        } else if d1 == 0xF && d3 == 5 && d4 == 5 {
            // Fx55: registers 0 through x go to memory.
            if self.i_reg as usize + x + 1 > RAM_SIZE {
                proof {
                    assert(forall|rnd: u8|
                        #[trigger] apply_op(old(self)@, op, rnd) == Err::<CpuView, Fault>(
                            Fault::OutOfBounds,
                        ));
                }
                return Err(Fault::OutOfBounds);
            }
            self.op_store_regs(x);
            proof {
                assert(apply_op(old(self)@, op, 0u8) == Ok::<CpuView, Fault>(self@));
            }
            Ok(())
        } else if d1 == 0xF && d3 == 6 && d4 == 5 {
            // Fx65: registers 0 through x read memory.
            if self.i_reg as usize + x + 1 > RAM_SIZE {
                proof {
                    assert(forall|rnd: u8|
                        #[trigger] apply_op(old(self)@, op, rnd) == Err::<CpuView, Fault>(
                            Fault::OutOfBounds,
                        ));
                }
                return Err(Fault::OutOfBounds);
            }
            self.op_load_regs(x);
            proof {
                assert(apply_op(old(self)@, op, 0u8) == Ok::<CpuView, Fault>(self@));
            }
            Ok(())
        } else {
            // No pattern of the instruction table matches.
            proof {
                assert(forall|rnd: u8|
                    #[trigger] apply_op(old(self)@, op, rnd) == Err::<CpuView, Fault>(
                        Fault::UnimplementedOpcode,
                    ));
            }
            Err(Fault::UnimplementedOpcode)
        }
    }

    /// One fetch-decode-execute step. On success the machine has advanced
    /// by exactly one instruction of the spec-level step; on a fault it is
    /// left exactly as it was, and the fault says what the instruction ran
    /// into.
    pub fn tick(&mut self) -> (r: Result<(), Fault>)
        requires
            old(self).wf(),
        ensures
            final(self).wf(),
            tick_rel(old(self)@, final(self)@, r),
    {
        if self.pc as usize + 1 >= RAM_SIZE {
            proof {
                assert(forall|rnd: u8|
                    #[trigger] step_spec(old(self)@, rnd) == Err::<CpuView, Fault>(
                        Fault::OutOfBounds,
                    ));
            }
            return Err(Fault::OutOfBounds);
        }
        let op = self.fetch();
        let ghost mid = self@;
        let r = self.execute(op);
        match r {
            Result::Ok(u) => {
                proof {
                    let rnd = choose|rnd: u8|
                        #[trigger] apply_op(mid, op, rnd) == Ok::<CpuView, Fault>(self@);
                    assert(step_spec(old(self)@, rnd) == Ok::<CpuView, Fault>(self@));
                }
            },
            Result::Err(e) => {
                self.pc = self.pc - 2;
                proof {
                    assert(self@ =~~= old(self)@);
                    assert forall|rnd: u8| #[trigger] step_spec(old(self)@, rnd) == Err::<
                        CpuView,
                        Fault,
                    >(e) by {
                        assert(apply_op(mid, op, rnd) == Err::<CpuView, Fault>(e));
                    };
                }
            },
        }
        r
    }

    /// The program counter.
    pub fn pc(&self) -> (r: u16)
        ensures
            r == self@.pc,
    {
        self.pc
    }

    /// The index register.
    pub fn index_reg(&self) -> (r: u16)
        ensures
            r == self@.i,
    {
        self.i_reg
    }

    /// General-purpose register `x`.
    pub fn reg(&self, x: usize) -> (r: u8)
        requires
            self.wf(),
            x < NUM_REGS,
        ensures
            r == self@.v[x as int],
    {
        self.v_reg[x]
    }

    /// The byte at memory address `addr`.
    pub fn read_ram(&self, addr: usize) -> (r: u8)
        requires
            self.wf(),
            addr < RAM_SIZE,
        ensures
            r == self@.ram[addr as int],
    {
        self.ram[addr]
    }

    /// The delay timer.
    pub fn delay_timer(&self) -> (r: u8)
        ensures
            r == self@.dt,
    {
        self.dt
    }

    /// The sound timer.
    pub fn sound_timer(&self) -> (r: u8)
        ensures
            r == self@.st,
    {
        self.st
    }

    /// How many return addresses are pending.
    pub fn stack_depth(&self) -> (r: usize)
        ensures
            r == self@.stack.len(),
    {
        self.stack.len()
    }
}

} // verus!
