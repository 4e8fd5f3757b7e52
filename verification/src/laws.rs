//! General laws of the instruction semantics, each proved once and for all
//! states: what two identical draws do, where wrapped sprite bits land,
//! that a call and a return cancel, and that the key wait spins in place.

use vstd::prelude::*;

verus! {

use crate::state::{CpuView, Fault, NUM_KEYS, RAM_SIZE, SCREEN_CELLS, SCREEN_HEIGHT, SCREEN_WIDTH,
    STACK_SIZE};
use crate::step::{combine, draw_collision, draw_screen, first_key, first_key_from, hit_before,
    low12, low8, nib1, nib2, nib3, nib4, row_col_hits, sprite_bit, sprite_hit, step_spec};

/// The instruction word that sits in memory at address `a`.
pub open spec fn op_at(m: CpuView, a: int) -> u16 {
    combine(m.ram[a], m.ram[a + 1])
}

/// The draw lights some cell: it toggles a cell that was dark.
pub open spec fn draw_lights(
    screen: Seq<bool>,
    ram: Seq<u8>,
    i: int,
    x0: int,
    y0: int,
    n: int,
) -> bool {
    exists|px: int, py: int|
        {
            &&& 0 <= px < SCREEN_WIDTH
            &&& 0 <= py < SCREEN_HEIGHT
            &&& #[trigger] sprite_hit(ram, i, x0, y0, n, px, py)
            &&& !screen[py * (SCREEN_WIDTH as int) + px]
        }
}

/// Drawing the same sprite at the same origin twice in succession brings
/// the display back to where it started, and the second draw reports a
/// collision exactly when the first draw lit some cell.
pub proof fn lemma_draw_twice_restores(
    screen: Seq<bool>,
    ram: Seq<u8>,
    i: int,
    x0: int,
    y0: int,
    n: int,
)
    requires
        screen.len() == SCREEN_CELLS,
    ensures
        draw_screen(draw_screen(screen, ram, i, x0, y0, n), ram, i, x0, y0, n) =~= screen,
        draw_collision(draw_screen(screen, ram, i, x0, y0, n), ram, i, x0, y0, n) == draw_lights(
            screen,
            ram,
            i,
            x0,
            y0,
            n,
        ),
{
    let s1 = draw_screen(screen, ram, i, x0, y0, n);
    let w = SCREEN_WIDTH as int;
    assert forall|idx: int| 0 <= idx < SCREEN_CELLS implies draw_screen(s1, ram, i, x0, y0, n)[idx]
        == screen[idx] by {
        assert(s1[idx] == (screen[idx] != sprite_hit(ram, i, x0, y0, n, idx % w, idx / w)));
    };
    assert forall|px: int, py: int| 0 <= px < SCREEN_WIDTH && 0 <= py < SCREEN_HEIGHT implies s1[py
        * w + px] == (screen[py * w + px] != #[trigger] sprite_hit(ram, i, x0, y0, n, px, py)) by {
        let idx = py * w + px;
        vstd::arithmetic::div_mod::lemma_fundamental_div_mod_converse(idx, w, py, px);
        assert(idx % w == px && idx / w == py);
    };
    if draw_collision(s1, ram, i, x0, y0, n) {
        let (px, py) = choose|px: int, py: int|
            {
                &&& 0 <= px < SCREEN_WIDTH
                &&& 0 <= py < SCREEN_HEIGHT
                &&& #[trigger] sprite_hit(ram, i, x0, y0, n, px, py)
                &&& s1[py * w + px]
            };
        assert(!screen[py * w + px]);
        assert(draw_lights(screen, ram, i, x0, y0, n));
    }
    if draw_lights(screen, ram, i, x0, y0, n) {
        let (px, py) = choose|px: int, py: int|
            {
                &&& 0 <= px < SCREEN_WIDTH
                &&& 0 <= py < SCREEN_HEIGHT
                &&& #[trigger] sprite_hit(ram, i, x0, y0, n, px, py)
                &&& !screen[py * w + px]
            };
        assert(s1[py * w + px]);
        assert(draw_collision(s1, ram, i, x0, y0, n));
    }
}

/// Each set sprite bit lands on exactly the cell given by wrapping its
/// coordinates modulo the screen size.
pub proof fn lemma_sprite_bit_lands(
    ram: Seq<u8>,
    i: int,
    x0: int,
    y0: int,
    n: int,
    row: int,
    col: int,
)
    requires
        0 <= row < n,
        0 <= col < 8,
        sprite_bit(ram[i + row], col),
    ensures
        sprite_hit(
            ram,
            i,
            x0,
            y0,
            n,
            (x0 + col) % (SCREEN_WIDTH as int),
            (y0 + row) % (SCREEN_HEIGHT as int),
        ),
{
    let px = (x0 + col) % (SCREEN_WIDTH as int);
    let py = (y0 + row) % (SCREEN_HEIGHT as int);
    assert(row_col_hits(ram, i, x0, y0, row, col, px, py));
    assert(hit_before(ram, i, x0, y0, n, 0, px, py));
}

/// A set sprite bit pushed past the right edge survives and lands that
/// many columns past column zero, on its unwrapped row.
pub proof fn lemma_sprite_wraps_x(
    ram: Seq<u8>,
    i: int,
    x0: int,
    y0: int,
    n: int,
    row: int,
    col: int,
)
    requires
        0 <= row < n,
        0 <= col < 8,
        sprite_bit(ram[i + row], col),
        SCREEN_WIDTH <= x0 + col < 2 * SCREEN_WIDTH,
        0 <= y0 + row < SCREEN_HEIGHT,
    ensures
        sprite_hit(ram, i, x0, y0, n, x0 + col - SCREEN_WIDTH, y0 + row),
{
    let w = SCREEN_WIDTH as int;
    let h = SCREEN_HEIGHT as int;
    vstd::arithmetic::div_mod::lemma_mod_add_multiples_vanish(x0 + col - w, w);
    vstd::arithmetic::div_mod::lemma_small_mod((x0 + col - w) as nat, w as nat);
    vstd::arithmetic::div_mod::lemma_small_mod((y0 + row) as nat, h as nat);
    lemma_sprite_bit_lands(ram, i, x0, y0, n, row, col);
}

/// A set sprite bit pushed past the bottom edge survives and lands that
/// many rows past row zero, in its unwrapped column.
pub proof fn lemma_sprite_wraps_y(
    ram: Seq<u8>,
    i: int,
    x0: int,
    y0: int,
    n: int,
    row: int,
    col: int,
)
    requires
        0 <= row < n,
        0 <= col < 8,
        sprite_bit(ram[i + row], col),
        0 <= x0 + col < SCREEN_WIDTH,
        SCREEN_HEIGHT <= y0 + row < 2 * SCREEN_HEIGHT,
    ensures
        sprite_hit(ram, i, x0, y0, n, x0 + col, y0 + row - SCREEN_HEIGHT),
{
    let w = SCREEN_WIDTH as int;
    let h = SCREEN_HEIGHT as int;
    vstd::arithmetic::div_mod::lemma_mod_add_multiples_vanish(y0 + row - h, h);
    vstd::arithmetic::div_mod::lemma_small_mod((y0 + row - h) as nat, h as nat);
    vstd::arithmetic::div_mod::lemma_small_mod((x0 + col) as nat, w as nat);
    lemma_sprite_bit_lands(ram, i, x0, y0, n, row, col);
}

/// Two identical draw instructions in a row, with origin registers other
/// than the flag register, bring the display back to where it started; the
/// flag after the second draw is 1 exactly when the first draw lit some
/// cell. The machine ends two instructions further on with nothing else
/// moved.
pub proof fn lemma_draw_twice_round_trip(m: CpuView, rnd1: u8, rnd2: u8)
    requires
        m.wf(),
        m.pc + 3 < RAM_SIZE,
        nib1(op_at(m, m.pc as int)) == 0xD,
        op_at(m, m.pc as int + 2) == op_at(m, m.pc as int),
        nib2(op_at(m, m.pc as int)) != 15,
        nib3(op_at(m, m.pc as int)) != 15,
        nib4(op_at(m, m.pc as int)) > 0 ==> m.i + nib4(op_at(m, m.pc as int)) <= RAM_SIZE,
    ensures
        ({
            let op = op_at(m, m.pc as int);
            let x0 = m.v[nib2(op) as int] as int;
            let y0 = m.v[nib3(op) as int] as int;
            let n = nib4(op) as int;
            let lit = draw_lights(m.screen, m.ram, m.i as int, x0, y0, n);
            &&& step_spec(m, rnd1) is Ok
            &&& step_spec(step_spec(m, rnd1)->Ok_0, rnd2) is Ok
            &&& step_spec(step_spec(m, rnd1)->Ok_0, rnd2)->Ok_0 =~~= (CpuView {
                pc: (m.pc + 4) as u16,
                v: m.v.update(
                    15,
                    if lit {
                        1u8
                    } else {
                        0u8
                    },
                ),
                ..m
            })
        }),
{
    let op = op_at(m, m.pc as int);
    let x = nib2(op) as int;
    let y = nib3(op) as int;
    let n = nib4(op) as int;
    let x0 = m.v[x] as int;
    let y0 = m.v[y] as int;
    let gi = m.i as int;
    let ma = CpuView { pc: (m.pc + 2) as u16, ..m };
    let s1 = draw_screen(m.screen, m.ram, gi, x0, y0, n);
    let c1 = draw_collision(m.screen, m.ram, gi, x0, y0, n);
    let m1 = CpuView {
        screen: s1,
        v: m.v.update(
            15,
            if c1 {
                1u8
            } else {
                0u8
            },
        ),
        ..ma
    };
    assert(step_spec(m, rnd1) == Ok::<CpuView, Fault>(m1));
    assert(m1.v[x] == m.v[x] && m1.v[y] == m.v[y]);
    assert(op_at(m1, m1.pc as int) == op);
    let mb = CpuView { pc: (m1.pc + 2) as u16, ..m1 };
    let s2 = draw_screen(s1, m.ram, gi, x0, y0, n);
    let c2 = draw_collision(s1, m.ram, gi, x0, y0, n);
    let m2 = CpuView {
        screen: s2,
        v: m1.v.update(
            15,
            if c2 {
                1u8
            } else {
                0u8
            },
        ),
        ..mb
    };
    assert(step_spec(m1, rnd2) == Ok::<CpuView, Fault>(m2));
    lemma_draw_twice_restores(m.screen, m.ram, gi, x0, y0, n);
    let lit = draw_lights(m.screen, m.ram, gi, x0, y0, n);
    assert(m2.v =~= m.v.update(
        15,
        if lit {
            1u8
        } else {
            0u8
        },
    ));
    assert(m2 =~~= (CpuView {
        pc: (m.pc + 4) as u16,
        v: m.v.update(
            15,
            if lit {
                1u8
            } else {
                0u8
            },
        ),
        ..m
    }));
}

/// A call followed at once by a return leaves the program counter on the
/// instruction after the call, with the stack as it was: the two cancel.
pub proof fn lemma_call_ret_round_trip(m: CpuView, rnd1: u8, rnd2: u8)
    requires
        m.wf(),
        m.pc + 1 < RAM_SIZE,
        nib1(op_at(m, m.pc as int)) == 2,
        m.stack.len() < STACK_SIZE,
        low12(op_at(m, m.pc as int)) + 1 < RAM_SIZE,
        op_at(m, low12(op_at(m, m.pc as int)) as int) == 0x00EE,
    ensures
        ({
            let target = low12(op_at(m, m.pc as int));
            let after_call = CpuView {
                pc: target,
                stack: m.stack.push((m.pc + 2) as u16),
                ..m
            };
            &&& step_spec(m, rnd1) == Ok::<CpuView, Fault>(after_call)
            &&& step_spec(after_call, rnd2) == Ok::<CpuView, Fault>(
                CpuView { pc: (m.pc + 2) as u16, ..m },
            )
        }),
{
    let op1 = op_at(m, m.pc as int);
    let target = low12(op1);
    let after_call = CpuView { pc: target, stack: m.stack.push((m.pc + 2) as u16), ..m };
    assert(op1 != 0x0000 && op1 != 0x00E0 && op1 != 0x00EE && nib1(op1) != 1);
    assert(step_spec(m, rnd1) == Ok::<CpuView, Fault>(after_call));
    let op2 = op_at(m, target as int);
    let popped = CpuView {
        pc: after_call.stack.last(),
        stack: after_call.stack.drop_last(),
        ..(CpuView { pc: (target + 2) as u16, ..after_call })
    };
    assert(after_call.stack.last() == (m.pc + 2) as u16);
    assert(after_call.stack.drop_last() =~= m.stack);
    assert(step_spec(after_call, rnd2) == Ok::<CpuView, Fault>(popped));
    assert(popped =~~= (CpuView { pc: (m.pc + 2) as u16, ..m }));
}

/// With no key pressed at all, `first_key_from` finds none from any start.
proof fn lemma_no_key_from(keys: Seq<bool>, k: int)
    requires
        keys.len() == NUM_KEYS,
        0 <= k <= NUM_KEYS,
        forall|j: int| 0 <= j < NUM_KEYS ==> !keys[j],
    ensures
        first_key_from(keys, k) == Option::<u8>::None,
    decreases NUM_KEYS - k,
{
    if k < NUM_KEYS {
        lemma_no_key_from(keys, k + 1);
    }
}

/// With no key pressed, a step on the key-wait instruction leaves the
/// whole machine exactly as it was: the counter rewinds to the same
/// instruction and no register moves.
pub proof fn lemma_key_wait_spins(m: CpuView, rnd: u8)
    requires
        m.wf(),
        m.pc + 1 < RAM_SIZE,
        nib1(op_at(m, m.pc as int)) == 0xF,
        low8(op_at(m, m.pc as int)) == 0x0A,
        forall|j: int| 0 <= j < NUM_KEYS ==> !m.keys[j],
    ensures
        step_spec(m, rnd) == Ok::<CpuView, Fault>(m),
{
    let op = op_at(m, m.pc as int);
    lemma_no_key_from(m.keys, 0);
    assert(first_key(m.keys) == Option::<u8>::None);
    let fetched = CpuView { pc: (m.pc + 2) as u16, ..m };
    let rewound = CpuView { pc: crate::step::wrap16(fetched.pc - 2), ..fetched };
    assert(crate::step::wrap16(fetched.pc - 2) == m.pc) by {
        vstd::arithmetic::div_mod::lemma_small_mod(m.pc as nat, 0x10000nat);
    };
    assert(step_spec(m, rnd) == Ok::<CpuView, Fault>(rewound));
    assert(rewound =~~= m);
}

} // verus!
