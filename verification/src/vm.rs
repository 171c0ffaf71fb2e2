//! BitVM: the logic VM.
//!
//! A tiny stack machine run once per trigger. It is hard-capped so any bytes
//! are a valid, inert program: it can never hang or crash the game; worst case
//! it halts and nothing happens. Its only randomness is a seeded xorshift32
//! register driven by the `RAND` opcode, so the same inputs always produce the
//! same execution.
//!
//! The VM never touches the world directly; it talks to a [`VmHost`] (read and
//! write the walls plane, read items, hazards, score and the player position).
use vstd::prelude::*;

use crate::format::LevelView;
use crate::text::{dec, hex_0x, push_dec, push_hex_0x, push_str, string_of};

verus! {

/// Maximum stack depth in `u16` values. Push past this halts with [`Halt::StackOverflow`].
pub const STACK_MAX: usize = 64;

/// Fixed scratch RAM size in bytes, addressable `0..=255`.
pub const RAM_SIZE: usize = 256;

/// Maximum instructions executed per run. Exceeding it halts with [`Halt::Budget`].
pub const BUDGET: u32 = 4096;

/// What a host shows the VM: its level, the player position, and the score.
pub struct HostModel {
    pub level: LevelView,
    pub player: (u16, u16),
    pub score: u16,
}

/// The walls-plane bit at `(x, y)`: `false` out of bounds (or where the plane is short).
pub open spec fn model_wall(m: HostModel, x: u16, y: u16) -> bool {
    m.level.bit_checked(0, x as int, y as int)
}

/// The items-plane bit at `(x, y)`: `false` out of bounds or with no items plane.
pub open spec fn model_item(m: HostModel, x: u16, y: u16) -> bool {
    m.level.bit_checked(1, x as int, y as int)
}

/// The hazards-plane bit at `(x, y)`: `false` out of bounds or with no hazards plane.
pub open spec fn model_hazard(m: HostModel, x: u16, y: u16) -> bool {
    m.level.bit_checked(2, x as int, y as int)
}

/// The host after writing the walls-plane bit at `(x, y)`: out of bounds (or
/// where the plane is short) is a no-op.
pub open spec fn model_set_wall(m: HostModel, x: u16, y: u16, value: bool) -> HostModel {
    if m.level.has_byte(0, x as int, y as int) {
        HostModel { level: m.level.with_bit(0, x as int, y as int, value), ..m }
    } else {
        m
    }
}

/// The controlled interface the VM uses to see and mutate the game world.
///
/// Coordinates are `u16` (the width of a stack cell). Out-of-range coordinates
/// are the host's responsibility to handle safely: reads return `false`,
/// writes are a no-op, never a panic.
pub trait VmHost: Sized {
    /// What this host shows the VM; the method contracts below are stated
    /// over it. A host that does not define its own model gets a fixed but
    /// unspecified one, and its methods are still bound to agree with that
    /// model; a host written outside verified code is not checked against it.
    closed spec fn host_model(&self) -> HostModel {
        arbitrary()
    }

    /// Read the walls-plane bit at `(x, y)`. Out of bounds → `false`.
    fn get_wall(&self, x: u16, y: u16) -> (b: bool)
        ensures
            b == model_wall(self.host_model(), x, y),
    ;

    /// Set the walls-plane bit at `(x, y)`. Out of bounds → no-op.
    fn set_wall(&mut self, x: u16, y: u16, value: bool)
        ensures
            final(self).host_model() == model_set_wall(old(self).host_model(), x, y, value),
    ;

    /// Current player column.
    fn player_x(&self) -> (v: u16)
        ensures
            v == self.host_model().player.0,
    ;

    /// Current player row.
    fn player_y(&self) -> (v: u16)
        ensures
            v == self.host_model().player.1,
    ;

    /// Read the items-plane bit at `(x, y)`. Out of bounds, or no items plane → `false`.
    fn get_item(&self, x: u16, y: u16) -> (b: bool)
        ensures
            b == model_item(self.host_model(), x, y),
    ;

    /// Current collected-item score, saturated into a `u16` cell.
    fn score(&self) -> (s: u16)
        ensures
            s == self.host_model().score,
    ;

    /// Read the hazards-plane bit at `(x, y)`. Out of bounds, or no hazards plane → `false`.
    fn get_hazard(&self, x: u16, y: u16) -> (b: bool)
        ensures
            b == model_hazard(self.host_model(), x, y),
    ;
}

/// Why a script run stopped. The VM never panics and never runs away.
/// [`Halt::Halt`] and [`Halt::EndOfScript`] are the two clean outcomes; the
/// rest are caps or malformed-bytecode guards.
#[derive(Debug, Clone, Copy, PartialEq, Eq, Structural)]
pub enum Halt {
    /// Hit an explicit `HALT` (0x01) opcode.
    Halt,
    /// Program counter ran off the end of the script without a `HALT`.
    EndOfScript,
    /// An operand (PUSH8/PUSH16/JMP/JZ) was cut off at the end of the script.
    Truncated,
    /// A JMP/JZ target landed outside the script.
    BadJump,
    /// Encountered an opcode this VM version does not define. Carries the byte.
    BadOpcode(u8),
    /// Pushed past [`STACK_MAX`].
    StackOverflow,
    /// An opcode needed more operands than were on the stack.
    StackUnderflow,
    /// Executed [`BUDGET`] instructions without halting.
    Budget,
}

/// What a halt reason displays as.
pub open spec fn halt_text(h: Halt) -> Seq<char> {
    match h {
        Halt::Halt => "HALT"@,
        Halt::EndOfScript => "ran off end of script"@,
        Halt::Truncated => "truncated operand"@,
        Halt::BadJump => "jump target out of bounds"@,
        Halt::BadOpcode(op) => "bad opcode "@ + hex_0x(op),
        Halt::StackOverflow => "stack overflow (depth > "@ + dec(STACK_MAX as nat) + ")"@,
        Halt::StackUnderflow => "stack underflow"@,
        Halt::Budget => "instruction budget exceeded ("@ + dec(BUDGET as nat) + ")"@,
    }
}

impl Halt {
    /// The halt reason as text.
    pub fn message(self) -> (s: String)
        ensures
            s@ == halt_text(self),
    {
        let mut v: Vec<char> = Vec::new();
        match self {
            Halt::Halt => push_str(&mut v, "HALT"),
            Halt::EndOfScript => push_str(&mut v, "ran off end of script"),
            Halt::Truncated => push_str(&mut v, "truncated operand"),
            Halt::BadJump => push_str(&mut v, "jump target out of bounds"),
            Halt::BadOpcode(op) => {
                push_str(&mut v, "bad opcode ");
                push_hex_0x(&mut v, op);
            },
            Halt::StackOverflow => {
                push_str(&mut v, "stack overflow (depth > ");
                push_dec(&mut v, STACK_MAX as u64);
                push_str(&mut v, ")");
            },
            Halt::StackUnderflow => push_str(&mut v, "stack underflow"),
            Halt::Budget => {
                push_str(&mut v, "instruction budget exceeded (");
                push_dec(&mut v, BUDGET as u64);
                push_str(&mut v, ")");
            },
        }
        string_of(&v)
    }

    /// True for the two non-error stops (`HALT` opcode or clean end-of-script).
    pub fn is_clean(self) -> (b: bool)
        ensures
            b == (self is Halt || self is EndOfScript),
    {
        match self {
            Halt::Halt | Halt::EndOfScript => true,
            _ => false,
        }
    }
}

/// The machine state a step reads and writes: stack, scratch RAM, PRNG register.
pub struct Machine {
    pub stack: Seq<u16>,
    pub ram: Seq<u8>,
    pub rng: u32,
}

/// One xorshift32 step.
pub open spec fn xorshift(x: u32) -> u32 {
    let a = x ^ (x << 13u32);
    let b = a ^ (a >> 17u32);
    b ^ (b << 5u32)
}

/// The `RAND` result for a register value: its low 16 bits.
pub open spec fn rand_low(x: u32) -> u16 {
    (x & 0xFFFFu32) as u16
}

/// A relative `i8` jump from `next_pc`: the target, when it lands in `0..=len`.
pub open spec fn jump_dest(next_pc: int, off: u8, len: int) -> Option<int> {
    let target = next_pc + (if off < 128 {
        off as int
    } else {
        off as int - 256
    });
    if target < 0 || target > len {
        None
    } else {
        Some(target)
    }
}

/// What one instruction does: go on at a new pc, or stop.
pub enum Next {
    Go(Machine, HostModel, int),
    Stop(Halt, Machine, HostModel),
}

pub open spec fn with_stack(c: Machine, s: Seq<u16>) -> Machine {
    Machine { stack: s, ..c }
}

/// Push with the depth cap.
pub open spec fn push_then(c: Machine, h: HostModel, v: u16, next_pc: int) -> Next {
    if c.stack.len() >= 64 {
        Next::Stop(Halt::StackOverflow, c, h)
    } else {
        Next::Go(with_stack(c, c.stack.push(v)), h, next_pc)
    }
}

/// The stack after popping two values (as many as there are).
pub open spec fn pop2(s: Seq<u16>) -> Seq<u16> {
    if s.len() >= 2 {
        s.subrange(0, s.len() - 2)
    } else {
        seq![]
    }
}

/// The top of the stack (`b`) and the value under it (`a`).
pub open spec fn top(s: Seq<u16>) -> u16 {
    s[s.len() - 1]
}

pub open spec fn under_top(s: Seq<u16>) -> u16 {
    s[s.len() - 2]
}

pub open spec fn bit_u16(b: bool) -> u16 {
    if b {
        1
    } else {
        0
    }
}

/// Execute the instruction at `pc` (which is inside the script).
pub open spec fn step(c: Machine, h: HostModel, script: Seq<u8>, pc: int) -> Next {
    let op = script[pc];
    let len = script.len() as int;
    let s = c.stack;
    if op == 0x00 {
        Next::Go(c, h, pc + 1)
    } else if op == 0x01 {
        Next::Stop(Halt::Halt, c, h)
    } else if op == 0x10 {
        if pc + 1 >= len {
            Next::Stop(Halt::Truncated, c, h)
        } else {
            push_then(c, h, script[pc + 1] as u16, pc + 2)
        }
    } else if op == 0x11 {
        if pc + 2 >= len {
            Next::Stop(Halt::Truncated, c, h)
        } else {
            push_then(c, h, (script[pc + 1] as int + 256 * script[pc + 2] as int) as u16, pc + 3)
        }
    } else if op == 0x12 {
        if s.len() == 0 {
            Next::Stop(Halt::StackUnderflow, c, h)
        } else {
            Next::Go(with_stack(c, s.drop_last()), h, pc + 1)
        }
    } else if op == 0x13 {
        if s.len() == 0 {
            Next::Stop(Halt::StackUnderflow, c, h)
        } else {
            push_then(c, h, top(s), pc + 1)
        }
    } else if op == 0x20 || op == 0x21 || op == 0x30 || op == 0x31 || op == 0x32 || op == 0x42
        || op == 0x44 || op == 0x71 {
        // Two-operand ops: `a b` with `b` on top.
        if s.len() < 2 {
            Next::Stop(Halt::StackUnderflow, with_stack(c, pop2(s)), h)
        } else {
            let b = top(s);
            let a = under_top(s);
            let rest = pop2(s);
            if op == 0x20 {
                Next::Go(with_stack(c, rest.push(a.wrapping_add(b))), h, pc + 1)
            } else if op == 0x21 {
                Next::Go(with_stack(c, rest.push(a.wrapping_sub(b))), h, pc + 1)
            } else if op == 0x30 {
                Next::Go(with_stack(c, rest.push(bit_u16(model_wall(h, a, b)))), h, pc + 1)
            } else if op == 0x31 {
                Next::Go(with_stack(c, rest), model_set_wall(h, a, b, true), pc + 1)
            } else if op == 0x32 {
                Next::Go(with_stack(c, rest), model_set_wall(h, a, b, false), pc + 1)
            } else if op == 0x42 {
                Next::Go(with_stack(c, rest.push(bit_u16(model_item(h, a, b)))), h, pc + 1)
            } else if op == 0x44 {
                Next::Go(with_stack(c, rest.push(bit_u16(model_hazard(h, a, b)))), h, pc + 1)
            } else {
                // STORE: value addr ->
                Next::Go(
                    Machine { stack: rest, ram: c.ram.update((b & 0xFF) as int, (a & 0xFF) as u8), ..c },
                    h,
                    pc + 1,
                )
            }
        }
    } else if op == 0x40 {
        push_then(c, h, h.player.0, pc + 1)
    } else if op == 0x41 {
        push_then(c, h, h.player.1, pc + 1)
    } else if op == 0x43 {
        push_then(c, h, h.score, pc + 1)
    } else if op == 0x50 {
        let r = xorshift(c.rng);
        push_then(Machine { rng: r, ..c }, h, rand_low(r), pc + 1)
    } else if op == 0x60 {
        if pc + 1 >= len {
            Next::Stop(Halt::Truncated, c, h)
        } else {
            match jump_dest(pc + 2, script[pc + 1], len) {
                Some(t) => Next::Go(c, h, t),
                None => Next::Stop(Halt::BadJump, c, h),
            }
        }
    } else if op == 0x61 {
        if pc + 1 >= len {
            Next::Stop(Halt::Truncated, c, h)
        } else if s.len() == 0 {
            Next::Stop(Halt::StackUnderflow, c, h)
        } else {
            let c2 = with_stack(c, s.drop_last());
            if top(s) == 0 {
                match jump_dest(pc + 2, script[pc + 1], len) {
                    Some(t) => Next::Go(c2, h, t),
                    None => Next::Stop(Halt::BadJump, c2, h),
                }
            } else {
                Next::Go(c2, h, pc + 2)
            }
        }
    } else if op == 0x70 {
        if s.len() == 0 {
            Next::Stop(Halt::StackUnderflow, c, h)
        } else {
            let addr = top(s);
            Next::Go(
                with_stack(c, s.drop_last().push(c.ram[(addr & 0xFF) as int] as u16)),
                h,
                pc + 1,
            )
        }
    } else {
        Next::Stop(Halt::BadOpcode(op), c, h)
    }
}

/// Run from `pc` with `instr` instructions already spent: why it halts, and
/// the machine, host and instruction count it halts with.
pub open spec fn run_from(c: Machine, h: HostModel, script: Seq<u8>, pc: int, instr: int) -> (
    Halt,
    Machine,
    HostModel,
    int,
)
    decreases BUDGET - instr,
{
    if pc >= script.len() {
        (Halt::EndOfScript, c, h, instr)
    } else if instr >= BUDGET {
        (Halt::Budget, c, h, instr)
    } else {
        match step(c, h, script, pc) {
            Next::Stop(halt, c2, h2) => (halt, c2, h2, instr + 1),
            Next::Go(c2, h2, npc) => run_from(c2, h2, script, npc, instr + 1),
        }
    }
}

/// One BitVM execution context: stack, scratch RAM, PRNG register, and the
/// spent-instruction counter. A fresh `Vm` per trigger keeps runs stateless.
pub struct Vm {
    stack: Vec<u16>,
    /// Fixed 256-byte scratch RAM, read and written by `LOAD` (0x70) / `STORE`
    /// (0x71). Addresses wrap into `0..=255`.
    ram: [u8; RAM_SIZE],
    /// xorshift32 state; never zero.
    rng: u32,
    /// Instructions executed so far (capped at [`BUDGET`]).
    instr: u32,
}

impl Vm {
    /// The machine state.
    pub closed spec fn machine(&self) -> Machine {
        Machine { stack: self.stack@, ram: self.ram@, rng: self.rng }
    }

    /// Instructions executed so far.
    pub closed spec fn executed(&self) -> u32 {
        self.instr
    }

    /// The caps hold: stack within [`STACK_MAX`], 256 bytes of RAM, a nonzero
    /// PRNG register, and no more than [`BUDGET`] instructions spent.
    pub closed spec fn wf(&self) -> bool {
        &&& self.stack@.len() <= 64
        &&& self.rng != 0
        &&& self.instr <= BUDGET
    }

    /// Create a VM seeded for its PRNG. xorshift32 is degenerate at state 0, so
    /// a `0` seed is remapped to a fixed non-zero constant.
    pub fn new(seed: u32) -> (vm: Vm)
        ensures
            vm.wf(),
            vm.machine().stack == Seq::<u16>::empty(),
            vm.machine().ram == Seq::new(256, |i: int| 0u8),
            vm.machine().rng == (if seed == 0 {
                0xDEAD_BEEFu32
            } else {
                seed
            }),
            vm.executed() == 0,
    {
        let ram: [u8; RAM_SIZE] = [0u8; RAM_SIZE];
        let vm = Vm {
            stack: Vec::new(),
            ram,
            rng: if seed == 0 {
                0xDEAD_BEEF
            } else {
                seed
            },
            instr: 0,
        };
        assert(vm.ram@ =~= Seq::new(256, |i: int| 0u8));
        vm
    }

    /// Borrow the scratch RAM.
    pub fn ram(&self) -> (r: &[u8; RAM_SIZE])
        ensures
            r@ == self.machine().ram,
    {
        &self.ram
    }

    /// Advance the xorshift32 register and return its low 16 bits (the `RAND`
    /// result). The only source of randomness in the whole engine.
    pub fn next_rand(&mut self) -> (r: u16)
        requires
            old(self).wf(),
        ensures
            final(self).wf(),
            final(self).machine() == (Machine { rng: xorshift(old(self).machine().rng), ..old(self).machine() }),
            final(self).executed() == old(self).executed(),
            r == rand_low(xorshift(old(self).machine().rng)),
    {
        let mut x = self.rng;
        proof {
            lemma_xorshift_nonzero(x);
        }
        x ^= x << 13u32;
        x ^= x >> 17u32;
        x ^= x << 5u32;
        self.rng = x;
        (x & 0xFFFF) as u16
    }
}

impl Vm {
    /// Push, enforcing the stack-depth cap.
    fn push(&mut self, v: u16) -> (r: Result<(), Halt>)
        requires
            old(self).wf(),
        ensures
            final(self).wf(),
            final(self).executed() == old(self).executed(),
            match push_then(old(self).machine(), arbitrary(), v, 0) {
                Next::Go(m, _, _) => r is Ok && final(self).machine() == m,
                Next::Stop(halt, m, _) => r == Err::<(), Halt>(halt) && final(self).machine() == m,
            },
    {
        if self.stack.len() >= STACK_MAX {
            return Err(Halt::StackOverflow);
        }
        self.stack.push(v);
        Ok(())
    }

    /// Pop `b` then `a` (as many as there are); both present gives `(a, b)`.
    fn pop2(&mut self) -> (r: Option<(u16, u16)>)
        requires
            old(self).wf(),
        ensures
            final(self).wf(),
            final(self).executed() == old(self).executed(),
            final(self).machine() == with_stack(old(self).machine(), pop2(old(self).machine().stack)),
            old(self).machine().stack.len() >= 2 <==> r is Some,
            r matches Some(p) ==> p == (under_top(old(self).machine().stack), top(
                old(self).machine().stack,
            )),
    {
        let b = self.stack.pop();
        let a = self.stack.pop();
        proof {
            let s = old(self).machine().stack;
            if s.len() >= 2 {
                assert(s.subrange(0, s.len() - 1).subrange(0, s.len() - 2) =~= s.subrange(
                    0,
                    s.len() - 2,
                ));
            } else if s.len() == 1 {
                assert(s.subrange(0, 0) =~= Seq::<u16>::empty());
            }
            assert(self.stack@ =~= pop2(s));
        }
        match (a, b) {
            (Some(a), Some(b)) => Some((a, b)),
            _ => None,
        }
    }

    /// Run `script` against `host` until it halts, and return why it halted.
    ///
    /// JMP/JZ offsets are `i8`, relative to the byte after the full
    /// instruction (opcode + operand). So `JMP -2` (`60 FE`) jumps back onto
    /// itself, which the budget cap then stops. A target outside `0..=len`
    /// halts with [`Halt::BadJump`] rather than reading out of bounds.
    #[verifier::rlimit(50)]
    pub fn run<H: VmHost>(&mut self, script: &[u8], host: &mut H) -> (h: Halt)
        requires
            old(self).wf(),
        ensures
            final(self).wf(),
            (h, final(self).machine(), final(host).host_model(), final(self).executed() as int)
                == run_from(
                old(self).machine(),
                old(host).host_model(),
                script@,
                0,
                old(self).executed() as int,
            ),
    {
        let ghost result = run_from(self.machine(), host.host_model(), script@, 0, self.instr as int);
        let mut pc: usize = 0;
        loop
            invariant
                self.wf(),
                result == run_from(
                    old(self).machine(),
                    old(host).host_model(),
                    script@,
                    0,
                    old(self).executed() as int,
                ),
                run_from(self.machine(), host.host_model(), script@, pc as int, self.instr as int) == result,
            decreases BUDGET - self.instr,
        {
            // Clean end: the pc walked off the script without a HALT.
            if pc >= script.len() {
                assert(run_from(self.machine(), host.host_model(), script@, pc as int, self.instr as int) == (
                Halt::EndOfScript, self.machine(), host.host_model(), self.instr as int));
                return Halt::EndOfScript;
            }
            // Anti-hang cap: every executed instruction costs one budget unit.
            if self.instr >= BUDGET {
                return Halt::Budget;
            }
            let ghost m0 = self.machine();
            let ghost h0 = host.host_model();
            let ghost pc0 = pc as int;
            assert(run_from(m0, h0, script@, pc0, self.instr as int) == match step(
                m0,
                h0,
                script@,
                pc0,
            ) {
                Next::Stop(halt, c2, h2) => (halt, c2, h2, self.instr + 1),
                Next::Go(c2, h2, npc) => run_from(c2, h2, script@, npc, self.instr + 1),
            });
            self.instr = self.instr + 1;
            let op = script[pc];
            pc = pc + 1;
            if op == 0x00 {
                // NOP
            } else if op == 0x01 {
                return Halt::Halt;
            } else if op == 0x10 {
                // PUSH8 b
                if pc >= script.len() {
                    return Halt::Truncated;
                }
                let b = script[pc];
                pc = pc + 1;
                if let Err(h) = self.push(b as u16) {
                    return h;
                }
            } else if op == 0x11 {
                // PUSH16 w (LE)
                if script.len() - pc < 2 {
                    return Halt::Truncated;
                }
                let lo = script[pc];
                let hi = script[pc + 1];
                pc = pc + 2;
                if let Err(h) = self.push(lo as u16 + 256 * hi as u16) {
                    return h;
                }
            } else if op == 0x12 {
                // POP
                if self.stack.pop().is_none() {
                    return Halt::StackUnderflow;
                }
            } else if op == 0x13 {
                // DUP
                if self.stack.len() == 0 {
                    return Halt::StackUnderflow;
                }
                let top = self.stack[self.stack.len() - 1];
                if let Err(h) = self.push(top) {
                    return h;
                }
            } else if op == 0x20 || op == 0x21 || op == 0x30 || op == 0x31 || op == 0x32 || op
                == 0x42 || op == 0x44 || op == 0x71 {
                let Some((a, b)) = self.pop2() else {
                    return Halt::StackUnderflow;
                };
                if op == 0x20 {
                    // ADD (wrapping): a b -> a+b
                    self.stack.push(a.wrapping_add(b));
                } else if op == 0x21 {
                    // SUB (wrapping): a b -> a-b
                    self.stack.push(a.wrapping_sub(b));
                } else if op == 0x30 {
                    // GET_WALL: x y -> bit
                    let v: u16 = if host.get_wall(a, b) {
                        1
                    } else {
                        0
                    };
                    self.stack.push(v);
                } else if op == 0x31 {
                    // SET_WALL: x y ->
                    host.set_wall(a, b, true);
                } else if op == 0x32 {
                    // CLR_WALL: x y ->
                    host.set_wall(a, b, false);
                } else if op == 0x42 {
                    // GET_ITEM: x y -> bit
                    let v: u16 = if host.get_item(a, b) {
                        1
                    } else {
                        0
                    };
                    self.stack.push(v);
                } else if op == 0x44 {
                    // GET_HAZARD: x y -> bit
                    let v: u16 = if host.get_hazard(a, b) {
                        1
                    } else {
                        0
                    };
                    self.stack.push(v);
                } else {
                    // STORE: value addr -> ; writes the low byte of `value`
                    // into scratch RAM at `addr & 0xFF` (address wraps).
                    assert(b & 0xFFu16 < 256 && a & 0xFFu16 < 256) by (bit_vector);
                    self.ram.set((b & 0xFF) as usize, (a & 0xFF) as u8);
                }
            } else if op == 0x40 {
                // PLAYER_X -> x
                if let Err(h) = self.push(host.player_x()) {
                    return h;
                }
            } else if op == 0x41 {
                // PLAYER_Y -> y
                if let Err(h) = self.push(host.player_y()) {
                    return h;
                }
            } else if op == 0x43 {
                // SCORE -> current collected-item count
                let s = host.score();
                if let Err(h) = self.push(s) {
                    return h;
                }
            } else if op == 0x50 {
                // RAND -> r
                let r = self.next_rand();
                if let Err(h) = self.push(r) {
                    return h;
                }
            } else if op == 0x60 {
                // JMP o (i8 rel)
                if pc >= script.len() {
                    return Halt::Truncated;
                }
                let off = script[pc];
                pc = pc + 1;
                match jump_target(pc, off, script.len()) {
                    Some(t) => pc = t,
                    None => return Halt::BadJump,
                }
            } else if op == 0x61 {
                // JZ o (i8 rel): pop; if 0, jump
                if pc >= script.len() {
                    return Halt::Truncated;
                }
                let off = script[pc];
                pc = pc + 1;
                let Some(v) = self.stack.pop() else {
                    return Halt::StackUnderflow;
                };
                if v == 0 {
                    match jump_target(pc, off, script.len()) {
                        Some(t) => pc = t,
                        None => return Halt::BadJump,
                    }
                }
            } else if op == 0x70 {
                // LOAD: addr -> value (address wraps into 0..=255)
                let Some(addr) = self.stack.pop() else {
                    return Halt::StackUnderflow;
                };
                assert(addr & 0xFFu16 < 256) by (bit_vector);
                let v = self.ram[(addr & 0xFF) as usize] as u16;
                if let Err(h) = self.push(v) {
                    return h;
                }
            } else {
                return Halt::BadOpcode(op);
            }
        }
    }
}

/// The anti-hang cap: a run started within the budget never spends more than
/// [`BUDGET`] instructions in all, and it halts with [`Halt::Budget`] exactly
/// when it has spent all of them without otherwise stopping.
pub proof fn lemma_run_within_budget(
    c: Machine,
    h: HostModel,
    script: Seq<u8>,
    pc: int,
    instr: int,
)
    requires
        0 <= instr <= BUDGET,
    ensures
        instr <= run_from(c, h, script, pc, instr).3 <= BUDGET,
        run_from(c, h, script, pc, instr).0 is Budget ==> run_from(c, h, script, pc, instr).3
            == BUDGET,
    decreases BUDGET - instr,
{
    if pc < script.len() && instr < BUDGET {
        match step(c, h, script, pc) {
            Next::Stop(_, _, _) => {},
            Next::Go(c2, h2, npc) => {
                lemma_run_within_budget(c2, h2, script, npc, instr + 1);
            },
        }
    }
}

/// xorshift32 never reaches the degenerate zero state from a nonzero one.
pub proof fn lemma_xorshift_nonzero(x: u32)
    requires
        x != 0,
    ensures
        xorshift(x) != 0,
{
    let a = x ^ (x << 13u32);
    let b = a ^ (a >> 17u32);
    assert(x != 0 ==> (x ^ (x << 13u32)) != 0) by (bit_vector);
    assert(a != 0 ==> (a ^ (a >> 17u32)) != 0) by (bit_vector);
    assert(b != 0 ==> (b ^ (b << 5u32)) != 0) by (bit_vector);
}

/// Resolve a relative jump: `next_pc + off`, valid only if it lands in
/// `0..=len` (landing exactly on `len` is a clean end-of-script next tick).
fn jump_target(next_pc: usize, off: u8, len: usize) -> (t: Option<usize>)
    ensures
        t matches Some(v) ==> jump_dest(next_pc as int, off, len as int) == Some(v as int),
        t is None ==> jump_dest(next_pc as int, off, len as int) is None,
{
    if off < 128 {
        let delta = off as usize;
        if next_pc > len || delta > len - next_pc {
            None
        } else {
            Some(next_pc + delta)
        }
    } else {
        let back = 256 - off as usize;
        if back > next_pc || next_pc - back > len {
            None
        } else {
            Some(next_pc - back)
        }
    }
}

} // verus!
