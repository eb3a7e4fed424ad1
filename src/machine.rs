use vstd::prelude::*;

verus! {

/// The four primitive operations of the machine.
#[derive(Clone, Copy, Debug, PartialEq, Eq, Structural)]
pub enum InstructionType {
    Jump,
    Successor,
    Transfer,
    Zero,
}

/// How many arguments an instruction of kind `k` takes.
pub open spec fn arity(k: InstructionType) -> nat {
    match k {
        InstructionType::Jump => 3,
        InstructionType::Successor => 1,
        InstructionType::Transfer => 2,
        InstructionType::Zero => 1,
    }
}

/// The one-letter code of an instruction kind.
pub open spec fn code_of(k: InstructionType) -> char {
    match k {
        InstructionType::Jump => 'J',
        InstructionType::Successor => 'S',
        InstructionType::Transfer => 'T',
        InstructionType::Zero => 'Z',
    }
}

/// The kind whose code is `c`, if any.
pub open spec fn kind_of_code(c: char) -> Option<InstructionType> {
    if c == 'J' {
        Some(InstructionType::Jump)
    } else if c == 'S' {
        Some(InstructionType::Successor)
    } else if c == 'T' {
        Some(InstructionType::Transfer)
    } else if c == 'Z' {
        Some(InstructionType::Zero)
    } else {
        None
    }
}

/// Arguments fit their kind: the right count, and every register index and
/// jump target is at least 1.
pub open spec fn args_fit(k: InstructionType, args: Seq<i32>) -> bool {
    &&& args.len() == arity(k)
    &&& forall|j: int| 0 <= j < args.len() ==> args[j] >= 1
}

impl InstructionType {
    /// The kind named by a one-letter code.
    pub fn from_str(s: &str) -> (r: Result<InstructionType, ()>)
        ensures
            s@.len() == 1 && kind_of_code(s@[0]) is Some ==> r == Ok::<InstructionType, ()>(
                kind_of_code(s@[0])->0,
            ),
            !(s@.len() == 1 && kind_of_code(s@[0]) is Some) ==> r is Err,
    {
        if s.unicode_len() != 1 {
            return Err(());
        }
        match Self::from_code(s.get_char(0)) {
            Some(k) => Ok(k),
            None => Err(()),
        }
    }

    /// The kind whose code is `c`.
    pub fn from_code(c: char) -> (r: Option<InstructionType>)
        ensures
            r == kind_of_code(c),
    {
        if c == 'J' {
            Some(InstructionType::Jump)
        } else if c == 'S' {
            Some(InstructionType::Successor)
        } else if c == 'T' {
            Some(InstructionType::Transfer)
        } else if c == 'Z' {
            Some(InstructionType::Zero)
        } else {
            None
        }
    }

    /// The one-letter code of this kind, as text.
    pub fn to_string(&self) -> (r: String)
        ensures
            r@ == seq![code_of(*self)],
    {
        let s = match self {
            InstructionType::Jump => "J",
            InstructionType::Successor => "S",
            InstructionType::Transfer => "T",
            InstructionType::Zero => "Z",
        };
        proof {
            reveal_strlit("J");
            reveal_strlit("S");
            reveal_strlit("T");
            reveal_strlit("Z");
        }
        String::from_str(s)
    }
}

/// One loaded instruction: its kind and its arguments.
#[derive(Debug)]
pub struct Instruction {
    pub(crate) instruction_type: InstructionType,
    pub(crate) args: Vec<i32>,
}

impl View for Instruction {
    type V = (InstructionType, Seq<i32>);

    closed spec fn view(&self) -> (InstructionType, Seq<i32>) {
        (self.instruction_type, self.args@)
    }
}

impl Instruction {
    /// The arguments fit the kind.
    pub open spec fn wf(&self) -> bool {
        args_fit(self@.0, self@.1)
    }

    pub(crate) fn new(instruction_type: InstructionType, args: Vec<i32>) -> (r: Instruction)
        ensures
            r@ == (instruction_type, args@),
    {
        Instruction { instruction_type, args }
    }

    /// The kind of the instruction.
    pub fn kind(&self) -> (r: InstructionType)
        ensures
            r == self@.0,
    {
        self.instruction_type
    }

    /// The arguments of the instruction.
    pub fn args(&self) -> (r: &Vec<i32>)
        ensures
            r@ == self@.1,
    {
        &self.args
    }
}

/// The value of register `r` (counted from 1) in a register set: 0 for
/// every register beyond the stored ones.
pub open spec fn read_reg(regs: Seq<i32>, r: int) -> i32 {
    if 1 <= r <= regs.len() {
        regs[r - 1]
    } else {
        0
    }
}

/// The register set after storing `v` in register `r` (counted from 1),
/// grown with zeros up to `r` where it was shorter.
pub open spec fn write_reg(regs: Seq<i32>, r: int, v: i32) -> Seq<i32> {
    let grown = if regs.len() < r {
        regs + Seq::new((r - regs.len()) as nat, |j: int| 0i32)
    } else {
        regs
    };
    grown.update(r - 1, v)
}

/// The successor of a register value; it wraps from the largest value to
/// the smallest.
pub open spec fn succ(v: i32) -> i32 {
    if v == i32::MAX {
        i32::MIN
    } else {
        (v + 1) as i32
    }
}

/// Registers and program counter (counted from 0) after executing the
/// instruction `ins` at position `pc`.
pub open spec fn execute(regs: Seq<i32>, pc: nat, ins: (InstructionType, Seq<i32>)) -> (
    Seq<i32>,
    nat,
) {
    let a = ins.1;
    match ins.0 {
        InstructionType::Jump => if read_reg(regs, a[0] as int) == read_reg(regs, a[1] as int) {
            (regs, (a[2] - 1) as nat)
        } else {
            (regs, pc + 1)
        },
        InstructionType::Successor => (
            write_reg(regs, a[0] as int, succ(read_reg(regs, a[0] as int))),
            pc + 1,
        ),
        InstructionType::Transfer => (
            write_reg(regs, a[1] as int, read_reg(regs, a[0] as int)),
            pc + 1,
        ),
        InstructionType::Zero => (write_reg(regs, a[0] as int, 0), pc + 1),
    }
}

/// One step of a program: the instruction at `pc` runs, unless `pc` is
/// past the end, where nothing changes.
pub open spec fn step_state(prog: Seq<(InstructionType, Seq<i32>)>, regs: Seq<i32>, pc: nat) -> (
    Seq<i32>,
    nat,
) {
    if pc < prog.len() {
        execute(regs, pc, prog[pc as int])
    } else {
        (regs, pc)
    }
}

/// Registers and program counter after `n` steps.
pub open spec fn steps(prog: Seq<(InstructionType, Seq<i32>)>, regs: Seq<i32>, pc: nat, n: nat) -> (
    Seq<i32>,
    nat,
)
    decreases n,
{
    if n == 0 {
        (regs, pc)
    } else {
        let s = steps(prog, regs, pc, (n - 1) as nat);
        step_state(prog, s.0, s.1)
    }
}

/// The text of an instruction: its code, then its arguments in decimal,
/// separated by commas, in parentheses.
pub open spec fn render(ins: (InstructionType, Seq<i32>)) -> Seq<char> {
    seq![code_of(ins.0), '('] + join_args(ins.1) + seq![')']
}

/// Decimal numbers separated by commas.
pub open spec fn join_args(args: Seq<i32>) -> Seq<char>
    decreases args.len(),
{
    if args.len() == 0 {
        Seq::empty()
    } else if args.len() == 1 {
        decimal(args[0] as int)
    } else {
        join_args(args.drop_last()) + seq![','] + decimal(args.last() as int)
    }
}

/// The ASCII digit of `d`, for `0 <= d < 10`.
pub open spec fn digit_char(d: int) -> char {
    ((d + 48) as u8) as char
}

/// The decimal digits of a natural number, without leading zeros.
pub open spec fn digits(n: nat) -> Seq<char>
    decreases n,
{
    if n < 10 {
        seq![digit_char(n as int)]
    } else {
        digits(n / 10) + seq![digit_char((n % 10) as int)]
    }
}

/// The decimal text of an integer, with a minus sign when negative.
pub open spec fn decimal(n: int) -> Seq<char> {
    if n < 0 {
        seq!['-'] + digits((-n) as nat)
    } else {
        digits(n as nat)
    }
}

fn digit_str(d: u32) -> (r: &'static str)
    requires
        d < 10,
    ensures
        r@ == seq![digit_char(d as int)],
{
    proof {
        reveal_strlit("0");
        reveal_strlit("1");
        reveal_strlit("2");
        reveal_strlit("3");
        reveal_strlit("4");
        reveal_strlit("5");
        reveal_strlit("6");
        reveal_strlit("7");
        reveal_strlit("8");
        reveal_strlit("9");
    }
    match d {
        0 => "0",
        1 => "1",
        2 => "2",
        3 => "3",
        4 => "4",
        5 => "5",
        6 => "6",
        7 => "7",
        8 => "8",
        _ => "9",
    }
}

fn append_digits(s: &mut String, n: u32)
    ensures
        final(s)@ == old(s)@ + digits(n as nat),
    decreases n,
{
    if n >= 10 {
        append_digits(s, n / 10);
    }
    s.append(digit_str(n % 10));
}

/// Appends the decimal text of `n` to `s`.
fn append_decimal(s: &mut String, n: i32)
    ensures
        final(s)@ == old(s)@ + decimal(n as int),
{
    if n < 0 {
        proof {
            reveal_strlit("-");
        }
        s.append("-");
        let m: u32 = (-(n as i64)) as u32;
        append_digits(s, m);
        proof {
            assert(final(s)@ =~= old(s)@ + decimal(n as int));
        }
    } else {
        append_digits(s, n as u32);
    }
}

impl Instruction {
    /// The instruction as text, `KIND(arg,...)`.
    pub fn to_string(&self) -> (r: String)
        ensures
            r@ == render(self@),
    {
        let mut s = self.instruction_type.to_string();
        proof {
            reveal_strlit("(");
            reveal_strlit(")");
        }
        s.append("(");
        let mut i: usize = 0;
        while i < self.args.len()
            invariant
                i <= self.args@.len(),
                s@ == seq![code_of(self.instruction_type), '('] + join_args(
                    self.args@.subrange(0, i as int),
                ),
            decreases self.args@.len() - i,
        {
            let ghost before = s@;
            proof {
                if i == 0 {
                    assert(before =~= seq![code_of(self.instruction_type), '(']);
                }
            }
            if i > 0 {
                proof {
                    reveal_strlit(",");
                }
                s.append(",");
            }
            append_decimal(&mut s, self.args[i]);
            i = i + 1;
            proof {
                let a = self.args@.subrange(0, i as int);
                if i == 1 {
                    assert(a.len() == 1 && a[0] == self.args@[0]);
                    assert(s@ =~= seq![code_of(self.instruction_type), '('] + join_args(a));
                } else {
                    assert(a.drop_last() =~= self.args@.subrange(0, i - 1));
                    assert(a.last() == self.args@[i - 1]);
                    assert(s@ =~= seq![code_of(self.instruction_type), '('] + join_args(a));
                }
            }
        }
        s.append(")");
        proof {
            assert(self.args@.subrange(0, self.args@.len() as int) =~= self.args@);
        }
        s
    }
}

/// The result of one `step`.
#[derive(Debug)]
pub enum StepOutcome {
    /// The program counter was already past the last instruction.
    NoInstructionsLeft,
    /// One instruction ran; its text is given when it was asked for.
    Executed(Option<String>),
}

/// A register machine: its registers, its program and its program counter.
#[derive(Debug)]
pub struct Machine {
    registers: Vec<i32>,
    instructions: Vec<Instruction>,
    program_counter: usize,
}

impl Machine {
    /// The stored registers; every register beyond them holds 0.
    pub closed spec fn regs(&self) -> Seq<i32> {
        self.registers@
    }

    /// The loaded program, instruction by instruction.
    pub closed spec fn program(&self) -> Seq<(InstructionType, Seq<i32>)> {
        self.instructions@.map_values(|ins: Instruction| ins@)
    }

    /// The index, counted from 0, of the next instruction to run.
    pub closed spec fn pc(&self) -> nat {
        self.program_counter as nat
    }

    /// The value of register `r`, counted from 1.
    pub open spec fn register(&self, r: int) -> i32 {
        read_reg(self.regs(), r)
    }

    /// Whether the program counter is past the last instruction.
    pub open spec fn terminated(&self) -> bool {
        self.pc() >= self.program().len()
    }

    /// Every instruction fits its kind, and the program counter and the
    /// program's length stay below `usize::MAX`.
    pub closed spec fn wf(&self) -> bool {
        &&& forall|i: int| 0 <= i < self.instructions@.len() ==> #[trigger] self.instructions@[i].wf()
        &&& self.instructions@.len() < usize::MAX
        &&& self.program_counter < usize::MAX
    }

    /// A machine with the given registers and program, at the first
    /// instruction.
    pub fn new(registers: Vec<i32>, instructions: Vec<Instruction>) -> (r: Machine)
        requires
            forall|i: int| 0 <= i < instructions@.len() ==> #[trigger] instructions@[i].wf(),
            instructions@.len() < usize::MAX,
        ensures
            r.wf(),
            r.regs() == registers@,
            r.program() == instructions@.map_values(|ins: Instruction| ins@),
            r.pc() == 0,
    {
        Machine { registers, instructions, program_counter: 0 }
    }

    /// The loaded instructions, in order.
    pub fn instructions(&self) -> (r: &Vec<Instruction>)
        ensures
            r@.map_values(|ins: Instruction| ins@) == self.program(),
    {
        &self.instructions
    }

    /// The number of stored registers.
    pub fn register_count(&self) -> (r: usize)
        ensures
            r == self.regs().len(),
    {
        self.registers.len()
    }

    /// Clears every register and moves back to the first instruction.
    pub fn reset(&mut self)
        requires
            old(self).wf(),
        ensures
            final(self).wf(),
            final(self).regs().len() == 0,
            final(self).pc() == 0,
            final(self).program() == old(self).program(),
    {
        self.registers.clear();
        self.program_counter = 0;
    }

    /// The number of loaded instructions.
    pub fn get_instruction_count(&self) -> (r: usize)
        ensures
            r == self.program().len(),
    {
        self.instructions.len()
    }

    /// The program counter, counted from 1.
    pub fn get_program_counter(&self) -> (r: usize)
        requires
            self.wf(),
        ensures
            r == self.pc() + 1,
    {
        self.program_counter + 1
    }

    /// The value of register `r`, counted from 1; 0 for a register never
    /// stored.
    pub fn get_register(&self, r: usize) -> (v: i32)
        ensures
            v == self.register(r as int),
    {
        if r == 0 || self.registers.len() < r {
            return 0;
        }
        self.registers[r - 1]
    }

    /// Stores `value` in register `r`, counted from 1, growing the register
    /// set with zeros up to `r` where needed.
    pub fn set_register(&mut self, r: usize, value: i32)
        requires
            old(self).wf(),
            r >= 1,
        ensures
            final(self).wf(),
            final(self).regs() == write_reg(old(self).regs(), r as int, value),
            final(self).register(r as int) == value,
            forall|q: int| q != r ==> #[trigger] final(self).register(q) == old(self).register(q),
            final(self).program() == old(self).program(),
            final(self).pc() == old(self).pc(),
    {
        proof {
            lemma_write_then_read(old(self).regs(), r as int, value);
        }
        if self.registers.len() < r {
            let ghost before = self.registers@;
            self.registers.resize(r, 0);
            proof {
                assert forall|j: int| before.len() <= j < r implies self.registers@[j] == 0i32 by {
                    assert(cloned::<i32>(0i32, self.registers@[j]));
                }
                assert(self.registers@ =~= before + Seq::new((r - before.len()) as nat, |j: int| 0i32));
            }
        }
        self.registers.set(r - 1, value);
    }

    /// Moves the program counter to `pc`, counted from 1; refused, with
    /// nothing changed, unless `pc` names a loaded instruction.
    pub fn set_program_counter(&mut self, pc: usize) -> (r: Result<usize, &'static str>)
        requires
            old(self).wf(),
        ensures
            final(self).wf(),
            final(self).regs() == old(self).regs(),
            final(self).program() == old(self).program(),
            1 <= pc <= old(self).program().len() ==> r == Ok::<usize, &'static str>(pc),
            1 <= pc <= old(self).program().len() ==> final(self).pc() == pc - 1,
            !(1 <= pc <= old(self).program().len()) ==> r is Err,
            !(1 <= pc <= old(self).program().len()) ==> final(self).pc() == old(self).pc(),
    {
        if pc > self.instructions.len() || pc < 1 {
            return Err("Invalid program counter value");
        }
        self.program_counter = pc - 1;
        Ok(self.get_program_counter())
    }

    /// Runs the instruction at the program counter, if any is left. When
    /// `print_instruction` holds, the outcome carries the instruction's text.
    pub fn step(&mut self, print_instruction: bool) -> (r: StepOutcome)
        requires
            old(self).wf(),
        ensures
            final(self).wf(),
            final(self).program() == old(self).program(),
            (final(self).regs(), final(self).pc()) == step_state(
                old(self).program(),
                old(self).regs(),
                old(self).pc(),
            ),
            old(self).terminated() ==> r is NoInstructionsLeft,
            !old(self).terminated() ==> r is Executed,
            r matches StepOutcome::Executed(t) ==> (t is Some <==> print_instruction),
            r matches StepOutcome::Executed(t) ==> (t is Some ==> t->0@ == render(
                old(self).program()[old(self).pc() as int],
            )),
    {
        if self.program_counter >= self.instructions.len() {
            return StepOutcome::NoInstructionsLeft;
        }
        let pc = self.program_counter;
        let ghost regs0 = self.registers@;
        proof {
            assert(self.instructions@[pc as int].wf());
            assert(self.program()[pc as int] == self.instructions@[pc as int]@);
            assert(self.instructions@[pc as int].args@.len() == arity(
                self.instructions@[pc as int].instruction_type,
            ));
        }
        let text = if print_instruction {
            Some(self.instructions[pc].to_string())
        } else {
            None
        };
        let kind = self.instructions[pc].instruction_type;
        match kind {
            InstructionType::Jump => {
                let m = self.instructions[pc].args[0] as usize;
                let n = self.instructions[pc].args[1] as usize;
                let target = self.instructions[pc].args[2];
                if self.get_register(m) == self.get_register(n) {
                    self.program_counter = (target - 1) as usize;
                } else {
                    self.program_counter = pc + 1;
                }
            },
            InstructionType::Successor => {
                let m = self.instructions[pc].args[0] as usize;
                let v = self.get_register(m);
                let next = if v == i32::MAX {
                    i32::MIN
                } else {
                    v + 1
                };
                self.set_register(m, next);
                self.program_counter = pc + 1;
            },
            InstructionType::Transfer => {
                let m = self.instructions[pc].args[0] as usize;
                let n = self.instructions[pc].args[1] as usize;
                let v = self.get_register(m);
                self.set_register(n, v);
                self.program_counter = pc + 1;
            },
            InstructionType::Zero => {
                let m = self.instructions[pc].args[0] as usize;
                self.set_register(m, 0);
                self.program_counter = pc + 1;
            },
        }
        StepOutcome::Executed(text)
    }

    /// Runs until the program counter is past the last instruction, or
    /// until `limit` instructions have run; returns how many ran.
    pub fn run_with_limit(&mut self, limit: u64) -> (r: u64)
        requires
            old(self).wf(),
        ensures
            final(self).wf(),
            final(self).program() == old(self).program(),
            r <= limit,
            (final(self).regs(), final(self).pc()) == steps(
                old(self).program(),
                old(self).regs(),
                old(self).pc(),
                r as nat,
            ),
            forall|k: nat|
                k < r ==> (#[trigger] steps(
                    old(self).program(),
                    old(self).regs(),
                    old(self).pc(),
                    k,
                )).1 < old(self).program().len(),
            final(self).terminated() || r == limit,
    {
        let ghost prog = self.program();
        let ghost regs0 = self.regs();
        let ghost pc0 = self.pc();
        let mut count: u64 = 0;
        while count < limit && self.program_counter < self.instructions.len()
            invariant
                self.wf(),
                self.program() == prog,
                count <= limit,
                (self.regs(), self.pc()) == steps(prog, regs0, pc0, count as nat),
                forall|k: nat| k < count ==> (#[trigger] steps(prog, regs0, pc0, k)).1 < prog.len(),
            decreases limit - count,
        {
            self.step(false);
            count = count + 1;
        }
        count
    }

    /// Runs until the program counter is past the last instruction and
    /// returns how many instructions ran. A program that never ends is cut
    /// off only when the count reaches `u64::MAX`.
    pub fn run(&mut self) -> (r: u64)
        requires
            old(self).wf(),
        ensures
            final(self).wf(),
            final(self).program() == old(self).program(),
            (final(self).regs(), final(self).pc()) == steps(
                old(self).program(),
                old(self).regs(),
                old(self).pc(),
                r as nat,
            ),
            forall|k: nat|
                k < r ==> (#[trigger] steps(
                    old(self).program(),
                    old(self).regs(),
                    old(self).pc(),
                    k,
                )).1 < old(self).program().len(),
            final(self).terminated() || r == u64::MAX,
    {
        self.run_with_limit(u64::MAX)
    }
}

/// The register set after each write of `writes` in turn, starting from
/// `regs`; a write is a register index and a value.
pub open spec fn apply_writes(regs: Seq<i32>, writes: Seq<(int, i32)>) -> Seq<i32>
    decreases writes.len(),
{
    if writes.len() == 0 {
        regs
    } else {
        write_reg(apply_writes(regs, writes.drop_last()), writes.last().0, writes.last().1)
    }
}

/// Storing `v` in register `r` makes `r` read `v`, and leaves every other
/// register as it was.
pub proof fn lemma_write_then_read(regs: Seq<i32>, r: int, v: i32)
    requires
        r >= 1,
    ensures
        read_reg(write_reg(regs, r, v), r) == v,
        forall|q: int| q != r ==> #[trigger] read_reg(write_reg(regs, r, v), q) == read_reg(regs, q),
{
}

/// Starting from empty registers, a register that no write names reads 0.
pub proof fn lemma_unwritten_register_is_zero(writes: Seq<(int, i32)>, r: int)
    requires
        forall|j: int| 0 <= j < writes.len() ==> (#[trigger] writes[j]).0 >= 1,
        forall|j: int| 0 <= j < writes.len() ==> (#[trigger] writes[j]).0 != r,
    ensures
        read_reg(apply_writes(Seq::empty(), writes), r) == 0,
    decreases writes.len(),
{
    if writes.len() > 0 {
        let w = writes.drop_last();
        assert forall|j: int| 0 <= j < w.len() implies (#[trigger] w[j]).0 >= 1 && w[j].0 != r by {
            assert(w[j] == writes[j]);
        }
        lemma_unwritten_register_is_zero(w, r);
        assert(writes.last() == writes[writes.len() - 1]);
        lemma_write_then_read(apply_writes(Seq::empty(), w), writes.last().0, writes.last().1);
    }
}

/// Resetting twice leaves the machine as resetting once does: no stored
/// registers, the first instruction next, the same program.
pub proof fn lemma_reset_idempotent(m0: Machine, m1: Machine, m2: Machine)
    requires
        m1.regs().len() == 0,
        m1.pc() == 0,
        m1.program() == m0.program(),
        m2.regs().len() == 0,
        m2.pc() == 0,
        m2.program() == m1.program(),
    ensures
        m2.regs() == m1.regs(),
        m2.pc() == m1.pc(),
        m2.program() == m1.program(),
        forall|r: int| #[trigger] m2.register(r) == 0,
{
    assert(m2.regs() =~= m1.regs());
}

/// A program made of the one instruction `J(1,1,1)` jumps to itself
/// forever: however many steps run, the program counter stays on it and
/// the registers do not change.
pub proof fn lemma_self_jump_never_ends(regs: Seq<i32>, n: nat)
    ensures
        steps(seq![(InstructionType::Jump, seq![1i32, 1i32, 1i32])], regs, 0, n) == (regs, 0nat),
    decreases n,
{
    if n > 0 {
        lemma_self_jump_never_ends(regs, (n - 1) as nat);
    }
}

} // verus!
