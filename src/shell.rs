use vstd::prelude::*;

use crate::machine::{Machine, write_reg};
use crate::text::{
    chars_of,
    find_in,
    first_index,
    parse_i32,
    parse_i32_range,
    parse_usize,
    parse_usize_range,
};

verus! {

/// A command of the interactive shell.
#[derive(Clone, Copy, Debug, PartialEq, Eq, Structural)]
pub enum Command {
    Exit,
    Help,
    List,
    Pc,
    Registers,
    Run,
    Step,
}

/// The command that a word names, by its full name or its short form.
pub open spec fn command_named(w: Seq<char>) -> Option<Command> {
    if w == seq!['e', 'x', 'i', 't'] {
        Some(Command::Exit)
    } else if w == seq!['h', 'e', 'l', 'p'] || w == seq!['h'] {
        Some(Command::Help)
    } else if w == seq!['l', 'i', 's', 't'] || w == seq!['l'] {
        Some(Command::List)
    } else if w == seq!['p', 'c'] {
        Some(Command::Pc)
    } else if w == seq!['r', 'e', 'g', 'i', 's', 't', 'e', 'r', 's'] || w == seq!['r', 'e', 'g'] {
        Some(Command::Registers)
    } else if w == seq!['r', 'u', 'n'] || w == seq!['r'] {
        Some(Command::Run)
    } else if w == seq!['s', 't', 'e', 'p'] || w == seq!['s'] {
        Some(Command::Step)
    } else {
        None
    }
}

fn word_is(w: &Vec<char>, lit: &str) -> (r: bool)
    ensures
        r == (w@ == lit@),
{
    let n = lit.unicode_len();
    if w.len() != n {
        return false;
    }
    let mut i: usize = 0;
    while i < n
        invariant
            n == lit@.len() == w@.len(),
            i <= n,
            forall|j: int| 0 <= j < i ==> w@[j] == lit@[j],
        decreases n - i,
    {
        if w[i] != lit.get_char(i) {
            return false;
        }
        i = i + 1;
    }
    proof {
        assert(w@ =~= lit@);
    }
    true
}

/// The command that `word` names, if any.
pub fn command_of(word: &str) -> (r: Option<Command>)
    ensures
        r == command_named(word@),
{
    let w = chars_of(word);
    proof {
        reveal_strlit("exit");
        assert("exit"@ =~= seq!['e', 'x', 'i', 't']);
        reveal_strlit("help");
        assert("help"@ =~= seq!['h', 'e', 'l', 'p']);
        reveal_strlit("h");
        assert("h"@ =~= seq!['h']);
        reveal_strlit("list");
        assert("list"@ =~= seq!['l', 'i', 's', 't']);
        reveal_strlit("l");
        assert("l"@ =~= seq!['l']);
        reveal_strlit("pc");
        assert("pc"@ =~= seq!['p', 'c']);
        reveal_strlit("registers");
        assert("registers"@ =~= seq!['r', 'e', 'g', 'i', 's', 't', 'e', 'r', 's']);
        reveal_strlit("reg");
        assert("reg"@ =~= seq!['r', 'e', 'g']);
        reveal_strlit("run");
        assert("run"@ =~= seq!['r', 'u', 'n']);
        reveal_strlit("r");
        assert("r"@ =~= seq!['r']);
        reveal_strlit("step");
        assert("step"@ =~= seq!['s', 't', 'e', 'p']);
        reveal_strlit("s");
        assert("s"@ =~= seq!['s']);
    }
    if word_is(&w, "exit") {
        Some(Command::Exit)
    } else if word_is(&w, "help") || word_is(&w, "h") {
        Some(Command::Help)
    } else if word_is(&w, "list") || word_is(&w, "l") {
        Some(Command::List)
    } else if word_is(&w, "pc") {
        Some(Command::Pc)
    } else if word_is(&w, "registers") || word_is(&w, "reg") {
        Some(Command::Registers)
    } else if word_is(&w, "run") || word_is(&w, "r") {
        Some(Command::Run)
    } else if word_is(&w, "step") || word_is(&w, "s") {
        Some(Command::Step)
    } else {
        None
    }
}

/// The registers after the arguments of the `registers` command, the first
/// of them at position `index`, and whether the registers are then shown.
///
/// An argument `x=y` stores `y` in register `x` (nothing for `x = 0`); any
/// other argument stores its value in the register of its position. An
/// `x=y` that does not read as numbers ends the command with nothing shown;
/// another argument that does not read as a number ends it with the
/// registers shown.
pub open spec fn register_args(regs: Seq<i32>, args: Seq<Seq<char>>, index: int) -> (Seq<i32>, bool)
    decreases args.len(),
{
    if args.len() == 0 {
        (regs, true)
    } else {
        let a = args[0];
        let eq = first_index(a, '=');
        if 0 <= eq < a.len() {
            let after = a.subrange(eq + 1, a.len() as int);
            let lhs = a.subrange(0, eq);
            let rhs = after.subrange(0, first_index(after, '='));
            match (parse_usize(lhs), parse_i32(rhs)) {
                (Some(r), Some(v)) => register_args(
                    if r > 0 {
                        write_reg(regs, r as int, v)
                    } else {
                        regs
                    },
                    args.drop_first(),
                    index + 1,
                ),
                _ => (regs, false),
            }
        } else {
            match parse_i32(a) {
                Some(v) => register_args(write_reg(regs, index, v), args.drop_first(), index + 1),
                None => (regs, true),
            }
        }
    }
}

/// Applies the arguments of the `registers` command to `m` and returns
/// whether the registers are to be shown.
pub fn apply_register_args(m: &mut Machine, args: &Vec<String>) -> (show: bool)
    requires
        old(m).wf(),
    ensures
        final(m).wf(),
        final(m).program() == old(m).program(),
        final(m).pc() == old(m).pc(),
        (final(m).regs(), show) == register_args(
            old(m).regs(),
            args@.map_values(|s: String| s@),
            1,
        ),
{
    let ghost all = args@.map_values(|s: String| s@);
    let ghost goal = register_args(m.regs(), all, 1);
    let mut k: usize = 0;
    proof {
        assert(all.subrange(0, all.len() as int) =~= all);
    }
    while k < args.len()
        invariant
            m.wf(),
            m.program() == old(m).program(),
            m.pc() == old(m).pc(),
            k <= args@.len(),
            all == args@.map_values(|s: String| s@),
            goal == register_args(old(m).regs(), all, 1),
            goal == register_args(m.regs(), all.subrange(k as int, all.len() as int), k + 1),
        decreases args@.len() - k,
    {
        let ghost rest = all.subrange(k as int, all.len() as int);
        let a = chars_of(args[k].as_str());
        let n = a.len();
        proof {
            assert(rest[0] == a@);
            assert(rest.drop_first() =~= all.subrange(k + 1, all.len() as int));
            assert(a@.subrange(0, n as int) =~= a@);
        }
        let eq = find_in(&a, 0, n, '=');
        if eq < n {
            let second = find_in(&a, eq + 1, n, '=');
            proof {
                let after = a@.subrange(eq + 1, n as int);
                assert(a@.subrange(eq + 1, second as int) =~= after.subrange(
                    0,
                    first_index(after, '='),
                ));
            }
            let reg = parse_usize_range(&a, 0, eq);
            let value = parse_i32_range(&a, eq + 1, second);
            match (reg, value) {
                (Some(r), Some(v)) => {
                    if r > 0 {
                        m.set_register(r, v);
                    }
                },
                _ => {
                    return false;
                },
            }
        } else {
            proof {
                assert(a@.subrange(0, n as int) =~= a@);
            }
            match parse_i32_range(&a, 0, n) {
                Some(v) => {
                    m.set_register(k + 1, v);
                },
                None => {
                    return true;
                },
            }
        }
        k = k + 1;
    }
    proof {
        assert(all.subrange(k as int, all.len() as int) =~= Seq::<Seq<char>>::empty());
    }
    true
}

} // verus!
