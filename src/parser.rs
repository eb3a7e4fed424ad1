use vstd::prelude::*;

use crate::machine::{
    Instruction,
    InstructionType,
    Machine,
    args_fit,
    arity,
    code_of,
    decimal,
    digit_char,
    digits,
    join_args,
    kind_of_code,
    render,
};
use crate::text::{
    all_digits,
    chars_of,
    digit_value,
    digits_value,
    find_in,
    first_index,
    is_digit,
    lemma_first_index,
    lemma_first_index_bounds,
    lemma_strip_whitespace_len,
    parse_i32,
    parse_i32_range,
    strip_range,
    strip_whitespace,
};

verus! {

/// What `str::to_uppercase` makes of a string.
pub uninterp spec fn upper_of(s: Seq<char>) -> Seq<char>;

/// Relies on `str::to_uppercase`: the result depends on the characters
/// alone, and an empty string stays empty.
#[verifier::external_body]
fn uppercase(s: &Vec<char>) -> (r: Vec<char>)
    ensures
        r@ == upper_of(s@),
        s@.len() == 0 ==> r@.len() == 0,
{
    s.iter().collect::<String>().to_uppercase().chars().collect()
}

/// Why a line of program text was refused.
#[derive(Clone, Copy, Debug, PartialEq, Eq, Structural)]
pub enum ParseErrorKind {
    /// The line does not start with `J`, `S`, `T` or `Z`.
    UnknownInstruction,
    /// The code is not followed by `(`.
    MissingOpenParen,
    /// No `)` closes the argument list.
    MissingCloseParen,
    /// An argument is not a decimal integer in the range of `i32`.
    InvalidNumber,
    /// The number of arguments does not match the instruction.
    WrongArgumentCount,
    /// A register index or jump target is below 1.
    ArgumentOutOfRange,
}

/// A refused line, counted from 1, and the reason.
#[derive(Clone, Copy, Debug, PartialEq, Eq, Structural)]
pub struct ParseError {
    pub line: usize,
    pub kind: ParseErrorKind,
}

/// The comma-separated integers written in `s`.
pub open spec fn parse_args(s: Seq<char>) -> Option<Seq<i32>>
    decreases s.len(),
{
    let k = first_index(s, ',');
    if k < 0 || k >= s.len() {
        match parse_i32(s) {
            Some(v) => Some(seq![v]),
            None => None,
        }
    } else {
        match parse_i32(s.subrange(0, k)) {
            Some(v) => match parse_args(s.subrange(k + 1, s.len() as int)) {
                Some(rest) => Some(seq![v] + rest),
                None => None,
            },
            None => None,
        }
    }
}

/// The instruction that a normalised line writes: a code, `(`, the
/// arguments, `)`, and anything after that, which is ignored.
pub open spec fn parse_line(l: Seq<char>) -> Result<(InstructionType, Seq<i32>), ParseErrorKind> {
    if l.len() == 0 || kind_of_code(l[0]) is None {
        Err(ParseErrorKind::UnknownInstruction)
    } else if l.len() < 2 || l[1] != '(' {
        Err(ParseErrorKind::MissingOpenParen)
    } else {
        let kind = kind_of_code(l[0])->0;
        let rest = l.subrange(2, l.len() as int);
        let close = first_index(rest, ')');
        if close >= rest.len() {
            Err(ParseErrorKind::MissingCloseParen)
        } else {
            match parse_args(rest.subrange(0, close)) {
                None => Err(ParseErrorKind::InvalidNumber),
                Some(args) => if args.len() != arity(kind) {
                    Err(ParseErrorKind::WrongArgumentCount)
                } else if !args_fit(kind, args) {
                    Err(ParseErrorKind::ArgumentOutOfRange)
                } else {
                    Ok((kind, args))
                },
            }
        }
    }
}

/// A raw line made ready to parse: white space taken out, upper-cased,
/// and cut at the first `;`.
pub open spec fn normalize(line: Seq<char>) -> Seq<char> {
    let u = upper_of(strip_whitespace(line));
    u.subrange(0, first_index(u, ';'))
}

/// The lines of a text, split at each `\n`; a final `\n` ends the last
/// line rather than starting an empty one.
pub open spec fn lines_of(s: Seq<char>) -> Seq<Seq<char>>
    decreases s.len(),
{
    if s.len() == 0 {
        Seq::empty()
    } else {
        let k = first_index(s, '\n');
        if 0 <= k < s.len() {
            seq![s.subrange(0, k)] + lines_of(s.subrange(k + 1, s.len() as int))
        } else {
            seq![s]
        }
    }
}

/// The program written by `lines`, the first of them numbered `first`:
/// lines that normalise to nothing are skipped, and the first refused
/// line gives its number and reason.
pub open spec fn parse_lines(lines: Seq<Seq<char>>, first: nat) -> Result<
    Seq<(InstructionType, Seq<i32>)>,
    (nat, ParseErrorKind),
>
    decreases lines.len(),
{
    if lines.len() == 0 {
        Ok(Seq::empty())
    } else {
        let l = normalize(lines[0]);
        let rest = parse_lines(lines.drop_first(), first + 1);
        if l.len() == 0 {
            rest
        } else {
            match parse_line(l) {
                Err(e) => Err((first, e)),
                Ok(ins) => match rest {
                    Ok(p) => Ok(seq![ins] + p),
                    Err(e) => Err(e),
                },
            }
        }
    }
}

/// The program that a whole text writes.
pub open spec fn parse_program(text: Seq<char>) -> Result<
    Seq<(InstructionType, Seq<i32>)>,
    (nat, ParseErrorKind),
> {
    parse_lines(lines_of(text), 1)
}

/// `r` with `done` put in front of its items, where it holds items.
pub open spec fn prefixed<T, E>(done: Seq<T>, r: Result<Seq<T>, E>) -> Result<Seq<T>, E> {
    match r {
        Ok(p) => Ok(done + p),
        Err(e) => Err(e),
    }
}

/// `r` with `done` put in front of its values, where it holds values.
pub open spec fn arg_list_after(done: Seq<i32>, r: Option<Seq<i32>>) -> Option<Seq<i32>> {
    match r {
        Some(p) => Some(done + p),
        None => None,
    }
}

/// Reads the comma-separated integers in `s[start..end]`.
fn parse_args_range(s: &Vec<char>, start: usize, end: usize) -> (r: Option<Vec<i32>>)
    requires
        start <= end <= s@.len(),
    ensures
        match parse_args(s@.subrange(start as int, end as int)) {
            Some(v) => r is Some && r->0@ == v,
            None => r is None,
        },
{
    let mut out: Vec<i32> = Vec::new();
    let mut pos = start;
    loop
        invariant
            start <= pos <= end <= s@.len(),
            parse_args(s@.subrange(start as int, end as int)) == arg_list_after(
                out@,
                parse_args(s@.subrange(pos as int, end as int)),
            ),
        decreases end - pos,
    {
        let k = find_in(s, pos, end, ',');
        let ghost piece = s@.subrange(pos as int, end as int);
        proof {
            assert(s@.subrange(pos as int, k as int) =~= piece.subrange(0, k - pos));
            if k < end {
                assert(s@.subrange(k as int + 1, end as int) =~= piece.subrange(
                    k - pos + 1,
                    piece.len() as int,
                ));
            }
        }
        let v = parse_i32_range(s, pos, k);
        match v {
            None => {
                return None;
            },
            Some(v) => {
                proof {
                    assert(out@.push(v) =~= out@ + seq![v]);
                    assert forall|p: Seq<i32>| (out@ + seq![v]) + p =~= out@ + (seq![v] + p) by {}
                }
                out.push(v);
            },
        }
        if k == end {
            proof {
                assert(piece =~= piece.subrange(0, k - pos));
                assert(out@ =~= out@ + Seq::<i32>::empty());
            }
            return Some(out);
        }
        pos = k + 1;
    }
}

/// Parses one normalised line into an instruction.
pub fn parse_instruction(line: &Vec<char>) -> (r: Result<Instruction, ParseErrorKind>)
    ensures
        match parse_line(line@) {
            Ok(ins) => r is Ok && r->Ok_0@ == ins && r->Ok_0.wf(),
            Err(e) => r == Err::<Instruction, ParseErrorKind>(e),
        },
{
    if line.len() == 0 {
        return Err(ParseErrorKind::UnknownInstruction);
    }
    let kind = match InstructionType::from_code(line[0]) {
        Some(k) => k,
        None => {
            return Err(ParseErrorKind::UnknownInstruction);
        },
    };
    if line.len() < 2 || line[1] != '(' {
        return Err(ParseErrorKind::MissingOpenParen);
    }
    let close = find_in(line, 2, line.len(), ')');
    let ghost rest = line@.subrange(2, line@.len() as int);
    if close >= line.len() {
        return Err(ParseErrorKind::MissingCloseParen);
    }
    proof {
        assert(line@.subrange(2, close as int) =~= rest.subrange(0, close - 2));
    }
    let args = match parse_args_range(line, 2, close) {
        Some(a) => a,
        None => {
            return Err(ParseErrorKind::InvalidNumber);
        },
    };
    let count = match kind {
        InstructionType::Jump => 3,
        InstructionType::Successor => 1,
        InstructionType::Transfer => 2,
        InstructionType::Zero => 1,
    };
    if args.len() != count {
        return Err(ParseErrorKind::WrongArgumentCount);
    }
    proof {
        assert(parse_line(line@) == if args_fit(kind, args@) {
            Ok::<(InstructionType, Seq<i32>), ParseErrorKind>((kind, args@))
        } else {
            Err(ParseErrorKind::ArgumentOutOfRange)
        });
    }
    let mut i: usize = 0;
    while i < args.len()
        invariant
            args@.len() == arity(kind),
            parse_line(line@) == if args_fit(kind, args@) {
                Ok::<(InstructionType, Seq<i32>), ParseErrorKind>((kind, args@))
            } else {
                Err(ParseErrorKind::ArgumentOutOfRange)
            },
            i <= args@.len(),
            forall|j: int| 0 <= j < i ==> args@[j] >= 1,
        decreases args@.len() - i,
    {
        if args[i] < 1 {
            proof {
                assert(args@[i as int] < 1);
                assert(!args_fit(kind, args@));
            }
            return Err(ParseErrorKind::ArgumentOutOfRange);
        }
        i = i + 1;
    }
    Ok(Instruction::new(kind, args))
}

/// Turns program text into a machine with empty registers, at the first
/// instruction.
pub struct UrmParser {
    program_string: String,
}

impl UrmParser {
    /// The program text.
    pub closed spec fn text(&self) -> Seq<char> {
        self.program_string@
    }

    pub fn new(string: String) -> (r: UrmParser)
        ensures
            r.text() == string@,
    {
        UrmParser { program_string: string }
    }

    /// Loads the program; refused, with the first bad line, where a line is
    /// not an instruction.
    pub fn parse(&self) -> (r: Result<Machine, ParseError>)
        ensures
            match parse_program(self.text()) {
                Ok(p) => r is Ok && r->Ok_0.wf() && r->Ok_0.program() == p
                    && r->Ok_0.regs().len() == 0 && r->Ok_0.pc() == 0,
                Err((line, kind)) => r == Err::<Machine, ParseError>(
                    (ParseError { line: line as usize, kind }),
                ),
            },
    {
        let chars = chars_of(self.program_string.as_str());
        let ghost text = chars@;
        let n = chars.len();
        let mut instructions: Vec<Instruction> = Vec::new();
        if n == 0 {
            proof {
                assert(lines_of(text) =~= Seq::<Seq<char>>::empty());
            }
            return Ok(Machine::new(Vec::new(), instructions));
        }
        let mut pos: usize = 0;
        let mut line_no: usize = 1;
        proof {
            assert(text.subrange(0, n as int) =~= text);
            assert(instructions@.map_values(|ins: Instruction| ins@) =~= Seq::<
                (InstructionType, Seq<i32>),
            >::empty());
        }
        loop
            invariant
                text == chars@,
                text == self.text(),
                n == chars@.len(),
                pos < n,
                1 <= line_no <= pos + 1,
                2 * instructions@.len() <= pos + 1,
                forall|i: int| 0 <= i < instructions@.len() ==> #[trigger] instructions@[i].wf(),
                parse_program(text) == prefixed(
                    instructions@.map_values(|ins: Instruction| ins@),
                    parse_lines(lines_of(text.subrange(pos as int, n as int)), line_no as nat),
                ),
            decreases n - pos,
        {
            let k = find_in(&chars, pos, n, '\n');
            let ghost t = text.subrange(pos as int, n as int);
            let ghost lines = lines_of(t);
            proof {
                lemma_first_index_bounds(t, '\n');
                assert(text.subrange(pos as int, k as int) =~= t.subrange(0, k - pos));
                if k < n {
                    assert(text.subrange(k + 1, n as int) =~= t.subrange(k - pos + 1, t.len() as int));
                    assert(lines[0] == text.subrange(pos as int, k as int));
                    assert(lines.drop_first() =~= lines_of(text.subrange(k + 1, n as int)));
                } else {
                    assert(t.subrange(0, k - pos) =~= t);
                    assert(lines[0] == text.subrange(pos as int, k as int));
                    assert(lines.drop_first() =~= Seq::<Seq<char>>::empty());
                }
            }
            let stripped = strip_range(&chars, pos, k);
            let mut upper = uppercase(&stripped);
            let semi = find_in(&upper, 0, upper.len(), ';');
            proof {
                assert(upper@.subrange(0, upper@.len() as int) =~= upper@);
            }
            upper.truncate(semi);
            let ghost done = instructions@.map_values(|ins: Instruction| ins@);
            proof {
                assert(upper@ == normalize(lines[0]));
            }
            if semi > 0 {
                proof {
                    lemma_strip_whitespace_len(text.subrange(pos as int, k as int));
                }
                match parse_instruction(&upper) {
                    Err(e) => {
                        proof {
                            assert(parse_line(upper@) == Err::<(InstructionType, Seq<i32>), ParseErrorKind>(
                                e,
                            ));
                        }
                        return Err(ParseError { line: line_no, kind: e });
                    },
                    Ok(ins) => {
                        instructions.push(ins);
                        proof {
                            let f = |i: Instruction| i@;
                            assert(instructions@.map_values(f) =~= done.push(ins@));
                            assert forall|p: Seq<(InstructionType, Seq<i32>)>| #[trigger] (
                            done.push(ins@) + p) =~= done + (seq![ins@] + p) by {}
                        }
                    },
                }
            }
            if k >= n || k + 1 >= n {
                proof {
                    if k < n {
                        let e = text.subrange(k + 1, n as int);
                        assert(e.len() == 0);
                        assert(lines_of(e) == Seq::<Seq<char>>::empty());
                    }
                    assert(lines.drop_first() == Seq::<Seq<char>>::empty());
                    assert(parse_lines(lines.drop_first(), line_no as nat + 1) == Ok::<Seq<(InstructionType, Seq<i32>)>, (nat, ParseErrorKind)>(Seq::empty()));
                    let v = instructions@.map_values(|ins: Instruction| ins@);
                    assert(v + Seq::empty() =~= v);
                }
                return Ok(Machine::new(Vec::new(), instructions));
            }
            pos = k + 1;
            line_no = line_no + 1;
        }
    }
}

proof fn lemma_digits(n: nat)
    ensures
        digits(n).len() > 0,
        all_digits(digits(n)),
        digits_value(digits(n)) == n,
    decreases n,
{
    let d = digits(n);
    if n < 10 {
        assert(d.drop_last() =~= Seq::<char>::empty());
        assert(d.last() == digit_char(n as int));
        assert(digit_value(d.last()) == n);
        assert(digits_value(d.drop_last()) == 0);
    } else {
        lemma_digits(n / 10);
        assert(d.drop_last() =~= digits(n / 10));
        assert(d.last() == digit_char((n % 10) as int));
        assert(digit_value(d.last()) == n % 10);
        assert(digits_value(d.drop_last()) == n / 10);
        assert(n == (n / 10) * 10 + n % 10);
        assert forall|j: int| 0 <= j < d.len() implies is_digit(#[trigger] d[j]) by {
            if j < d.len() - 1 {
                assert(d[j] == digits(n / 10)[j]);
            }
        }
    }
}

proof fn lemma_decimal(v: i32)
    ensures
        parse_i32(decimal(v as int)) == Some(v),
        forall|j: int|
            0 <= j < decimal(v as int).len() ==> #[trigger] decimal(v as int)[j] != ','
                && decimal(v as int)[j] != ')',
{
    if v < 0 {
        let m = (-v) as nat;
        lemma_digits(m);
        let s = decimal(v as int);
        assert(s.drop_first() =~= digits(m));
        assert forall|j: int| 0 <= j < s.len() implies #[trigger] s[j] != ',' && s[j] != ')' by {
            if j > 0 {
                assert(s[j] == digits(m)[j - 1]);
                assert(is_digit(digits(m)[j - 1]));
            }
        }
    } else {
        let m = v as nat;
        lemma_digits(m);
        let s = decimal(v as int);
        assert(is_digit(s[0]));
        assert forall|j: int| 0 <= j < s.len() implies #[trigger] s[j] != ',' && s[j] != ')' by {
            assert(is_digit(s[j]));
        }
    }
}

proof fn lemma_join_front(a: Seq<i32>)
    requires
        a.len() >= 2,
    ensures
        join_args(a) == decimal(a[0] as int) + seq![','] + join_args(a.drop_first()),
    decreases a.len(),
{
    if a.len() == 2 {
        assert(a.drop_last().len() == 1);
        assert(a.drop_first().len() == 1);
        assert(join_args(a.drop_last()) == decimal(a[0] as int));
        assert(join_args(a.drop_first()) == decimal(a[1] as int));
        assert(a.last() == a[1]);
    } else {
        lemma_join_front(a.drop_last());
        assert(a.drop_last().drop_first() =~= a.drop_first().drop_last());
        assert(a.drop_first().last() == a.last());
        assert(a.drop_last()[0] == a[0]);
        let x = decimal(a[0] as int);
        let m = join_args(a.drop_last().drop_first());
        let y = decimal(a.last() as int);
        assert(join_args(a.drop_first()) == m + seq![','] + y);
        assert(join_args(a) == (x + seq![','] + m) + seq![','] + y);
        assert((x + seq![','] + m) + seq![','] + y =~= x + seq![','] + (m + seq![','] + y));
    }
}

proof fn lemma_join_args_no_paren(a: Seq<i32>)
    ensures
        forall|j: int| 0 <= j < join_args(a).len() ==> #[trigger] join_args(a)[j] != ')',
    decreases a.len(),
{
    if a.len() == 1 {
        lemma_decimal(a[0]);
    } else if a.len() >= 2 {
        let p = a.drop_last();
        lemma_join_args_no_paren(p);
        lemma_decimal(a.last());
        let x = join_args(p);
        let y = decimal(a.last() as int);
        let s = join_args(a);
        assert(s == x + seq![','] + y);
        assert forall|j: int| 0 <= j < s.len() implies #[trigger] s[j] != ')' by {
            if j < x.len() {
                assert(s[j] == x[j]);
            } else if j > x.len() {
                assert(s[j] == y[j - x.len() - 1]);
            }
        }
    }
}

proof fn lemma_join_args(a: Seq<i32>)
    requires
        a.len() >= 1,
    ensures
        parse_args(join_args(a)) == Some(a),
    decreases a.len(),
{
    lemma_decimal(a[0]);
    let d = decimal(a[0] as int);
    if a.len() == 1 {
        lemma_first_index(d, ',', d.len() as int);
        assert(seq![a[0]] =~= a);
    } else {
        lemma_join_front(a);
        let rest = a.drop_first();
        lemma_join_args(rest);
        let s = join_args(a);
        assert(s == d + seq![','] + join_args(rest));
        assert forall|j: int| 0 <= j < d.len() implies s[j] != ',' by {
            assert(s[j] == d[j]);
        }
        lemma_first_index(s, ',', d.len() as int);
        assert(s.subrange(0, d.len() as int) =~= d);
        assert(s.subrange(d.len() as int + 1, s.len() as int) =~= join_args(rest));
        assert(seq![a[0]] + rest =~= a);
    }
}

/// Rendering an instruction whose arguments fit its kind and parsing the
/// text back gives the same kind and arguments.
pub proof fn lemma_render_parse_round_trip(ins: (InstructionType, Seq<i32>))
    requires
        args_fit(ins.0, ins.1),
    ensures
        parse_line(render(ins)) == Ok::<(InstructionType, Seq<i32>), ParseErrorKind>(ins),
{
    let l = render(ins);
    let j = join_args(ins.1);
    lemma_join_args(ins.1);
    lemma_join_args_no_paren(ins.1);
    let rest = l.subrange(2, l.len() as int);
    assert(rest =~= j + seq![')']);
    lemma_first_index(rest, ')', j.len() as int);
    assert(rest.subrange(0, j.len() as int) =~= j);
    assert(l[0] == code_of(ins.0));
    assert(l[1] == '(');
}

} // verus!
