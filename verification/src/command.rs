//! A command: one line of a program, split into tokens. The first token is
//! the opcode; the others are its arguments.

use crate::error::ErrorKind;
use crate::expression::{is_operator, Operation};
use crate::text::{decimal_digits, integer_digits, integer_text, natural_text, same_text, texts};
use crate::turtle::{Turtle, TurtleView};
use crate::variables::Variables;
use vstd::prelude::*;

verus! {

#[derive(Debug)]
pub struct Command {
    pub arg: Vec<String>,
}

impl View for Command {
    type V = Seq<Seq<char>>;

    open spec fn view(&self) -> Seq<Seq<char>> {
        texts(self.arg@)
    }
}

/// The commands of a program, each as its tokens.
pub open spec fn program_view(commands: Seq<Command>) -> Seq<Seq<Seq<char>>> {
    Seq::new(commands.len(), |i: int| commands[i]@)
}

/// Whether every command of a program has an opcode.
pub open spec fn all_have_opcode(program: Seq<Seq<Seq<char>>>) -> bool {
    forall|i: int| 0 <= i < program.len() ==> (#[trigger] program[i]).len() > 0
}

/// Whether a command's argument holds an expression.
#[derive(Clone, Copy, Debug, PartialEq, Eq, Structural)]
pub enum Classification {
    ExpressionExpected,
    NoExpression,
}

/// The opcodes that take one value.
pub open spec fn takes_one_value(opcode: Seq<char>) -> bool {
    ||| opcode == "FORWARD"@
    ||| opcode == "BACK"@
    ||| opcode == "LEFT"@
    ||| opcode == "RIGHT"@
    ||| opcode == "SETPENCOLOR"@
    ||| opcode == "TURN"@
    ||| opcode == "SETHEADING"@
    ||| opcode == "SETX"@
    ||| opcode == "SETY"@
}

/// The opcodes that take a name and a value.
pub open spec fn takes_name_and_value(opcode: Seq<char>) -> bool {
    opcode == "MAKE"@ || opcode == "ADDASSIGN"@
}

/// What the validator makes of a command, which has an opcode.
///
/// `PENUP`, `PENDOWN` and `END` take nothing, `TO` at least a name. `IF` and
/// `WHILE` take at least two tokens of which the last is `[`, and hold an
/// expression. Where one value is due and an operator stands in its place,
/// an expression stands there, of however many tokens; else the value is
/// one token. Any other opcode takes what it is given.
pub open spec fn checked(command: Seq<Seq<char>>) -> Result<Classification, ErrorKind> {
    let opcode = command[0];
    let n = command.len();
    if opcode == "PENUP"@ || opcode == "PENDOWN"@ || opcode == "END"@ {
        if n == 1 {
            Ok(Classification::NoExpression)
        } else {
            Err(ErrorKind::InvalidArgumentCount)
        }
    } else if opcode == "TO"@ {
        if n >= 2 {
            Ok(Classification::NoExpression)
        } else {
            Err(ErrorKind::InvalidArgumentCount)
        }
    } else if opcode == "IF"@ || opcode == "WHILE"@ {
        if n < 3 {
            Err(ErrorKind::InvalidArgumentCount)
        } else if command.last() == "["@ {
            Ok(Classification::ExpressionExpected)
        } else {
            Err(ErrorKind::MalformedBlock)
        }
    } else if takes_one_value(opcode) {
        if n >= 2 && is_operator(command[1]) {
            Ok(Classification::ExpressionExpected)
        } else if n == 2 {
            Ok(Classification::NoExpression)
        } else {
            Err(ErrorKind::InvalidArgumentCount)
        }
    } else if takes_name_and_value(opcode) {
        if n >= 3 && is_operator(command[2]) {
            Ok(Classification::ExpressionExpected)
        } else if n == 3 {
            Ok(Classification::NoExpression)
        } else {
            Err(ErrorKind::InvalidArgumentCount)
        }
    } else {
        Ok(Classification::NoExpression)
    }
}

/// The value that stands for one argument token.
///
/// `:name` is the value of the variable `name`, and `"text` is `text`. The
/// queries `XCOR`, `YCOR`, `HEADING` and `COLOR` are what the turtle holds.
/// Operators and `[` stand for themselves. Nothing else is a token.
pub open spec fn resolved_token(
    token: Seq<char>,
    turtle: TurtleView,
    vars: Map<Seq<char>, Seq<char>>,
) -> Result<Seq<char>, ErrorKind> {
    if token.len() > 0 && token[0] == ':' {
        if vars.contains_key(token.skip(1)) {
            Ok(vars[token.skip(1)])
        } else {
            Err(ErrorKind::UndefinedVariable)
        }
    } else if token.len() > 0 && token[0] == '"' {
        Ok(token.skip(1))
    } else if token == "XCOR"@ {
        Ok(turtle.x)
    } else if token == "YCOR"@ {
        Ok(turtle.y)
    } else if token == "HEADING"@ {
        Ok(integer_digits(turtle.heading as int))
    } else if token == "COLOR"@ {
        Ok(decimal_digits(turtle.colour as nat))
    } else if is_operator(token) || token == "["@ {
        Ok(token)
    } else {
        Err(ErrorKind::InvalidToken)
    }
}

/// The value that stands for the token at `place` of a command: the name
/// after `TO` is taken as it is.
pub open spec fn resolved_at(
    command: Seq<Seq<char>>,
    place: int,
    turtle: TurtleView,
    vars: Map<Seq<char>, Seq<char>>,
) -> Result<Seq<char>, ErrorKind> {
    if place == 1 && command[0] == "TO"@ {
        Ok(command[1])
    } else {
        resolved_token(command[place], turtle, vars)
    }
}

/// The values of the arguments before place `end`, or the error of the
/// first argument that has none.
pub open spec fn resolved_up_to(
    command: Seq<Seq<char>>,
    end: int,
    turtle: TurtleView,
    vars: Map<Seq<char>, Seq<char>>,
) -> Result<Seq<Seq<char>>, ErrorKind>
    decreases end,
{
    if end <= 1 {
        Ok(seq![])
    } else {
        match resolved_up_to(command, end - 1, turtle, vars) {
            Ok(values) => match resolved_at(command, end - 1, turtle, vars) {
                Ok(value) => Ok(values.push(value)),
                Err(kind) => Err(kind),
            },
            Err(kind) => Err(kind),
        }
    }
}

/// The resolved tokens of a command, which has an opcode: nothing for a
/// comment, else the values of its arguments.
pub open spec fn resolved(
    command: Seq<Seq<char>>,
    turtle: TurtleView,
    vars: Map<Seq<char>, Seq<char>>,
) -> Result<Seq<Seq<char>>, ErrorKind> {
    if command[0] == "//"@ {
        Ok(seq![])
    } else {
        resolved_up_to(command, command.len() as int, turtle, vars)
    }
}

/// How many commands of a program have the given opcode.
pub open spec fn count_opcode(program: Seq<Seq<Seq<char>>>, opcode: Seq<char>) -> nat
    decreases program.len(),
{
    if program.len() == 0 {
        0
    } else {
        count_opcode(program.drop_last(), opcode) + if program.last()[0] == opcode {
            1nat
        } else {
            0nat
        }
    }
}

/// Whether `opcode` is one of those that take one value.
fn is_one_value_opcode(opcode: &str) -> (r: bool)
    ensures
        r == takes_one_value(opcode@),
{
    same_text(opcode, "FORWARD") || same_text(opcode, "BACK") || same_text(opcode, "LEFT")
        || same_text(opcode, "RIGHT") || same_text(opcode, "SETPENCOLOR") || same_text(
        opcode,
        "TURN",
    ) || same_text(opcode, "SETHEADING") || same_text(opcode, "SETX") || same_text(opcode, "SETY")
}

/// Resolves one argument token.
fn resolve_token(token: &str, turtle: &Turtle, vars: &Variables) -> (r: Result<String, ErrorKind>)
    ensures
        match r {
            Ok(value) => resolved_token(token@, turtle@, vars@) == Ok::<Seq<char>, ErrorKind>(
                value@,
            ),
            Err(kind) => resolved_token(token@, turtle@, vars@) == Err::<Seq<char>, ErrorKind>(
                kind,
            ),
        },
{
    let n = token.unicode_len();
    if n > 0 {
        let first = token.get_char(0);
        if first == ':' || first == '"' {
            let rest = token.substring_char(1, n);
            assert(rest@ =~= token@.skip(1));
            if first == '"' {
                return Ok(String::from_str(rest));
            }
            return match vars.get(rest) {
                Some(value) => Ok(value.clone()),
                None => Err(ErrorKind::UndefinedVariable),
            };
        }
    }
    if same_text(token, "XCOR") {
        Ok(turtle.coords.0.clone())
    } else if same_text(token, "YCOR") {
        Ok(turtle.coords.1.clone())
    } else if same_text(token, "HEADING") {
        Ok(integer_text(turtle.heading))
    } else if same_text(token, "COLOR") {
        Ok(natural_text(turtle.colour))
    } else if Operation::from_token(token).is_some() || same_text(token, "[") {
        Ok(String::from_str(token))
    } else {
        Err(ErrorKind::InvalidToken)
    }
}

impl Command {
    /// Create a new command from the tokens of a line.
    pub fn new(command: Vec<String>) -> (r: Self)
        ensures
            r.arg == command,
    {
        Command { arg: command }
    }

    /// The opcode: the first token, as it was written.
    pub fn first_token(&self) -> (r: &str)
        requires
            self@.len() > 0,
        ensures
            r@ == self@[0],
    {
        self.arg[0].as_str()
    }

    /// Checks that the command has the number of arguments that its opcode
    /// takes, and says whether an expression stands among them.
    pub fn check_command(&self) -> (r: Result<Classification, ErrorKind>)
        requires
            self@.len() > 0,
        ensures
            r == checked(self@),
    {
        let opcode = self.first_token();
        let n = self.arg.len();
        if same_text(opcode, "PENUP") || same_text(opcode, "PENDOWN")
            || same_text(opcode, "END") {
            if n == 1 {
                Ok(Classification::NoExpression)
            } else {
                Err(ErrorKind::InvalidArgumentCount)
            }
        } else if same_text(opcode, "TO") {
            if n >= 2 {
                Ok(Classification::NoExpression)
            } else {
                Err(ErrorKind::InvalidArgumentCount)
            }
        } else if same_text(opcode, "IF") || same_text(opcode, "WHILE") {
            if n < 3 {
                Err(ErrorKind::InvalidArgumentCount)
            } else if same_text(self.arg[n - 1].as_str(), "[") {
                Ok(Classification::ExpressionExpected)
            } else {
                Err(ErrorKind::MalformedBlock)
            }
        } else if is_one_value_opcode(opcode) {
            if n >= 2 && Operation::from_token(self.arg[1].as_str()).is_some() {
                Ok(Classification::ExpressionExpected)
            } else if n == 2 {
                Ok(Classification::NoExpression)
            } else {
                Err(ErrorKind::InvalidArgumentCount)
            }
        } else if same_text(opcode, "MAKE") || same_text(opcode, "ADDASSIGN") {
            if n >= 3 && Operation::from_token(self.arg[2].as_str()).is_some() {
                Ok(Classification::ExpressionExpected)
            } else if n == 3 {
                Ok(Classification::NoExpression)
            } else {
                Err(ErrorKind::InvalidArgumentCount)
            }
        } else {
            Ok(Classification::NoExpression)
        }
    }

    /// Takes the arguments of the command and puts values in the place of
    /// variables and queries. The opcode is left out.
    pub fn get_tokens(&self, turtle: &Turtle, vars: &Variables) -> (r: Result<
        Vec<String>,
        ErrorKind,
    >)
        requires
            self@.len() > 0,
        ensures
            match r {
                Ok(tokens) => resolved(self@, turtle@, vars@) == Ok::<Seq<Seq<char>>, ErrorKind>(
                    texts(tokens@),
                ),
                Err(kind) => resolved(self@, turtle@, vars@) == Err::<Seq<Seq<char>>, ErrorKind>(
                    kind,
                ),
            },
    {
        let mut tokens: Vec<String> = Vec::new();
        assert(texts(tokens@) =~= seq![]);
        if same_text(self.first_token(), "//") {
            return Ok(tokens);
        }
        let function_name = same_text(self.first_token(), "TO");
        let n = self.arg.len();
        let mut i: usize = 1;
        while i < n
            invariant
                1 <= i <= n == self.arg.len(),
                function_name == (self@[0] == "TO"@),
                self@[0] != "//"@,
                resolved_up_to(self@, i as int, turtle@, vars@) == Ok::<
                    Seq<Seq<char>>,
                    ErrorKind,
                >(texts(tokens@)),
            decreases n - i,
        {
            let ghost so_far = texts(tokens@);
            let value = if function_name && i == 1 {
                self.arg[i].clone()
            } else {
                match resolve_token(self.arg[i].as_str(), turtle, vars) {
                    Ok(value) => value,
                    Err(kind) => {
                        proof {
                            assert(resolved_at(self@, i as int, turtle@, vars@) == Err::<
                                Seq<char>,
                                ErrorKind,
                            >(kind));
                            assert(resolved_up_to(self@, i + 1, turtle@, vars@) == Err::<
                                Seq<Seq<char>>,
                                ErrorKind,
                            >(kind));
                            lemma_resolved_failure(self@, i + 1, n as int, turtle@, vars@);
                        }
                        return Err(kind);
                    },
                }
            };
            tokens.push(value);
            assert(texts(tokens@) =~= so_far.push(value@));
            i += 1;
        }
        Ok(tokens)
    }
}

/// Once an argument has no value, the error stays, whatever follows.
pub proof fn lemma_resolved_failure(
    command: Seq<Seq<char>>,
    failed: int,
    end: int,
    turtle: TurtleView,
    vars: Map<Seq<char>, Seq<char>>,
)
    requires
        failed <= end,
        resolved_up_to(command, failed, turtle, vars) is Err,
    ensures
        resolved_up_to(command, end, turtle, vars) == resolved_up_to(
            command,
            failed,
            turtle,
            vars,
        ),
    decreases end - failed,
{
    if failed < end {
        lemma_resolved_failure(command, failed, end - 1, turtle, vars);
    }
}

/// Checks that the program has as many `TO` lines as `END` lines, and says
/// which are in surplus if it has not.
pub fn check_procedures(commands: &[Command]) -> (r: Result<(), ErrorKind>)
    requires
        all_have_opcode(program_view(commands@)),
    ensures
        r == {
            let to = count_opcode(program_view(commands@), "TO"@);
            let end = count_opcode(program_view(commands@), "END"@);
            if to == end {
                Ok::<(), ErrorKind>(())
            } else if to > end {
                Err(ErrorKind::SurplusProcedureStart)
            } else {
                Err(ErrorKind::SurplusProcedureEnd)
            }
        },
{
    let ghost program = program_view(commands@);
    let mut to: usize = 0;
    let mut end: usize = 0;
    let mut i: usize = 0;
    while i < commands.len()
        invariant
            i <= commands.len(),
            program == program_view(commands@),
            all_have_opcode(program),
            to <= i,
            end <= i,
            to == count_opcode(program.take(i as int), "TO"@),
            end == count_opcode(program.take(i as int), "END"@),
        decreases commands.len() - i,
    {
        proof {
            assert(program.take(i + 1).drop_last() =~= program.take(i as int));
            assert(program.take(i + 1).last() == commands[i as int]@);
            assert(program[i as int].len() > 0);
        }
        let first = commands[i].first_token();
        if same_text(first, "TO") {
            to += 1;
        }
        if same_text(first, "END") {
            end += 1;
        }
        i += 1;
    }
    assert(program.take(commands.len() as int) =~= program);
    if to == end {
        Ok(())
    } else if to > end {
        Err(ErrorKind::SurplusProcedureStart)
    } else {
        Err(ErrorKind::SurplusProcedureEnd)
    }
}

/// Whether a command has a number of arguments that its opcode does not
/// take: any for `PENUP`, `PENDOWN` and `END`, none for `TO`, fewer than
/// two for `IF` and `WHILE`; and where one value is due, or a name and a
/// value, another number, unless an operator stands in the value's place.
pub open spec fn wrong_argument_count(command: Seq<Seq<char>>) -> bool {
    let opcode = command[0];
    let arguments = command.len() - 1;
    ||| (opcode == "PENUP"@ || opcode == "PENDOWN"@ || opcode == "END"@) && arguments != 0
    ||| opcode == "TO"@ && arguments < 1
    ||| (opcode == "IF"@ || opcode == "WHILE"@) && arguments < 2
    ||| takes_one_value(opcode) && arguments != 1 && !(arguments >= 1 && is_operator(command[1]))
    ||| takes_name_and_value(opcode) && arguments != 2 && !(arguments >= 2 && is_operator(
        command[2],
    ))
}

/// The validator fails with `InvalidArgumentCount` on the commands with a
/// wrong number of arguments, and on no others.
pub proof fn lemma_wrong_argument_count_fails(command: Seq<Seq<char>>)
    requires
        command.len() > 0,
    ensures
        checked(command) == Err::<Classification, ErrorKind>(ErrorKind::InvalidArgumentCount)
            <==> wrong_argument_count(command),
{
    reveal_strlit("PENUP");
    reveal_strlit("PENDOWN");
    reveal_strlit("END");
    reveal_strlit("TO");
    reveal_strlit("IF");
    reveal_strlit("WHILE");
    reveal_strlit("FORWARD");
    reveal_strlit("BACK");
    reveal_strlit("LEFT");
    reveal_strlit("RIGHT");
    reveal_strlit("SETPENCOLOR");
    reveal_strlit("TURN");
    reveal_strlit("SETHEADING");
    reveal_strlit("SETX");
    reveal_strlit("SETY");
    reveal_strlit("MAKE");
    reveal_strlit("ADDASSIGN");
    let names = seq![
        "PENUP"@,
        "PENDOWN"@,
        "END"@,
        "TO"@,
        "IF"@,
        "WHILE"@,
        "FORWARD"@,
        "BACK"@,
        "LEFT"@,
        "RIGHT"@,
        "SETPENCOLOR"@,
        "TURN"@,
        "SETHEADING"@,
        "SETX"@,
        "SETY"@,
        "MAKE"@,
        "ADDASSIGN"@,
    ];
    assert forall|i: int, j: int| 0 <= i < j < names.len() implies names[i] != names[j] by {
        if names[i].len() == names[j].len() {
            assert(names[i][0] != names[j][0] || names[i][1] != names[j][1] || names[i][3]
                != names[j][3]);
        }
    }
}

} // verus!
