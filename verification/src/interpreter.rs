//! The execution engine: the program counter, the variables, the procedures
//! and the two stacks by which blocks and calls find their way back.
//!
//! The engine runs one command at a time. A program is a list of commands
//! that does not change during a run, and every jump is to a place in that
//! list.

use crate::command::{all_have_opcode, checked, program_view, resolved, Command};
use crate::error::{ErrorKind, LocError};
use crate::expression::{
    answer_views, boolean_of, evaluate_polish, evaluated, Answer, AnswerView, Evaluation,
    EvaluationView, Operation, Request, RequestView,
};
use crate::text::{
    copy_tokens, decimal_digits, lemma_natural_round_trip, parse_i32, parse_up_to, parsed_i32,
    parsed_up_to, same_text, texts,
};
use crate::turtle::{absolute_direction, PenState, Turtle, TurtleView};
use crate::variables::Variables;
use vstd::prelude::*;

verus! {

/// A procedure that a `TO` line has defined.
#[derive(Debug)]
pub struct Function {
    pub func_name: String,
    /// The names of the parameters, in their order.
    pub func_vars: Vec<String>,
    /// Index of the `TO` line; the body starts on the next line.
    pub func_index: usize,
}

pub struct FunctionView {
    pub name: Seq<char>,
    pub vars: Seq<Seq<char>>,
    pub index: usize,
}

impl View for Function {
    type V = FunctionView;

    open spec fn view(&self) -> FunctionView {
        FunctionView { name: self.func_name@, vars: texts(self.func_vars@), index: self.func_index }
    }
}

/// The `]` that ends a block: the first one from `from` on that is not the
/// end of a block opened on the way. `depth` counts the blocks that are open.
pub open spec fn block_end(program: Seq<Seq<Seq<char>>>, from: int, depth: nat) -> Option<int>
    decreases program.len() - from,
{
    if from < 0 || from >= program.len() {
        None
    } else {
        let opcode = program[from][0];
        if opcode == "WHILE"@ || opcode == "IF"@ {
            block_end(program, from + 1, depth + 1)
        } else if opcode == "]"@ {
            if depth == 0 {
                Some(from)
            } else {
                block_end(program, from + 1, (depth - 1) as nat)
            }
        } else {
            block_end(program, from + 1, depth)
        }
    }
}

/// The first `END` from `from` on.
pub open spec fn procedure_end(program: Seq<Seq<Seq<char>>>, from: int) -> Option<int>
    decreases program.len() - from,
{
    if from < 0 || from >= program.len() {
        None
    } else if program[from][0] == "END"@ {
        Some(from)
    } else {
        procedure_end(program, from + 1)
    }
}

/// Where a scan starts that counts its places from `start` and looks only
/// at those after `index`.
pub open spec fn first_place_after(start: int, index: int) -> int {
    if index >= start {
        index - start + 1
    } else {
        0
    }
}

pub proof fn lemma_block_end_bounds(program: Seq<Seq<Seq<char>>>, from: int, depth: nat)
    ensures
        match block_end(program, from, depth) {
            Some(end) => 0 <= from <= end < program.len() && program[end][0] == "]"@,
            None => true,
        },
    decreases program.len() - from,
{
    if 0 <= from < program.len() {
        let opcode = program[from][0];
        if opcode == "WHILE"@ || opcode == "IF"@ {
            lemma_block_end_bounds(program, from + 1, depth + 1);
        } else if opcode == "]"@ {
            if depth > 0 {
                lemma_block_end_bounds(program, from + 1, (depth - 1) as nat);
            }
        } else {
            lemma_block_end_bounds(program, from + 1, depth);
        }
    }
}

pub proof fn lemma_procedure_end_bounds(program: Seq<Seq<Seq<char>>>, from: int)
    ensures
        match procedure_end(program, from) {
            Some(end) => 0 <= from <= end < program.len() && program[end][0] == "END"@,
            None => true,
        },
    decreases program.len() - from,
{
    if 0 <= from < program.len() && program[from][0] != "END"@ {
        lemma_procedure_end_bounds(program, from + 1);
    }
}

/// Finds the `]` that ends the conditional (`IF` or `WHILE`) at `index`.
///
/// The commands are counted from the value that `curr_index` has at the
/// call, so with 0 the counts are indices. The result says whether there is
/// such a `]`, and `curr_index` is then its count; else `curr_index` has
/// gone past the last command.
pub fn find_conditional_end(curr_index: &mut usize, index: &usize, commands: &[Command]) -> (found:
    bool)
    requires
        all_have_opcode(program_view(commands@)),
        *old(curr_index) + commands.len() <= usize::MAX,
    ensures
        match block_end(
            program_view(commands@),
            first_place_after(*old(curr_index) as int, *index as int),
            0,
        ) {
            Some(end) => found && *final(curr_index) == *old(curr_index) + end,
            None => !found && *final(curr_index) == *old(curr_index) + commands.len(),
        },
{
    let ghost program = program_view(commands@);
    let ghost start = *curr_index as int;
    let ghost first = first_place_after(start, *index as int);
    let mut stack: usize = 0;
    let mut i: usize = 0;
    while i < commands.len()
        invariant
            i <= commands.len(),
            program == program_view(commands@),
            all_have_opcode(program),
            start + commands.len() <= usize::MAX,
            start == *old(curr_index),
            *curr_index == start + i,
            first == first_place_after(start, *index as int),
            stack <= i,
            i <= first ==> stack == 0,
            block_end(program, first, 0) == block_end(
                program,
                if i < first {
                    first
                } else {
                    i as int
                },
                stack as nat,
            ),
        decreases commands.len() - i,
    {
        assert(program[i as int] == commands[i as int]@);
        let opcode = commands[i].first_token();
        if *curr_index > *index && (same_text(opcode, "WHILE") || same_text(opcode, "IF")) {
            stack += 1;
        } else if *curr_index > *index && same_text(opcode, "]") {
            if stack == 0 {
                return true;
            }
            stack -= 1;
        }
        *curr_index += 1;
        i += 1;
    }
    false
}

/// Finds the `END` of the procedure whose `TO` line is at `index`: the
/// first `END` after it.
///
/// The commands are counted from the value that `curr_index` has at the
/// call, so with 0 the counts are indices. The result says whether there is
/// such an `END`, and `curr_index` is then its count; else `curr_index` has
/// gone past the last command.
pub fn find_func_end(curr_index: &mut usize, index: &usize, commands: &[Command]) -> (found: bool)
    requires
        all_have_opcode(program_view(commands@)),
        *old(curr_index) + commands.len() <= usize::MAX,
    ensures
        match procedure_end(
            program_view(commands@),
            first_place_after(*old(curr_index) as int, *index as int),
        ) {
            Some(end) => found && *final(curr_index) == *old(curr_index) + end,
            None => !found && *final(curr_index) == *old(curr_index) + commands.len(),
        },
{
    let ghost program = program_view(commands@);
    let ghost start = *curr_index as int;
    let ghost first = first_place_after(start, *index as int);
    let mut i: usize = 0;
    while i < commands.len()
        invariant
            i <= commands.len(),
            program == program_view(commands@),
            all_have_opcode(program),
            start + commands.len() <= usize::MAX,
            start == *old(curr_index),
            *curr_index == start + i,
            first == first_place_after(start, *index as int),
            procedure_end(program, first) == procedure_end(
                program,
                if i < first {
                    first
                } else {
                    i as int
                },
            ),
        decreases commands.len() - i,
    {
        assert(program[i as int] == commands[i as int]@);
        if *curr_index > *index && same_text(commands[i].first_token(), "END") {
            return true;
        }
        *curr_index += 1;
        i += 1;
    }
    false
}

/// The views of a list of procedures.
pub open spec fn function_views(functions: Seq<Function>) -> Seq<FunctionView> {
    Seq::new(functions.len(), |i: int| functions[i]@)
}

/// The procedure that a name stands for: the one defined last under it.
pub open spec fn found_procedure(functions: Seq<FunctionView>, name: Seq<char>) -> Option<int>
    decreases functions.len(),
{
    if functions.len() == 0 {
        None
    } else if functions.last().name == name {
        Some(functions.len() - 1)
    } else {
        found_procedure(functions.drop_last(), name)
    }
}

/// The variables after the first `count` of `names` have been given the
/// values at the same places, one after the other.
pub open spec fn bound(
    vars: Map<Seq<char>, Seq<char>>,
    names: Seq<Seq<char>>,
    values: Seq<Seq<char>>,
    count: nat,
) -> Map<Seq<char>, Seq<char>>
    decreases count,
{
    if count == 0 {
        vars
    } else {
        bound(vars, names, values, (count - 1) as nat).insert(
            names[count - 1],
            values[count - 1],
        )
    }
}

/// The degrees that a motion opcode adds to the heading.
pub open spec fn direction_offset(opcode: Seq<char>) -> Option<int> {
    if opcode == "FORWARD"@ {
        Some(0)
    } else if opcode == "BACK"@ {
        Some(180)
    } else if opcode == "LEFT"@ {
        Some(270)
    } else if opcode == "RIGHT"@ {
        Some(90)
    } else {
        None
    }
}

/// The whole state of a run.
pub struct Interpreter {
    /// The program counter: index of the command to run next.
    pub index: usize,
    pub variables: Variables,
    /// The procedures defined so far, in the order of their definition.
    pub functions: Vec<Function>,
    /// Where to go on from a `]`, for each block that is open.
    pub while_if_stack: Vec<usize>,
    /// The line of the call, for each procedure that is running.
    pub func_stack: Vec<usize>,
    pub turtle: Turtle,
}

/// The state of a run as contracts see it.
pub struct State {
    pub index: usize,
    pub variables: Map<Seq<char>, Seq<char>>,
    pub functions: Seq<FunctionView>,
    pub while_if_stack: Seq<usize>,
    pub func_stack: Seq<usize>,
    pub turtle: TurtleView,
}

impl View for Interpreter {
    type V = State;

    open spec fn view(&self) -> State {
        State {
            index: self.index,
            variables: self.variables@,
            functions: function_views(self.functions@),
            while_if_stack: self.while_if_stack@,
            func_stack: self.func_stack@,
            turtle: self.turtle@,
        }
    }
}

/// What one step comes to.
pub enum Outcome {
    /// Nothing has changed; the step needs the answer to this request.
    Ask(RequestView),
    /// The command has run, and this is the state after it.
    Next(State),
    /// The program has come to its end.
    Halt,
    Fail(ErrorKind),
}

impl State {
    /// Whether every place that the state can jump to lies in a program of
    /// `len` commands.
    pub open spec fn wf(self, len: nat) -> bool {
        &&& self.index <= len
        &&& forall|i: int|
            0 <= i < self.functions.len() ==> (#[trigger] self.functions[i]).index < len
        &&& forall|i: int| 0 <= i < self.func_stack.len() ==> #[trigger] self.func_stack[i] < len
        &&& forall|i: int|
            0 <= i < self.while_if_stack.len() ==> #[trigger] self.while_if_stack[i] <= len
    }

    /// The state with the counter at `index`.
    pub open spec fn at(self, index: int) -> State {
        State { index: index as usize, ..self }
    }

    /// The state with the counter on the next line.
    pub open spec fn advanced(self) -> State {
        self.at(self.index + 1)
    }

    /// `PENUP` and `PENDOWN`.
    pub open spec fn pen_set(self, pen_state: PenState) -> Outcome {
        Outcome::Next(State { turtle: TurtleView { pen_state, ..self.turtle }, ..self.advanced() })
    }

    /// `SETPENCOLOR`: the value is a whole number from 0 to 16.
    pub open spec fn colour_set(self, tokens: Seq<Seq<char>>) -> Outcome {
        if tokens.len() == 0 {
            Outcome::Fail(ErrorKind::InvalidArgumentCount)
        } else {
            match parsed_up_to(tokens[0], 16) {
                Some(colour) => Outcome::Next(
                    State { turtle: TurtleView { colour, ..self.turtle }, ..self.advanced() },
                ),
                None => Outcome::Fail(ErrorKind::InvalidColor),
            }
        }
    }

    /// `FORWARD`, `BACK`, `LEFT` and `RIGHT`: the turtle moves over the
    /// distance that the value gives, `offset` degrees to the right of its
    /// heading; the direction has to be a 32-bit integer. The caller moves
    /// the turtle and answers with the new position.
    pub open spec fn travelled(
        self,
        offset: int,
        tokens: Seq<Seq<char>>,
        answer: Option<AnswerView>,
    ) -> Outcome {
        if tokens.len() == 0 {
            Outcome::Fail(ErrorKind::InvalidArgumentCount)
        } else {
            match absolute_direction(self.turtle.heading as int, offset) {
                None => Outcome::Fail(ErrorKind::InvalidValue),
                Some(direction) => match answer {
                    None => Outcome::Ask(
                        RequestView::Travel {
                            x: self.turtle.x,
                            y: self.turtle.y,
                            direction,
                            distance: tokens[0],
                            pen_state: self.turtle.pen_state,
                            colour: self.turtle.colour,
                        },
                    ),
                    Some(AnswerView::Position(x, y)) => Outcome::Next(
                        State { turtle: TurtleView { x, y, ..self.turtle }, ..self.advanced() },
                    ),
                    Some(_) => Outcome::Fail(ErrorKind::NotANumber),
                },
            }
        }
    }

    /// `TURN`: the value is a whole number of degrees, which is added to
    /// the heading. The sum has to be a 32-bit integer.
    pub open spec fn turned(self, tokens: Seq<Seq<char>>) -> Outcome {
        if tokens.len() == 0 {
            Outcome::Fail(ErrorKind::InvalidArgumentCount)
        } else {
            match parsed_i32(tokens[0]) {
                Some(turn) => if i32::MIN <= self.turtle.heading + turn <= i32::MAX {
                    Outcome::Next(
                        State {
                            turtle: TurtleView {
                                heading: (self.turtle.heading + turn) as i32,
                                ..self.turtle
                            },
                            ..self.advanced()
                        },
                    )
                } else {
                    Outcome::Fail(ErrorKind::InvalidValue)
                },
                None => Outcome::Fail(ErrorKind::NotANumber),
            }
        }
    }

    /// `SETHEADING`: the value is a whole number of degrees.
    pub open spec fn heading_set(self, tokens: Seq<Seq<char>>) -> Outcome {
        if tokens.len() == 0 {
            Outcome::Fail(ErrorKind::InvalidArgumentCount)
        } else {
            match parsed_i32(tokens[0]) {
                Some(heading) => Outcome::Next(
                    State { turtle: TurtleView { heading, ..self.turtle }, ..self.advanced() },
                ),
                None => Outcome::Fail(ErrorKind::NotANumber),
            }
        }
    }

    /// `SETX` and `SETY`: the value is a real number. The caller reads it
    /// and answers with the number written out.
    pub open spec fn coordinate_set(
        self,
        vertical: bool,
        tokens: Seq<Seq<char>>,
        answer: Option<AnswerView>,
    ) -> Outcome {
        if tokens.len() == 0 {
            Outcome::Fail(ErrorKind::InvalidArgumentCount)
        } else {
            match answer {
                None => Outcome::Ask(RequestView::Canonical(tokens[0])),
                Some(AnswerView::Number(text)) => Outcome::Next(
                    State {
                        turtle: if vertical {
                            TurtleView { y: text, ..self.turtle }
                        } else {
                            TurtleView { x: text, ..self.turtle }
                        },
                        ..self.advanced()
                    },
                ),
                Some(_) => Outcome::Fail(ErrorKind::NotANumber),
            }
        }
    }

    /// `MAKE`: the variable gets the value, written out again if it is a
    /// real number and as it stands if it is `TRUE` or `FALSE`.
    pub open spec fn made(self, tokens: Seq<Seq<char>>, answer: Option<AnswerView>) -> Outcome {
        if tokens.len() < 2 {
            Outcome::Fail(ErrorKind::InvalidArgumentCount)
        } else {
            match answer {
                None => Outcome::Ask(RequestView::Canonical(tokens[1])),
                Some(AnswerView::Number(text)) => Outcome::Next(
                    State { variables: self.variables.insert(tokens[0], text), ..self.advanced() },
                ),
                Some(_) => if boolean_of(tokens[1]) is Some {
                    Outcome::Next(
                        State {
                            variables: self.variables.insert(tokens[0], tokens[1]),
                            ..self.advanced()
                        },
                    )
                } else {
                    Outcome::Fail(ErrorKind::InvalidValue)
                },
            }
        }
    }

    /// `ADDASSIGN`: the variable, which has a value, gets the sum of that
    /// value and the one given. The caller adds them.
    pub open spec fn added(self, tokens: Seq<Seq<char>>, answer: Option<AnswerView>) -> Outcome {
        if tokens.len() < 2 {
            Outcome::Fail(ErrorKind::InvalidArgumentCount)
        } else if !self.variables.contains_key(tokens[0]) {
            Outcome::Fail(ErrorKind::UndefinedVariable)
        } else {
            match answer {
                None => Outcome::Ask(
                    RequestView::Arithmetic(Operation::Add, self.variables[tokens[0]], tokens[1]),
                ),
                Some(AnswerView::Number(text)) => Outcome::Next(
                    State { variables: self.variables.insert(tokens[0], text), ..self.advanced() },
                ),
                Some(_) => Outcome::Fail(ErrorKind::NotANumber),
            }
        }
    }

    /// Where the `]` at `end` leads to: back to the line under the counter
    /// for a `WHILE`, on to the line after the `]` for an `IF`.
    pub open spec fn resume_place(self, end: int, looping: bool) -> usize {
        if looping {
            self.index
        } else {
            (end + 1) as usize
        }
    }

    /// `IF` and `WHILE`: the block ends at the matching `]`. On `FALSE`
    /// the run goes on after it. On `TRUE` it goes on with the next line,
    /// and the `]` will lead to the line after it for an `IF` and back to
    /// the `WHILE` line for a `WHILE`.
    pub open spec fn block_entered(
        self,
        program: Seq<Seq<Seq<char>>>,
        tokens: Seq<Seq<char>>,
        looping: bool,
    ) -> Outcome {
        if tokens.len() == 0 {
            Outcome::Fail(ErrorKind::InvalidArgumentCount)
        } else {
            match block_end(program, self.index + 1, 0) {
                None => Outcome::Fail(ErrorKind::UnterminatedBlock),
                Some(end) => match boolean_of(tokens[0]) {
                    Some(false) => Outcome::Next(self.at(end + 1)),
                    Some(true) => Outcome::Next(
                        State {
                            while_if_stack: self.while_if_stack.push(
                                self.resume_place(end, looping),
                            ),
                            ..self.advanced()
                        },
                    ),
                    None => Outcome::Fail(ErrorKind::NotABoolean),
                },
            }
        }
    }

    /// `]`: the run goes on where the innermost open block says; on the
    /// next line if no block is open.
    pub open spec fn block_left(self) -> Outcome {
        if self.while_if_stack.len() == 0 {
            Outcome::Next(self.advanced())
        } else {
            Outcome::Next(
                State {
                    while_if_stack: self.while_if_stack.drop_last(),
                    ..self.at(self.while_if_stack.last() as int)
                },
            )
        }
    }

    /// `TO`: the procedure is added to those defined, with the first token
    /// as its name and the others as its parameters, and the run goes on
    /// after the first `END` that follows.
    pub open spec fn defined(self, program: Seq<Seq<Seq<char>>>, tokens: Seq<Seq<char>>) -> Outcome {
        if tokens.len() == 0 {
            Outcome::Fail(ErrorKind::InvalidArgumentCount)
        } else {
            match procedure_end(program, self.index + 1) {
                None => Outcome::Fail(ErrorKind::UnterminatedProcedure),
                Some(end) => Outcome::Next(
                    State {
                        functions: self.functions.push(
                            FunctionView { name: tokens[0], vars: tokens.skip(1), index: self.index },
                        ),
                        ..self.at(end + 1)
                    },
                ),
            }
        }
    }

    /// `END`: the run goes on after the line of the innermost call; on the
    /// next line if no procedure is running.
    pub open spec fn returned(self) -> Outcome {
        if self.func_stack.len() == 0 {
            Outcome::Next(self.advanced())
        } else {
            Outcome::Next(
                State {
                    func_stack: self.func_stack.drop_last(),
                    ..self.at(self.func_stack.last() + 1)
                },
            )
        }
    }

    /// A call of the procedure `name`: each parameter becomes a variable
    /// with the argument at its place as value, and the run goes on with
    /// the procedure's body. Arguments beyond the parameters are not read.
    pub open spec fn called(self, name: Seq<char>, tokens: Seq<Seq<char>>) -> Outcome {
        match found_procedure(self.functions, name) {
            None => Outcome::Fail(ErrorKind::UndefinedProcedure),
            Some(place) => {
                let function = self.functions[place];
                if tokens.len() < function.vars.len() {
                    Outcome::Fail(ErrorKind::MissingArgument)
                } else {
                    Outcome::Next(
                        State {
                            variables: bound(
                                self.variables,
                                function.vars,
                                tokens,
                                function.vars.len(),
                            ),
                            func_stack: self.func_stack.push(self.index),
                            ..self.at(function.index + 1)
                        },
                    )
                }
            },
        }
    }

    /// What the command under the counter does, given its resolved and
    /// evaluated tokens and the answer that the caller has for it, if any.
    pub open spec fn dispatched(
        self,
        program: Seq<Seq<Seq<char>>>,
        tokens: Seq<Seq<char>>,
        answer: Option<AnswerView>,
    ) -> Outcome {
        let opcode = program[self.index as int][0];
        if opcode == "//"@ {
            Outcome::Next(self.advanced())
        } else if opcode == "PENUP"@ {
            self.pen_set(PenState::Up)
        } else if opcode == "PENDOWN"@ {
            self.pen_set(PenState::Down)
        } else if opcode == "SETPENCOLOR"@ {
            self.colour_set(tokens)
        } else if direction_offset(opcode) is Some {
            self.travelled(direction_offset(opcode).unwrap(), tokens, answer)
        } else if opcode == "TURN"@ {
            self.turned(tokens)
        } else if opcode == "SETHEADING"@ {
            self.heading_set(tokens)
        } else if opcode == "SETX"@ {
            self.coordinate_set(false, tokens, answer)
        } else if opcode == "SETY"@ {
            self.coordinate_set(true, tokens, answer)
        } else if opcode == "MAKE"@ {
            self.made(tokens, answer)
        } else if opcode == "ADDASSIGN"@ {
            self.added(tokens, answer)
        } else if opcode == "IF"@ {
            self.block_entered(program, tokens, false)
        } else if opcode == "WHILE"@ {
            self.block_entered(program, tokens, true)
        } else if opcode == "]"@ {
            self.block_left()
        } else if opcode == "TO"@ {
            self.defined(program, tokens)
        } else if opcode == "END"@ {
            self.returned()
        } else {
            self.called(opcode, tokens)
        }
    }

    /// One step of a run.
    ///
    /// Past the last command the run halts, which is an error while a block
    /// is open. Else the command under the counter is validated, its
    /// arguments are resolved and the expression among them is evaluated,
    /// and then the command does its work. `answers` holds what the caller
    /// has found for this command so far: first what the expression needs,
    /// in the order of its reduction, then what the command itself needs.
    pub open spec fn stepped(self, program: Seq<Seq<Seq<char>>>, answers: Seq<AnswerView>) -> Outcome {
        if self.index >= program.len() {
            if self.while_if_stack.len() == 0 {
                Outcome::Halt
            } else {
                Outcome::Fail(ErrorKind::UnbalancedControlFlow)
            }
        } else {
            let command = program[self.index as int];
            match checked(command) {
                Err(kind) => Outcome::Fail(kind),
                Ok(_) => match resolved(command, self.turtle, self.variables) {
                    Err(kind) => Outcome::Fail(kind),
                    Ok(tokens) => match evaluated(tokens, answers) {
                        Err(kind) => Outcome::Fail(kind),
                        Ok(EvaluationView::Pending(request)) => Outcome::Ask(request),
                        Ok(EvaluationView::Complete(values, used)) => self.dispatched(
                            program,
                            values,
                            if used < answers.len() {
                                Some(answers[used as int])
                            } else {
                                None
                            },
                        ),
                    },
                },
            }
        }
    }
}

/// How far a step has come.
#[derive(Debug, PartialEq, Eq)]
pub enum Progress {
    /// Nothing has changed. The step is to be made again, with the answer
    /// to this request after the answers given so far.
    Ask(Request),
    /// The command has run. The next step starts without answers.
    Stepped,
    /// The program has come to its end.
    Finished,
}

/// Whether a step's result and the states before and after it are what
/// `outcome` says. Only a step that runs its command changes the state.
pub open spec fn agrees(
    result: Result<Progress, ErrorKind>,
    before: State,
    after: State,
    outcome: Outcome,
) -> bool {
    match result {
        Ok(Progress::Ask(request)) => outcome == Outcome::Ask(request@) && after == before,
        Ok(Progress::Stepped) => outcome == Outcome::Next(after),
        Ok(Progress::Finished) => outcome == Outcome::Halt && after == before,
        Err(kind) => outcome == Outcome::Fail(kind) && after == before,
    }
}

/// The view of an answer that may be missing.
pub open spec fn answer_view(answer: Option<&Answer>) -> Option<AnswerView> {
    match answer {
        Some(a) => Some(a@),
        None => None,
    }
}

impl Interpreter {
    /// The state at the start of a run: the counter on the first command,
    /// no variables, no procedures, nothing open.
    pub fn new(turtle: Turtle) -> (r: Self)
        ensures
            r@ == (State {
                index: 0,
                variables: Map::empty(),
                functions: Seq::empty(),
                while_if_stack: Seq::empty(),
                func_stack: Seq::empty(),
                turtle: turtle@,
            }),
    {
        let r = Interpreter {
            index: 0,
            variables: Variables::new(),
            functions: Vec::new(),
            while_if_stack: Vec::new(),
            func_stack: Vec::new(),
            turtle,
        };
        assert(r@.functions =~= Seq::empty());
        r
    }

    fn set_pen(&mut self, pen_state: PenState) -> (r: Result<Progress, ErrorKind>)
        requires
            old(self).index < usize::MAX,
        ensures
            agrees(r, old(self)@, final(self)@, old(self)@.pen_set(pen_state)),
    {
        self.turtle.change_penstate(pen_state);
        self.index = self.index + 1;
        Ok(Progress::Stepped)
    }

    fn set_colour(&mut self, tokens: &Vec<String>) -> (r: Result<Progress, ErrorKind>)
        requires
            old(self).index < usize::MAX,
        ensures
            agrees(r, old(self)@, final(self)@, old(self)@.colour_set(texts(tokens@))),
    {
        if tokens.len() == 0 {
            return Err(ErrorKind::InvalidArgumentCount);
        }
        match parse_up_to(tokens[0].as_str(), 16) {
            Some(colour) => {
                self.turtle.change_colour(colour);
                self.index = self.index + 1;
                Ok(Progress::Stepped)
            },
            None => Err(ErrorKind::InvalidColor),
        }
    }

    fn travel(&mut self, offset: i32, tokens: &Vec<String>, answer: Option<&Answer>) -> (r: Result<
        Progress,
        ErrorKind,
    >)
        requires
            old(self).index < usize::MAX,
        ensures
            agrees(
                r,
                old(self)@,
                final(self)@,
                old(self)@.travelled(offset as int, texts(tokens@), answer_view(answer)),
            ),
    {
        if tokens.len() == 0 {
            return Err(ErrorKind::InvalidArgumentCount);
        }
        let direction = match self.turtle.direction(offset) {
            Some(direction) => direction,
            None => {
                return Err(ErrorKind::InvalidValue);
            },
        };
        match answer {
            None => Ok(
                Progress::Ask(
                    Request::Travel {
                        x: self.turtle.coords.0.clone(),
                        y: self.turtle.coords.1.clone(),
                        direction,
                        distance: tokens[0].clone(),
                        pen_state: self.turtle.pen_state,
                        colour: self.turtle.colour,
                    },
                ),
            ),
            Some(Answer::Position(x, y)) => {
                self.turtle.change_x(x.clone());
                self.turtle.change_y(y.clone());
                self.index = self.index + 1;
                Ok(Progress::Stepped)
            },
            Some(_) => Err(ErrorKind::NotANumber),
        }
    }

    fn turn(&mut self, tokens: &Vec<String>) -> (r: Result<Progress, ErrorKind>)
        requires
            old(self).index < usize::MAX,
        ensures
            agrees(r, old(self)@, final(self)@, old(self)@.turned(texts(tokens@))),
    {
        if tokens.len() == 0 {
            return Err(ErrorKind::InvalidArgumentCount);
        }
        match parse_i32(tokens[0].as_str()) {
            Some(turn) => match self.turtle.heading.checked_add(turn) {
                Some(_) => {
                    self.turtle.turn(turn);
                    self.index = self.index + 1;
                    Ok(Progress::Stepped)
                },
                None => Err(ErrorKind::InvalidValue),
            },
            None => Err(ErrorKind::NotANumber),
        }
    }

    fn set_heading(&mut self, tokens: &Vec<String>) -> (r: Result<Progress, ErrorKind>)
        requires
            old(self).index < usize::MAX,
        ensures
            agrees(r, old(self)@, final(self)@, old(self)@.heading_set(texts(tokens@))),
    {
        if tokens.len() == 0 {
            return Err(ErrorKind::InvalidArgumentCount);
        }
        match parse_i32(tokens[0].as_str()) {
            Some(heading) => {
                self.turtle.change_heading(heading);
                self.index = self.index + 1;
                Ok(Progress::Stepped)
            },
            None => Err(ErrorKind::NotANumber),
        }
    }

    fn set_coordinate(&mut self, vertical: bool, tokens: &Vec<String>, answer: Option<&Answer>) -> (r:
        Result<Progress, ErrorKind>)
        requires
            old(self).index < usize::MAX,
        ensures
            agrees(
                r,
                old(self)@,
                final(self)@,
                old(self)@.coordinate_set(vertical, texts(tokens@), answer_view(answer)),
            ),
    {
        if tokens.len() == 0 {
            return Err(ErrorKind::InvalidArgumentCount);
        }
        match answer {
            None => Ok(Progress::Ask(Request::Canonical(tokens[0].clone()))),
            Some(Answer::Number(text)) => {
                if vertical {
                    self.turtle.change_y(text.clone());
                } else {
                    self.turtle.change_x(text.clone());
                }
                self.index = self.index + 1;
                Ok(Progress::Stepped)
            },
            Some(_) => Err(ErrorKind::NotANumber),
        }
    }

    fn make(&mut self, tokens: &Vec<String>, answer: Option<&Answer>) -> (r: Result<
        Progress,
        ErrorKind,
    >)
        requires
            old(self).index < usize::MAX,
        ensures
            agrees(r, old(self)@, final(self)@, old(self)@.made(texts(tokens@), answer_view(answer))),
    {
        if tokens.len() < 2 {
            return Err(ErrorKind::InvalidArgumentCount);
        }
        match answer {
            None => Ok(Progress::Ask(Request::Canonical(tokens[1].clone()))),
            Some(Answer::Number(text)) => {
                self.variables.insert(tokens[0].clone(), text.clone());
                self.index = self.index + 1;
                Ok(Progress::Stepped)
            },
            Some(_) => {
                if Operation::to_bool(tokens[1].as_str()).is_ok() {
                    self.variables.insert(tokens[0].clone(), tokens[1].clone());
                    self.index = self.index + 1;
                    Ok(Progress::Stepped)
                } else {
                    Err(ErrorKind::InvalidValue)
                }
            },
        }
    }

    fn add_assign(&mut self, tokens: &Vec<String>, answer: Option<&Answer>) -> (r: Result<
        Progress,
        ErrorKind,
    >)
        requires
            old(self).index < usize::MAX,
        ensures
            agrees(
                r,
                old(self)@,
                final(self)@,
                old(self)@.added(texts(tokens@), answer_view(answer)),
            ),
    {
        if tokens.len() < 2 {
            return Err(ErrorKind::InvalidArgumentCount);
        }
        let current = match self.variables.get(tokens[0].as_str()) {
            Some(value) => value.clone(),
            None => {
                return Err(ErrorKind::UndefinedVariable);
            },
        };
        match answer {
            None => Ok(
                Progress::Ask(Request::Arithmetic(Operation::Add, current, tokens[1].clone())),
            ),
            Some(Answer::Number(text)) => {
                self.variables.insert(tokens[0].clone(), text.clone());
                self.index = self.index + 1;
                Ok(Progress::Stepped)
            },
            Some(_) => Err(ErrorKind::NotANumber),
        }
    }

    fn enter_block(&mut self, commands: &[Command], tokens: &Vec<String>, looping: bool) -> (r:
        Result<Progress, ErrorKind>)
        requires
            all_have_opcode(program_view(commands@)),
            old(self).index < commands.len(),
        ensures
            agrees(
                r,
                old(self)@,
                final(self)@,
                old(self)@.block_entered(program_view(commands@), texts(tokens@), looping),
            ),
    {
        if tokens.len() == 0 {
            return Err(ErrorKind::InvalidArgumentCount);
        }
        let mut end: usize = 0;
        if !find_conditional_end(&mut end, &self.index, commands) {
            return Err(ErrorKind::UnterminatedBlock);
        }
        proof {
            lemma_block_end_bounds(program_view(commands@), self.index + 1, 0);
        }
        match Operation::to_bool(tokens[0].as_str()) {
            Ok(false) => {
                self.index = end + 1;
                Ok(Progress::Stepped)
            },
            Ok(true) => {
                if looping {
                    self.while_if_stack.push(self.index);
                } else {
                    self.while_if_stack.push(end + 1);
                }
                self.index = self.index + 1;
                Ok(Progress::Stepped)
            },
            Err(kind) => Err(kind),
        }
    }

    fn leave_block(&mut self) -> (r: Result<Progress, ErrorKind>)
        requires
            old(self).index < usize::MAX,
        ensures
            agrees(r, old(self)@, final(self)@, old(self)@.block_left()),
    {
        match self.while_if_stack.pop() {
            Some(resume) => {
                self.index = resume;
            },
            None => {
                self.index = self.index + 1;
            },
        }
        Ok(Progress::Stepped)
    }

    fn define(&mut self, commands: &[Command], tokens: &Vec<String>) -> (r: Result<
        Progress,
        ErrorKind,
    >)
        requires
            all_have_opcode(program_view(commands@)),
            old(self).index < commands.len(),
        ensures
            agrees(
                r,
                old(self)@,
                final(self)@,
                old(self)@.defined(program_view(commands@), texts(tokens@)),
            ),
    {
        if tokens.len() == 0 {
            return Err(ErrorKind::InvalidArgumentCount);
        }
        let mut end: usize = 0;
        if !find_func_end(&mut end, &self.index, commands) {
            return Err(ErrorKind::UnterminatedProcedure);
        }
        proof {
            lemma_procedure_end_bounds(program_view(commands@), self.index + 1);
        }
        let func_vars = copy_tokens(tokens, 1, tokens.len());
        assert(texts(func_vars@) =~= texts(tokens@).skip(1));
        let function = Function {
            func_name: tokens[0].clone(),
            func_vars,
            func_index: self.index,
        };
        self.functions.push(function);
        assert(function_views(self.functions@) =~= function_views(old(self).functions@).push(
            function@,
        ));
        self.index = end + 1;
        Ok(Progress::Stepped)
    }

    fn leave_procedure(&mut self) -> (r: Result<Progress, ErrorKind>)
        requires
            old(self).index < usize::MAX,
            forall|i: int|
                0 <= i < old(self).func_stack.len() ==> #[trigger] old(self).func_stack[i]
                    < usize::MAX,
        ensures
            agrees(r, old(self)@, final(self)@, old(self)@.returned()),
    {
        match self.func_stack.pop() {
            Some(call) => {
                self.index = call + 1;
            },
            None => {
                self.index = self.index + 1;
            },
        }
        Ok(Progress::Stepped)
    }

    /// The place of the procedure that `name` stands for.
    fn find_function(&self, name: &str) -> (r: Option<usize>)
        ensures
            match r {
                Some(place) => found_procedure(self@.functions, name@) == Some(place as int)
                    && place < self.functions.len(),
                None => found_procedure(self@.functions, name@) is None,
            },
    {
        let ghost all = self@.functions;
        let mut i: usize = self.functions.len();
        assert(all.take(i as int) =~= all);
        while i > 0
            invariant
                i <= self.functions.len(),
                all == function_views(self.functions@),
                found_procedure(all, name@) == found_procedure(all.take(i as int), name@),
            decreases i,
        {
            i -= 1;
            assert(all.take(i + 1).drop_last() =~= all.take(i as int));
            assert(all.take(i + 1).last() == self.functions[i as int]@);
            if same_text(self.functions[i].func_name.as_str(), name) {
                return Some(i);
            }
        }
        None
    }

    fn call(&mut self, name: &str, tokens: &Vec<String>) -> (r: Result<Progress, ErrorKind>)
        requires
            forall|i: int|
                0 <= i < old(self).functions.len() ==> (#[trigger] old(self).functions[i]).func_index
                    < usize::MAX,
        ensures
            agrees(r, old(self)@, final(self)@, old(self)@.called(name@, texts(tokens@))),
    {
        let place = match self.find_function(name) {
            Some(place) => place,
            None => {
                return Err(ErrorKind::UndefinedProcedure);
            },
        };
        let count = self.functions[place].func_vars.len();
        if tokens.len() < count {
            return Err(ErrorKind::MissingArgument);
        }
        let ghost names = self@.functions[place as int].vars;
        let mut i: usize = 0;
        while i < count
            invariant
                i <= count <= tokens.len(),
                place < self.functions.len(),
                count == self.functions[place as int].func_vars.len(),
                names == texts(self.functions[place as int].func_vars@),
                self.functions == old(self).functions,
                self.index == old(self).index,
                self.while_if_stack == old(self).while_if_stack,
                self.func_stack == old(self).func_stack,
                self.turtle == old(self).turtle,
                self.variables@ == bound(old(self).variables@, names, texts(tokens@), i as nat),
            decreases count - i,
        {
            let name = self.functions[place].func_vars[i].clone();
            self.variables.insert(name, tokens[i].clone());
            i += 1;
        }
        self.func_stack.push(self.index);
        self.index = self.functions[place].func_index + 1;
        Ok(Progress::Stepped)
    }

    /// Does the work of the command under the counter.
    fn dispatch(&mut self, commands: &[Command], tokens: &Vec<String>, answer: Option<&Answer>) -> (r:
        Result<Progress, ErrorKind>)
        requires
            all_have_opcode(program_view(commands@)),
            old(self).index < commands.len(),
            old(self)@.wf(commands@.len()),
        ensures
            agrees(
                r,
                old(self)@,
                final(self)@,
                old(self)@.dispatched(program_view(commands@), texts(tokens@), answer_view(answer)),
            ),
    {
        assert(program_view(commands@)[self.index as int] == commands[self.index as int]@);
        assert forall|i: int| 0 <= i < self.functions.len() implies (
        #[trigger] self.functions[i]).func_index < usize::MAX by {
            assert(self@.functions[i].index < commands@.len());
        }
        let opcode = commands[self.index].first_token();
        if same_text(opcode, "//") {
            self.index = self.index + 1;
            Ok(Progress::Stepped)
        } else if same_text(opcode, "PENUP") {
            self.set_pen(PenState::Up)
        } else if same_text(opcode, "PENDOWN") {
            self.set_pen(PenState::Down)
        } else if same_text(opcode, "SETPENCOLOR") {
            self.set_colour(tokens)
        } else if same_text(opcode, "FORWARD") {
            self.travel(0, tokens, answer)
        } else if same_text(opcode, "BACK") {
            self.travel(180, tokens, answer)
        } else if same_text(opcode, "LEFT") {
            self.travel(270, tokens, answer)
        } else if same_text(opcode, "RIGHT") {
            self.travel(90, tokens, answer)
        } else if same_text(opcode, "TURN") {
            self.turn(tokens)
        } else if same_text(opcode, "SETHEADING") {
            self.set_heading(tokens)
        } else if same_text(opcode, "SETX") {
            self.set_coordinate(false, tokens, answer)
        } else if same_text(opcode, "SETY") {
            self.set_coordinate(true, tokens, answer)
        } else if same_text(opcode, "MAKE") {
            self.make(tokens, answer)
        } else if same_text(opcode, "ADDASSIGN") {
            self.add_assign(tokens, answer)
        } else if same_text(opcode, "IF") {
            self.enter_block(commands, tokens, false)
        } else if same_text(opcode, "WHILE") {
            self.enter_block(commands, tokens, true)
        } else if same_text(opcode, "]") {
            self.leave_block()
        } else if same_text(opcode, "TO") {
            self.define(commands, tokens)
        } else if same_text(opcode, "END") {
            self.leave_procedure()
        } else {
            self.call(opcode, tokens)
        }
    }

    /// Makes one step of the run of `commands`.
    ///
    /// `answers` holds what the caller has found for the command under the
    /// counter so far; a step on a new command starts with none. The result
    /// says whether the command has run, whether the step needs one more
    /// answer, or whether the program has come to its end. An error carries
    /// the index of the command that failed.
    pub fn step(&mut self, commands: &[Command], answers: &[Answer]) -> (r: Result<
        Progress,
        LocError,
    >)
        requires
            all_have_opcode(program_view(commands@)),
            old(self)@.wf(commands@.len()),
        ensures
            agrees(
                match r {
                    Ok(progress) => Ok(progress),
                    Err(error) => Err(error.kind),
                },
                old(self)@,
                final(self)@,
                old(self)@.stepped(program_view(commands@), answer_views(answers@)),
            ),
            r is Err ==> r->Err_0.location == old(self).index,
            final(self)@.wf(commands@.len()),
    {
        let at = self.index;
        if at >= commands.len() {
            return if self.while_if_stack.len() == 0 {
                Ok(Progress::Finished)
            } else {
                Err(LocError::new(ErrorKind::UnbalancedControlFlow, at))
            };
        }
        assert(program_view(commands@)[at as int] == commands[at as int]@);
        let command = &commands[at];
        if let Err(kind) = command.check_command() {
            return Err(LocError::new(kind, at));
        }
        let tokens = match command.get_tokens(&self.turtle, &self.variables) {
            Ok(tokens) => tokens,
            Err(kind) => {
                return Err(LocError::new(kind, at));
            },
        };
        let (values, used) = match evaluate_polish(tokens, answers) {
            Ok(Evaluation::Complete(values, used)) => (values, used),
            Ok(Evaluation::Pending(request)) => {
                return Ok(Progress::Ask(request));
            },
            Err(kind) => {
                return Err(LocError::new(kind, at));
            },
        };
        let answer = if used < answers.len() {
            assert(answer_views(answers@)[used as int] == answers[used as int]@);
            Some(&answers[used])
        } else {
            None
        };
        proof {
            lemma_dispatched_keeps_bounds(
                self@,
                program_view(commands@),
                texts(values@),
                answer_view(answer),
            );
        }
        match self.dispatch(commands, &values, answer) {
            Ok(progress) => Ok(progress),
            Err(kind) => Err(LocError::new(kind, at)),
        }
    }
}

/// A step leaves the counter and every place that a jump can go to inside
/// the program.
pub proof fn lemma_stepped_keeps_bounds(
    state: State,
    program: Seq<Seq<Seq<char>>>,
    answers: Seq<AnswerView>,
)
    requires
        state.wf(program.len()),
    ensures
        match state.stepped(program, answers) {
            Outcome::Next(after) => after.wf(program.len()),
            _ => true,
        },
{
    if state.index < program.len() {
        let command = program[state.index as int];
        match resolved(command, state.turtle, state.variables) {
            Ok(tokens) => match evaluated(tokens, answers) {
                Ok(EvaluationView::Complete(values, used)) => {
                    lemma_dispatched_keeps_bounds(
                        state,
                        program,
                        values,
                        if used < answers.len() {
                            Some(answers[used as int])
                        } else {
                            None
                        },
                    );
                },
                _ => {},
            },
            _ => {},
        }
    }
}

/// A command leaves the counter and every place that a jump can go to
/// inside the program.
pub proof fn lemma_dispatched_keeps_bounds(
    state: State,
    program: Seq<Seq<Seq<char>>>,
    tokens: Seq<Seq<char>>,
    answer: Option<AnswerView>,
)
    requires
        state.index < program.len(),
        state.wf(program.len()),
    ensures
        match state.dispatched(program, tokens, answer) {
            Outcome::Next(after) => after.wf(program.len()),
            _ => true,
        },
{
    lemma_block_end_bounds(program, state.index + 1, 0);
    lemma_procedure_end_bounds(program, state.index + 1);
    let opcode = program[state.index as int][0];
    lemma_found_procedure_bounds(state.functions, opcode);
}

pub proof fn lemma_found_procedure_bounds(functions: Seq<FunctionView>, name: Seq<char>)
    ensures
        match found_procedure(functions, name) {
            Some(place) => 0 <= place < functions.len() && functions[place].name == name,
            None => forall|i: int| 0 <= i < functions.len() ==> (#[trigger] functions[i]).name != name,
        },
    decreases functions.len(),
{
    if functions.len() > 0 && functions.last().name != name {
        lemma_found_procedure_bounds(functions.drop_last(), name);
        assert forall|i: int| 0 <= i < functions.len() && found_procedure(functions, name)
            is None implies (#[trigger] functions[i]).name != name by {
            if i < functions.len() - 1 {
                assert(functions.drop_last()[i] == functions[i]);
            }
        }
    }
}

/// `SETPENCOLOR` takes each number from 0 to 16, and no other.
pub proof fn lemma_colour_range(state: State, colour: nat)
    ensures
        state.colour_set(seq![decimal_digits(colour)]) == if colour <= 16 {
            Outcome::Next(
                State {
                    turtle: TurtleView { colour: colour as usize, ..state.turtle },
                    ..state.advanced()
                },
            )
        } else {
            Outcome::Fail(ErrorKind::InvalidColor)
        },
{
    lemma_natural_round_trip(colour);
}

/// A block whose condition is `FALSE` is not entered: the run goes on
/// with the line after the `]` that ends it, and nothing else changes.
pub proof fn lemma_false_block_is_skipped(
    state: State,
    program: Seq<Seq<Seq<char>>>,
    tokens: Seq<Seq<char>>,
    looping: bool,
)
    requires
        tokens.len() > 0,
        tokens[0] == "FALSE"@,
        block_end(program, state.index + 1, 0) is Some,
    ensures
        ({
            let end = block_end(program, state.index + 1, 0).unwrap();
            &&& state.index < end < program.len()
            &&& program[end][0] == "]"@
            &&& state.block_entered(program, tokens, looping) == Outcome::Next(state.at(end + 1))
        }),
{
    reveal_strlit("TRUE");
    reveal_strlit("FALSE");
    lemma_block_end_bounds(program, state.index + 1, 0);
    let end = block_end(program, state.index + 1, 0).unwrap();
    assert(state.index < end < program.len());
    assert(program[end][0] == "]"@);
    assert("FALSE"@.len() != "TRUE"@.len());
    assert(boolean_of(tokens[0]) == Some(false));
}

/// A block whose condition is `TRUE` is entered on the next line. When a
/// `]` finds the block's entry on top of the stack again, the entry is
/// taken off, and the run goes on after the block if it is an `IF`, so that
/// its body is not run again, and with the `WHILE` line if it is a `WHILE`,
/// so that the condition is looked at again.
pub proof fn lemma_true_block_is_entered_and_left(
    state: State,
    program: Seq<Seq<Seq<char>>>,
    tokens: Seq<Seq<char>>,
    looping: bool,
    later: State,
)
    requires
        tokens.len() > 0,
        tokens[0] == "TRUE"@,
        block_end(program, state.index + 1, 0) is Some,
        later.while_if_stack == state.while_if_stack.push(
            state.resume_place(block_end(program, state.index + 1, 0).unwrap(), looping),
        ),
    ensures
        ({
            let end = block_end(program, state.index + 1, 0).unwrap();
            let resume = state.resume_place(end, looping);
            &&& state.block_entered(program, tokens, looping) == Outcome::Next(
                State { while_if_stack: state.while_if_stack.push(resume), ..state.advanced() },
            )
            &&& later.block_left() == Outcome::Next(
                State { while_if_stack: state.while_if_stack, ..later.at(resume as int) },
            )
        }),
{
    reveal_strlit("TRUE");
    reveal_strlit("FALSE");
    let end = block_end(program, state.index + 1, 0).unwrap();
    let resume = state.resume_place(end, looping);
    assert(state.while_if_stack.push(resume).drop_last() =~= state.while_if_stack);
}

/// A call and the `END` that finds it on top of the stack again: the call
/// goes to the line after the procedure's `TO`, and the `END` takes the
/// call off the stack and goes to the line after the call.
pub proof fn lemma_call_returns(
    state: State,
    name: Seq<char>,
    tokens: Seq<Seq<char>>,
    later: State,
)
    requires
        state.called(name, tokens) is Next,
        later.func_stack == state.func_stack.push(state.index),
    ensures
        ({
            let function = state.functions[found_procedure(state.functions, name).unwrap()];
            let entered = state.called(name, tokens)->Next_0;
            &&& function.name == name
            &&& entered.index == (function.index + 1) as usize
            &&& entered.func_stack == state.func_stack.push(state.index)
            &&& later.returned() == Outcome::Next(
                State { func_stack: state.func_stack, ..later.at(state.index + 1) },
            )
        }),
{
    lemma_found_procedure_bounds(state.functions, name);
    assert(state.func_stack.push(state.index).drop_last() =~= state.func_stack);
}

/// What binding does to the variables: a name that is bound has the value
/// at the place where it stands last among the names, and every other
/// variable is as it was.
pub proof fn lemma_bound_values(
    vars: Map<Seq<char>, Seq<char>>,
    names: Seq<Seq<char>>,
    values: Seq<Seq<char>>,
    count: nat,
)
    requires
        count <= names.len(),
        count <= values.len(),
    ensures
        forall|i: int|
            0 <= i < count && (forall|j: int| i < j < count ==> names[j] != names[i]) ==> bound(
                vars,
                names,
                values,
                count,
            ).contains_key(#[trigger] names[i]) && bound(vars, names, values, count)[names[i]]
                == values[i],
        forall|name: Seq<char>|
            (forall|i: int| 0 <= i < count ==> names[i] != name) ==> (#[trigger] bound(
                vars,
                names,
                values,
                count,
            ).contains_key(name) <==> vars.contains_key(name)) && (vars.contains_key(name) ==> bound(
                vars,
                names,
                values,
                count,
            )[name] == vars[name]),
    decreases count,
{
    if count > 0 {
        let before = (count - 1) as nat;
        lemma_bound_values(vars, names, values, before);
        assert forall|i: int|
            0 <= i < count && (forall|j: int| i < j < count ==> names[j] != names[i]) implies bound(
            vars,
            names,
            values,
            count,
        ).contains_key(#[trigger] names[i]) && bound(vars, names, values, count)[names[i]]
            == values[i] by {
            if i < before {
                assert(names[before as int] != names[i]);
                assert(forall|j: int| i < j < before ==> names[j] != names[i]);
            }
        }
        assert forall|name: Seq<char>|
            (forall|i: int| 0 <= i < count ==> names[i] != name) implies (#[trigger] bound(
            vars,
            names,
            values,
            count,
        ).contains_key(name) <==> vars.contains_key(name)) && (vars.contains_key(name) ==> bound(
            vars,
            names,
            values,
            count,
        )[name] == vars[name]) by {
            assert(names[before as int] != name);
            assert(forall|i: int| 0 <= i < before ==> names[i] != name);
            assert(bound(vars, names, values, before).contains_key(name) <==> vars.contains_key(
                name,
            ));
        }
    }
}

/// Variables are global. A call gives each parameter its argument as a
/// variable that everyone sees: where several parameters have one name the
/// last one counts, and the variables that are no parameters stay as they
/// are. The `END` of the procedure takes nothing back.
pub proof fn lemma_call_binds_globally(
    state: State,
    name: Seq<char>,
    tokens: Seq<Seq<char>>,
    later: State,
)
    requires
        state.called(name, tokens) is Next,
    ensures
        ({
            let function = state.functions[found_procedure(state.functions, name).unwrap()];
            let after = state.called(name, tokens)->Next_0.variables;
            &&& function.vars.len() <= tokens.len()
            &&& forall|i: int|
                0 <= i < function.vars.len() && (forall|j: int|
                    i < j < function.vars.len() ==> function.vars[j] != function.vars[i])
                    ==> after.contains_key(#[trigger] function.vars[i]) && after[function.vars[i]]
                    == tokens[i]
            &&& forall|other: Seq<char>|
                (forall|i: int| 0 <= i < function.vars.len() ==> function.vars[i] != other) ==> (
                #[trigger] after.contains_key(other) <==> state.variables.contains_key(other))
                    && (state.variables.contains_key(other) ==> after[other]
                    == state.variables[other])
            &&& later.returned() is Next
            &&& later.returned()->Next_0.variables == later.variables
        }),
{
    lemma_found_procedure_bounds(state.functions, name);
    let function = state.functions[found_procedure(state.functions, name).unwrap()];
    lemma_bound_values(state.variables, function.vars, tokens, function.vars.len());
}

/// With one block more open, the scan for a `]` passes the `]` that it
/// would have stopped at, and stops at the next one that ends a block.
pub proof fn lemma_block_end_one_deeper(program: Seq<Seq<Seq<char>>>, from: int, depth: nat)
    ensures
        block_end(program, from, depth + 1) == match block_end(program, from, depth) {
            Some(end) => block_end(program, end + 1, 0),
            None => None,
        },
    decreases program.len() - from,
{
    if 0 <= from < program.len() {
        let opcode = program[from][0];
        if opcode == "WHILE"@ || opcode == "IF"@ {
            lemma_block_end_one_deeper(program, from + 1, depth + 1);
        } else if opcode == "]"@ {
            if depth > 0 {
                lemma_block_end_one_deeper(program, from + 1, (depth - 1) as nat);
            }
        } else {
            lemma_block_end_one_deeper(program, from + 1, depth);
        }
    }
}

/// Where the scan finds a `]` with blocks open, it finds an earlier one
/// with none open.
pub proof fn lemma_block_end_inside(program: Seq<Seq<Seq<char>>>, from: int, depth: nat)
    requires
        depth > 0,
        block_end(program, from, depth) is Some,
    ensures
        block_end(program, from, 0) is Some,
        block_end(program, from, 0).unwrap() < block_end(program, from, depth).unwrap(),
    decreases depth,
{
    let shallower = (depth - 1) as nat;
    lemma_block_end_one_deeper(program, from, shallower);
    let end = block_end(program, from, shallower).unwrap();
    lemma_block_end_bounds(program, end + 1, 0);
    if shallower > 0 {
        lemma_block_end_inside(program, from, shallower);
    }
}

/// Blocks nest: an `IF` or `WHILE` that stands inside a block has its own
/// `]` before the one that ends the block.
pub proof fn lemma_blocks_nest(program: Seq<Seq<Seq<char>>>, from: int, depth: nat, inner: int)
    requires
        block_end(program, from, depth) is Some,
        from <= inner < block_end(program, from, depth).unwrap(),
        program[inner][0] == "WHILE"@ || program[inner][0] == "IF"@,
    ensures
        block_end(program, inner + 1, 0) is Some,
        inner < block_end(program, inner + 1, 0).unwrap() < block_end(
            program,
            from,
            depth,
        ).unwrap(),
    decreases inner - from,
{
    lemma_block_end_bounds(program, from, depth);
    let opcode = program[from][0];
    if inner == from {
        lemma_block_end_inside(program, from + 1, depth + 1);
        lemma_block_end_bounds(program, from + 1, 0);
    } else if opcode == "WHILE"@ || opcode == "IF"@ {
        lemma_blocks_nest(program, from + 1, depth + 1, inner);
    } else if opcode == "]"@ {
        lemma_blocks_nest(program, from + 1, (depth - 1) as nat, inner);
    } else {
        lemma_blocks_nest(program, from + 1, depth, inner);
    }
}

} // verus!
