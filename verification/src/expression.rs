//! Prefix expressions: the operators, and the evaluator that finds the
//! expression in a list of tokens and puts its value in its place.
//!
//! The evaluator works on text. Comparing and combining real numbers is not
//! done here: for each such operation the evaluator needs an [`Answer`], and
//! where none has been given yet it returns the [`Request`] that says which.

use crate::error::ErrorKind;
use crate::text::{copy_tokens, same_text, texts};
use crate::turtle::PenState;
use vstd::prelude::*;

verus! {

#[derive(Clone, Copy, Debug, PartialEq, Eq, Structural)]
pub enum Operation {
    Equal,
    NotEqual,
    GreaterThan,
    LessThan,
    And,
    Or,
    Add,
    Sub,
    Div,
    Mul,
}

/// Something that the caller is asked to work out.
#[derive(Debug, PartialEq, Eq)]
pub enum Request {
    /// The text read as a real number and written out again. The answer is
    /// `Number`, or `NotANumber` if the text is no number.
    Canonical(String),
    /// The operation on two real numbers: the first operand, then the
    /// second. The answer is `Truth` for a comparison and `Number` for a
    /// sum, difference, product or quotient; `ZeroDivisor` for a division
    /// by zero; `NotANumber` if an operand is no number.
    Arithmetic(Operation, String, String),
    /// A move of the turtle from (`x`, `y`) over `distance` in `direction`,
    /// which is in degrees clockwise from straight up, with a line drawn
    /// in `colour` if the pen is down. A negative distance is a move of
    /// the same length the other way. The answer is `Position`, or
    /// `NotANumber` if the distance is no number.
    Travel { x: String, y: String, direction: i32, distance: String, pen_state: PenState, colour: usize },
}

/// What the caller found. An answer of a kind that the request does not
/// call for is taken as `NotANumber`.
#[derive(Debug, PartialEq, Eq)]
pub enum Answer {
    /// A text that should be a real number is none.
    NotANumber,
    /// The number asked for, as text.
    Number(String),
    /// Whether the comparison holds.
    Truth(bool),
    /// Both operands of a division are numbers, and the second one is zero.
    ZeroDivisor,
    /// Where the turtle is after its move: x, then y.
    Position(String, String),
}

pub enum RequestView {
    Canonical(Seq<char>),
    Arithmetic(Operation, Seq<char>, Seq<char>),
    Travel {
        x: Seq<char>,
        y: Seq<char>,
        direction: i32,
        distance: Seq<char>,
        pen_state: PenState,
        colour: usize,
    },
}

pub enum AnswerView {
    NotANumber,
    Number(Seq<char>),
    Truth(bool),
    ZeroDivisor,
    Position(Seq<char>, Seq<char>),
}

impl View for Request {
    type V = RequestView;

    open spec fn view(&self) -> RequestView {
        match *self {
            Request::Canonical(text) => RequestView::Canonical(text@),
            Request::Arithmetic(operation, left, right) => RequestView::Arithmetic(
                operation,
                left@,
                right@,
            ),
            Request::Travel { x, y, direction, distance, pen_state, colour } => RequestView::Travel {
                x: x@,
                y: y@,
                direction,
                distance: distance@,
                pen_state,
                colour,
            },
        }
    }
}

impl View for Answer {
    type V = AnswerView;

    open spec fn view(&self) -> AnswerView {
        match *self {
            Answer::NotANumber => AnswerView::NotANumber,
            Answer::Number(text) => AnswerView::Number(text@),
            Answer::Truth(holds) => AnswerView::Truth(holds),
            Answer::ZeroDivisor => AnswerView::ZeroDivisor,
            Answer::Position(x, y) => AnswerView::Position(x@, y@),
        }
    }
}

/// The views of a list of answers.
pub open spec fn answer_views(answers: Seq<Answer>) -> Seq<AnswerView> {
    Seq::new(answers.len(), |i: int| answers[i]@)
}

/// The text that stands for a truth value.
pub open spec fn truth(holds: bool) -> Seq<char> {
    if holds {
        "TRUE"@
    } else {
        "FALSE"@
    }
}

/// The truth value that a text stands for.
pub open spec fn boolean_of(text: Seq<char>) -> Option<bool> {
    if text == "TRUE"@ {
        Some(true)
    } else if text == "FALSE"@ {
        Some(false)
    } else {
        None
    }
}

/// The operation that a token names.
pub open spec fn operation_of(token: Seq<char>) -> Option<Operation> {
    if token == "EQ"@ {
        Some(Operation::Equal)
    } else if token == "NE"@ {
        Some(Operation::NotEqual)
    } else if token == "GT"@ {
        Some(Operation::GreaterThan)
    } else if token == "LT"@ {
        Some(Operation::LessThan)
    } else if token == "AND"@ {
        Some(Operation::And)
    } else if token == "OR"@ {
        Some(Operation::Or)
    } else if token == "+"@ {
        Some(Operation::Add)
    } else if token == "-"@ {
        Some(Operation::Sub)
    } else if token == "*"@ {
        Some(Operation::Mul)
    } else if token == "/"@ {
        Some(Operation::Div)
    } else {
        None
    }
}

pub open spec fn is_operator(token: Seq<char>) -> bool {
    operation_of(token) is Some
}

/// What an operation makes of two operands. `answer` is what the caller
/// found for them; only the operations on numbers read it.
pub open spec fn operated(
    operation: Operation,
    operand1: Seq<char>,
    operand2: Seq<char>,
    answer: Option<AnswerView>,
) -> Result<Seq<char>, ErrorKind> {
    match operation {
        Operation::Equal => Ok(truth(operand1 == operand2)),
        Operation::NotEqual => Ok(truth(operand1 != operand2)),
        Operation::And => match (boolean_of(operand1), boolean_of(operand2)) {
            (Some(a), Some(b)) => Ok(truth(a && b)),
            _ => Err(ErrorKind::NotABoolean),
        },
        Operation::Or => match (boolean_of(operand1), boolean_of(operand2)) {
            (Some(a), Some(b)) => Ok(truth(a || b)),
            _ => Err(ErrorKind::NotABoolean),
        },
        Operation::GreaterThan | Operation::LessThan => match answer {
            Some(AnswerView::Truth(holds)) => Ok(truth(holds)),
            _ => Err(ErrorKind::NotANumber),
        },
        Operation::Add | Operation::Sub | Operation::Mul => match answer {
            Some(AnswerView::Number(text)) => Ok(text),
            _ => Err(ErrorKind::NotANumber),
        },
        Operation::Div => match answer {
            Some(AnswerView::Number(text)) => Ok(text),
            Some(AnswerView::ZeroDivisor) => Err(ErrorKind::DivisionByZero),
            _ => Err(ErrorKind::NotANumber),
        },
    }
}

/// `TRUE` or `FALSE`.
pub fn truth_text(holds: bool) -> (r: String)
    ensures
        r@ == truth(holds),
{
    if holds {
        String::from_str("TRUE")
    } else {
        String::from_str("FALSE")
    }
}

impl Operation {
    /// Whether the operation works on real numbers, so that its result has
    /// to come from the caller.
    pub open spec fn arithmetic(self) -> bool {
        !(self is Equal || self is NotEqual || self is And || self is Or)
    }

    #[verifier::when_used_as_spec(arithmetic)]
    pub fn is_arithmetic(self) -> (r: bool)
        ensures
            r == self.arithmetic(),
    {
        match self {
            Operation::Equal | Operation::NotEqual | Operation::And | Operation::Or => false,
            _ => true,
        }
    }

    /// The operation that `token` names, if it is an operator.
    pub fn from_token(token: &str) -> (r: Option<Operation>)
        ensures
            r == operation_of(token@),
    {
        if same_text(token, "EQ") {
            Some(Operation::Equal)
        } else if same_text(token, "NE") {
            Some(Operation::NotEqual)
        } else if same_text(token, "GT") {
            Some(Operation::GreaterThan)
        } else if same_text(token, "LT") {
            Some(Operation::LessThan)
        } else if same_text(token, "AND") {
            Some(Operation::And)
        } else if same_text(token, "OR") {
            Some(Operation::Or)
        } else if same_text(token, "+") {
            Some(Operation::Add)
        } else if same_text(token, "-") {
            Some(Operation::Sub)
        } else if same_text(token, "*") {
            Some(Operation::Mul)
        } else if same_text(token, "/") {
            Some(Operation::Div)
        } else {
            None
        }
    }

    /// Reads an operand as a truth value.
    pub fn to_bool(operand: &str) -> (r: Result<bool, ErrorKind>)
        ensures
            r == match boolean_of(operand@) {
                Some(b) => Ok::<bool, ErrorKind>(b),
                None => Err(ErrorKind::NotABoolean),
            },
    {
        if same_text(operand, "TRUE") {
            Ok(true)
        } else if same_text(operand, "FALSE") {
            Ok(false)
        } else {
            Err(ErrorKind::NotABoolean)
        }
    }

    /// Applies the operation to two operands.
    ///
    /// `EQ` and `NE` compare the operands as text; `AND` and `OR` read them
    /// as truth values. The other operations are on real numbers, and their
    /// outcome is taken from `answer`: a comparison needs `Truth`, a sum,
    /// difference, product or quotient needs `Number`, and a division fails
    /// on `ZeroDivisor`. Any other answer, or none, means that an operand is
    /// not a number.
    pub fn operate(&self, operand1: &str, operand2: &str, answer: Option<&Answer>) -> (r: Result<
        String,
        ErrorKind,
    >)
        ensures
            match r {
                Ok(value) => operated(
                    *self,
                    operand1@,
                    operand2@,
                    match answer {
                        Some(a) => Some(a@),
                        None => None,
                    },
                ) == Ok::<Seq<char>, ErrorKind>(value@),
                Err(kind) => operated(
                    *self,
                    operand1@,
                    operand2@,
                    match answer {
                        Some(a) => Some(a@),
                        None => None,
                    },
                ) == Err::<Seq<char>, ErrorKind>(kind),
            },
    {
        match self {
            Operation::Equal => Ok(truth_text(same_text(operand1, operand2))),
            Operation::NotEqual => Ok(truth_text(!same_text(operand1, operand2))),
            Operation::And => {
                let op1 = Self::to_bool(operand1);
                let op2 = Self::to_bool(operand2);
                match (op1, op2) {
                    (Ok(a), Ok(b)) => Ok(truth_text(a && b)),
                    _ => Err(ErrorKind::NotABoolean),
                }
            },
            Operation::Or => {
                let op1 = Self::to_bool(operand1);
                let op2 = Self::to_bool(operand2);
                match (op1, op2) {
                    (Ok(a), Ok(b)) => Ok(truth_text(a || b)),
                    _ => Err(ErrorKind::NotABoolean),
                }
            },
            Operation::GreaterThan | Operation::LessThan => match answer {
                Some(Answer::Truth(holds)) => Ok(truth_text(*holds)),
                _ => Err(ErrorKind::NotANumber),
            },
            Operation::Add | Operation::Sub | Operation::Mul => match answer {
                Some(Answer::Number(text)) => Ok(text.clone()),
                _ => Err(ErrorKind::NotANumber),
            },
            Operation::Div => match answer {
                Some(Answer::Number(text)) => Ok(text.clone()),
                Some(Answer::ZeroDivisor) => Err(ErrorKind::DivisionByZero),
                _ => Err(ErrorKind::NotANumber),
            },
        }
    }
}

/// The outcome of looking for the expression among some tokens: which
/// tokens belong to it and which do not, each in their order.
pub struct Span {
    /// Operators seen.
    pub operators: nat,
    /// Operand places filled.
    pub operands: nat,
    /// The tokens of the expression.
    pub taken: Seq<Seq<char>>,
    /// The tokens passed over.
    pub left: Seq<Seq<char>>,
}

/// Finds the expression in `tokens`, of which the first is an operator. An
/// operator always belongs to it and opens one more operand place than there
/// are operators; any other token belongs to it while a place is free.
pub open spec fn span(tokens: Seq<Seq<char>>) -> Span
    decreases tokens.len(),
{
    if tokens.len() == 0 {
        Span { operators: 0, operands: 0, taken: seq![], left: seq![] }
    } else {
        let before = span(tokens.drop_last());
        let token = tokens.last();
        if is_operator(token) {
            Span { operators: before.operators + 1, taken: before.taken.push(token), ..before }
        } else if before.operands < before.operators + 1 {
            Span { operands: before.operands + 1, taken: before.taken.push(token), ..before }
        } else {
            Span { left: before.left.push(token), ..before }
        }
    }
}

/// Where a reduction stands.
pub enum Reduction {
    /// The values on the stack, the top one last, and how many answers were
    /// used.
    Stack(Seq<Seq<char>>, nat),
    /// An answer is missing.
    Pending(RequestView),
    Failed(ErrorKind),
}

/// One token more in a reduction: an operator takes its two operands off
/// the stack, the top one first, and leaves its result; `[` leaves the
/// stack as it is; any other token is a value and goes on top.
pub open spec fn reduce_token(
    token: Seq<char>,
    stack: Seq<Seq<char>>,
    used: nat,
    answers: Seq<AnswerView>,
) -> Reduction {
    match operation_of(token) {
        Some(operation) => {
            if stack.len() < 2 {
                Reduction::Failed(ErrorKind::MalformedExpression)
            } else {
                let operand1 = stack[stack.len() - 1];
                let operand2 = stack[stack.len() - 2];
                let rest = stack.take(stack.len() - 2);
                if operation.arithmetic() {
                    if used < answers.len() {
                        match operated(operation, operand1, operand2, Some(answers[used as int])) {
                            Ok(value) => Reduction::Stack(rest.push(value), used + 1),
                            Err(kind) => Reduction::Failed(kind),
                        }
                    } else {
                        Reduction::Pending(RequestView::Arithmetic(operation, operand1, operand2))
                    }
                } else {
                    match operated(operation, operand1, operand2, None) {
                        Ok(value) => Reduction::Stack(rest.push(value), used),
                        Err(kind) => Reduction::Failed(kind),
                    }
                }
            }
        },
        None => if token == "["@ {
            Reduction::Stack(stack, used)
        } else {
            Reduction::Stack(stack.push(token), used)
        },
    }
}

/// Reduces an expression, from its last token to its first.
pub open spec fn reduce(tokens: Seq<Seq<char>>, answers: Seq<AnswerView>) -> Reduction
    decreases tokens.len(),
{
    if tokens.len() == 0 {
        Reduction::Stack(seq![], 0)
    } else {
        match reduce(tokens.skip(1), answers) {
            Reduction::Stack(stack, used) => reduce_token(tokens[0], stack, used, answers),
            stopped => stopped,
        }
    }
}

/// The place of the first operator in `tokens`; their number if there is none.
pub open spec fn first_operator(tokens: Seq<Seq<char>>) -> int
    decreases tokens.len(),
{
    if tokens.len() == 0 {
        0
    } else if is_operator(tokens[0]) {
        0
    } else {
        1 + first_operator(tokens.skip(1))
    }
}

/// What evaluating a list of tokens comes to.
#[derive(Debug, PartialEq, Eq)]
pub enum Evaluation {
    /// The tokens with the expression replaced by its value, and how many
    /// answers that took.
    Complete(Vec<String>, usize),
    /// The evaluation needs the answer to this request next.
    Pending(Request),
}

pub enum EvaluationView {
    Complete(Seq<Seq<char>>, nat),
    Pending(RequestView),
}

impl View for Evaluation {
    type V = EvaluationView;

    open spec fn view(&self) -> EvaluationView {
        match *self {
            Evaluation::Complete(tokens, used) => EvaluationView::Complete(
                texts(tokens@),
                used as nat,
            ),
            Evaluation::Pending(request) => EvaluationView::Pending(request@),
        }
    }
}

/// Evaluates the expression in `tokens`.
///
/// Without an operator the tokens stay as they are. Else the expression
/// starts at the first operator; it is reduced to one value, which takes the
/// place of the expression's tokens. The tokens before the first operator
/// and those passed over stay, in their order.
pub open spec fn evaluated(tokens: Seq<Seq<char>>, answers: Seq<AnswerView>) -> Result<
    EvaluationView,
    ErrorKind,
> {
    let start = first_operator(tokens);
    if start == tokens.len() {
        Ok(EvaluationView::Complete(tokens, 0))
    } else {
        let found = span(tokens.skip(start));
        match reduce(found.taken, answers) {
            Reduction::Stack(stack, used) => if stack.len() == 1 {
                Ok(EvaluationView::Complete(tokens.take(start).push(stack[0]) + found.left, used))
            } else {
                Err(ErrorKind::MalformedExpression)
            },
            Reduction::Pending(request) => Ok(EvaluationView::Pending(request)),
            Reduction::Failed(kind) => Err(kind),
        }
    }
}

pub proof fn lemma_first_operator_bounds(tokens: Seq<Seq<char>>)
    ensures
        0 <= first_operator(tokens) <= tokens.len(),
        first_operator(tokens) < tokens.len() ==> is_operator(tokens[first_operator(tokens)]),
        forall|i: int| 0 <= i < first_operator(tokens) ==> !is_operator(#[trigger] tokens[i]),
    decreases tokens.len(),
{
    if tokens.len() > 0 && !is_operator(tokens[0]) {
        let rest = tokens.skip(1);
        lemma_first_operator_bounds(rest);
        assert forall|i: int| 0 <= i < first_operator(tokens) implies !is_operator(
            #[trigger] tokens[i],
        ) by {
            if i > 0 {
                assert(tokens[i] == rest[i - 1]);
            }
        }
    }
}

/// The first operator is the one before which there is none.
pub proof fn lemma_first_operator_is(tokens: Seq<Seq<char>>, at: int)
    requires
        0 <= at <= tokens.len(),
        at < tokens.len() ==> is_operator(tokens[at]),
        forall|i: int| 0 <= i < at ==> !is_operator(#[trigger] tokens[i]),
    ensures
        first_operator(tokens) == at,
{
    lemma_first_operator_bounds(tokens);
    let found = first_operator(tokens);
    if found < at {
        assert(!is_operator(tokens[found]));
    } else if found > at {
        assert(!is_operator(tokens[at]));
    }
}

/// A reduction that has stopped stays as it is, whatever stands before.
pub proof fn lemma_reduce_stopped(tokens: Seq<Seq<char>>, k: int, answers: Seq<AnswerView>)
    requires
        0 <= k <= tokens.len(),
        !(reduce(tokens.skip(k), answers) is Stack),
    ensures
        reduce(tokens, answers) == reduce(tokens.skip(k), answers),
    decreases k,
{
    if k == 0 {
        assert(tokens.skip(0) =~= tokens);
    } else {
        assert(tokens.skip(k - 1).skip(1) =~= tokens.skip(k));
        lemma_reduce_stopped(tokens, k - 1, answers);
    }
}

/// Takes the list of tokens, finds the expression in it and puts its value
/// in its place.
///
/// `answers` holds what the caller found for the operations on real numbers,
/// in the order in which the reduction comes to them. Where the next one is
/// missing the result is `Pending` with the request for it; answers beyond
/// those needed are not read.
pub fn evaluate_polish(tokens: Vec<String>, answers: &[Answer]) -> (r: Result<
    Evaluation,
    ErrorKind,
>)
    ensures
        match r {
            Ok(evaluation) => evaluated(texts(tokens@), answer_views(answers@)) == Ok::<
                EvaluationView,
                ErrorKind,
            >(evaluation@),
            Err(kind) => evaluated(texts(tokens@), answer_views(answers@)) == Err::<
                EvaluationView,
                ErrorKind,
            >(kind),
        },
{
    let ghost all = texts(tokens@);
    let ghost given = answer_views(answers@);
    let n = tokens.len();
    // the first operator
    let mut start: usize = 0;
    while start < n && Operation::from_token(tokens[start].as_str()).is_none()
        invariant
            start <= n == tokens.len(),
            all == texts(tokens@),
            forall|i: int| 0 <= i < start ==> !is_operator(#[trigger] all[i]),
        decreases n - start,
    {
        start += 1;
    }
    proof {
        lemma_first_operator_is(all, start as int);
    }
    if start == n {
        assert(texts(tokens@) == all);
        return Ok(Evaluation::Complete(tokens, 0));
    }
    // the tokens of the expression, and those passed over
    let ghost tail = all.skip(start as int);
    let mut operators: usize = 0;
    let mut operands: usize = 0;
    let mut taken: Vec<String> = Vec::new();
    let mut left: Vec<String> = Vec::new();
    let mut i: usize = start;
    assert(texts(taken@) =~= seq![] && texts(left@) =~= seq![]);
    while i < n
        invariant
            start <= i <= n == tokens.len(),
            all == texts(tokens@),
            tail == all.skip(start as int),
            operators + operands + left.len() == i - start,
            span(tail.take(i - start)) == (Span {
                operators: operators as nat,
                operands: operands as nat,
                taken: texts(taken@),
                left: texts(left@),
            }),
        decreases n - i,
    {
        let ghost before = span(tail.take(i - start));
        proof {
            assert(tail.take(i - start + 1).drop_last() =~= tail.take(i - start));
            assert(tail.take(i - start + 1).last() == all[i as int]);
        }
        if Operation::from_token(tokens[i].as_str()).is_some() {
            operators += 1;
            taken.push(tokens[i].clone());
            assert(texts(taken@) =~= before.taken.push(all[i as int]));
        } else if operands < operators + 1 {
            operands += 1;
            taken.push(tokens[i].clone());
            assert(texts(taken@) =~= before.taken.push(all[i as int]));
        } else {
            left.push(tokens[i].clone());
            assert(texts(left@) =~= before.left.push(all[i as int]));
        }
        i += 1;
    }
    assert(tail.take(n - start) =~= tail);
    // the reduction, from the last token of the expression to the first
    let ghost expression = texts(taken@);
    let mut stack: Vec<String> = Vec::new();
    let mut used: usize = 0;
    let mut k: usize = taken.len();
    assert(texts(stack@) =~= seq![]);
    while k > 0
        invariant
            k <= taken.len(),
            expression == texts(taken@),
            given == answer_views(answers@),
            all == texts(tokens@),
            first_operator(all) == start < all.len(),
            span(all.skip(start as int)).taken == expression,
            used <= answers.len(),
            reduce(expression.skip(k as int), given) == Reduction::Stack(
                texts(stack@),
                used as nat,
            ),
        decreases k,
    {
        k -= 1;
        let ghost values = texts(stack@);
        proof {
            assert(expression.skip(k as int).skip(1) =~= expression.skip(k + 1));
            assert(expression.skip(k as int)[0] == taken[k as int]@);
        }
        let token = taken[k].as_str();
        match Operation::from_token(token) {
            Some(operation) => {
                if stack.len() < 2 {
                    proof {
                        lemma_reduce_stopped(expression, k as int, given);
                    }
                    return Err(ErrorKind::MalformedExpression);
                }
                let operand1 = stack.pop().unwrap();
                let operand2 = stack.pop().unwrap();
                assert(operand1@ == values[values.len() - 1]);
                assert(operand2@ == values[values.len() - 2]);
                assert(texts(stack@) =~= values.take(values.len() - 2));
                let value = if operation.is_arithmetic() {
                    if used < answers.len() {
                        assert(given[used as int] == answers[used as int]@);
                        let outcome = operation.operate(
                            operand1.as_str(),
                            operand2.as_str(),
                            Some(&answers[used]),
                        );
                        used += 1;
                        match outcome {
                            Ok(value) => value,
                            Err(kind) => {
                                proof {
                                    lemma_reduce_stopped(expression, k as int, given);
                                }
                                return Err(kind);
                            },
                        }
                    } else {
                        proof {
                            lemma_reduce_stopped(expression, k as int, given);
                        }
                        return Ok(
                            Evaluation::Pending(Request::Arithmetic(operation, operand1, operand2)),
                        );
                    }
                } else {
                    match operation.operate(operand1.as_str(), operand2.as_str(), None) {
                        Ok(value) => value,
                        Err(kind) => {
                            proof {
                                lemma_reduce_stopped(expression, k as int, given);
                            }
                            return Err(kind);
                        },
                    }
                };
                let ghost rest = texts(stack@);
                stack.push(value);
                assert(texts(stack@) =~= rest.push(value@));
            },
            None => {
                if !same_text(token, "[") {
                    stack.push(taken[k].clone());
                    assert(texts(stack@) =~= values.push(taken[k as int]@));
                }
            },
        }
    }
    assert(expression.skip(0) =~= expression);
    if stack.len() != 1 {
        return Err(ErrorKind::MalformedExpression);
    }
    // the value in place of the expression
    let mut result = copy_tokens(&tokens, 0, start);
    let ghost head = texts(result@);
    let ghost value = texts(stack@)[0];
    result.push(stack.pop().unwrap());
    assert(texts(result@) =~= all.take(start as int).push(value)) by {
        assert(head =~= all.take(start as int));
    }
    let ghost with_value = texts(result@);
    let mut j: usize = 0;
    assert(texts(result@) =~= with_value + texts(left@).take(0));
    while j < left.len()
        invariant
            j <= left.len(),
            texts(result@) == with_value + texts(left@).take(j as int),
        decreases left.len() - j,
    {
        let ghost so_far = texts(result@);
        result.push(left[j].clone());
        assert(texts(result@) =~= so_far.push(left[j as int]@));
        assert(texts(left@).take(j + 1) =~= texts(left@).take(j as int).push(left[j as int]@));
        assert(texts(result@) =~= with_value + texts(left@).take(j + 1));
        j += 1;
    }
    assert(texts(left@).take(left.len() as int) =~= texts(left@));
    Ok(Evaluation::Complete(result, used))
}

/// What a token is to an expression.
pub enum Kind {
    Operator,
    /// The block-open marker `[`, which fills an operand's place and has
    /// no value.
    Bracket,
    Value,
}

pub open spec fn kind_of(token: Seq<char>) -> Kind {
    if is_operator(token) {
        Kind::Operator
    } else if token == "["@ {
        Kind::Bracket
    } else {
        Kind::Value
    }
}

/// How many of the tokens are of the given kind.
pub open spec fn count_kind(tokens: Seq<Seq<char>>, kind: Kind) -> nat
    decreases tokens.len(),
{
    if tokens.len() == 0 {
        0
    } else {
        count_kind(tokens.drop_last(), kind) + if kind_of(tokens.last()) == kind {
            1nat
        } else {
            0nat
        }
    }
}

/// Counting from the front gives what counting from the back gives.
pub proof fn lemma_count_kind_front(tokens: Seq<Seq<char>>, kind: Kind)
    requires
        tokens.len() > 0,
    ensures
        count_kind(tokens, kind) == count_kind(tokens.skip(1), kind) + if kind_of(tokens[0])
            == kind {
            1nat
        } else {
            0nat
        },
    decreases tokens.len(),
{
    if tokens.len() == 1 {
        assert(tokens.drop_last() =~= tokens.skip(1));
    } else {
        lemma_count_kind_front(tokens.drop_last(), kind);
        assert(tokens.drop_last().skip(1) =~= tokens.skip(1).drop_last());
    }
}

/// What the search for the expression keeps count of: the operators and
/// the operand places among the tokens it takes, and that no more places
/// are filled than the operators open.
pub proof fn lemma_span_counts(tokens: Seq<Seq<char>>)
    ensures
        ({
            let found = span(tokens);
            &&& found.operators == count_kind(found.taken, Kind::Operator)
            &&& found.operands == count_kind(found.taken, Kind::Bracket) + count_kind(
                found.taken,
                Kind::Value,
            )
            &&& found.operands <= found.operators + 1
            &&& found.taken.len() == found.operators + found.operands
            &&& found.taken.len() + found.left.len() == tokens.len()
        }),
    decreases tokens.len(),
{
    if tokens.len() > 0 {
        lemma_span_counts(tokens.drop_last());
        let before = span(tokens.drop_last());
        let found = span(tokens);
        if found.taken.len() > before.taken.len() {
            assert(found.taken.drop_last() =~= before.taken);
        }
    }
}

/// A reduction that has not stopped has on its stack one value for each
/// value token, less one for each operator.
pub proof fn lemma_reduce_stack_size(tokens: Seq<Seq<char>>, answers: Seq<AnswerView>)
    ensures
        match reduce(tokens, answers) {
            Reduction::Stack(stack, used) => stack.len() + count_kind(tokens, Kind::Operator)
                == count_kind(tokens, Kind::Value),
            _ => true,
        },
    decreases tokens.len(),
{
    if tokens.len() > 0 {
        lemma_reduce_stack_size(tokens.skip(1), answers);
        lemma_count_kind_front(tokens, Kind::Operator);
        lemma_count_kind_front(tokens, Kind::Value);
    }
}

/// Where none of the tokens is of a kind, no token is.
pub proof fn lemma_count_kind_none(tokens: Seq<Seq<char>>, kind: Kind)
    requires
        count_kind(tokens, kind) == 0,
    ensures
        forall|i: int| 0 <= i < tokens.len() ==> kind_of(#[trigger] tokens[i]) != kind,
    decreases tokens.len(),
{
    if tokens.len() > 0 {
        lemma_count_kind_none(tokens.drop_last(), kind);
        assert forall|i: int| 0 <= i < tokens.len() implies kind_of(#[trigger] tokens[i])
            != kind by {
            if i < tokens.len() - 1 {
                assert(tokens.drop_last()[i] == tokens[i]);
            }
        }
    }
}

/// Where no token is `[`, none is counted as one.
pub proof fn lemma_count_kind_bracket_free(tokens: Seq<Seq<char>>)
    requires
        forall|i: int| 0 <= i < tokens.len() ==> kind_of(#[trigger] tokens[i]) != Kind::Bracket,
    ensures
        count_kind(tokens, Kind::Bracket) == 0,
    decreases tokens.len(),
{
    if tokens.len() > 0 {
        assert forall|i: int| 0 <= i < tokens.drop_last().len() implies kind_of(
            #[trigger] tokens.drop_last()[i],
        ) != Kind::Bracket by {
            assert(tokens.drop_last()[i] == tokens[i]);
        }
        lemma_count_kind_bracket_free(tokens.drop_last());
    }
}

/// An expression that evaluates to a value has exactly one operand more
/// than it has operators, and each operand is a value: none is `[`.
pub proof fn lemma_evaluated_expression_arity(tokens: Seq<Seq<char>>, answers: Seq<AnswerView>)
    requires
        first_operator(tokens) < tokens.len(),
        evaluated(tokens, answers) matches Ok(EvaluationView::Complete(_, _)),
    ensures
        ({
            let found = span(tokens.skip(first_operator(tokens)));
            &&& found.operands == found.operators + 1
            &&& found.taken.len() == 2 * found.operators + 1
            &&& count_kind(found.taken, Kind::Value) == found.operators + 1
            &&& forall|i: int|
                0 <= i < found.taken.len() ==> kind_of(#[trigger] found.taken[i]) != Kind::Bracket
        }),
{
    let found = span(tokens.skip(first_operator(tokens)));
    lemma_span_counts(tokens.skip(first_operator(tokens)));
    lemma_reduce_stack_size(found.taken, answers);
    lemma_count_kind_none(found.taken, Kind::Bracket);
}

/// Counting over two lists, one after the other, adds up.
pub proof fn lemma_count_kind_parts(tokens: Seq<Seq<char>>, at: int, kind: Kind)
    requires
        0 <= at <= tokens.len(),
    ensures
        count_kind(tokens, kind) == count_kind(tokens.take(at), kind) + count_kind(
            tokens.skip(at),
            kind,
        ),
    decreases tokens.len() - at,
{
    if at == tokens.len() {
        assert(tokens.take(at) =~= tokens);
        assert(tokens.skip(at) =~= Seq::<Seq<char>>::empty());
    } else {
        lemma_count_kind_parts(tokens, at + 1, kind);
        assert(tokens.take(at + 1).drop_last() =~= tokens.take(at));
        assert(tokens.skip(at).skip(1) =~= tokens.skip(at + 1));
        lemma_count_kind_front(tokens.skip(at), kind);
    }
}

/// Whether the search for the expression takes the last of the tokens.
pub open spec fn takes_last(tokens: Seq<Seq<char>>) -> bool
    recommends
        tokens.len() > 0,
{
    let before = span(tokens.drop_last());
    is_operator(tokens.last()) || before.operands < before.operators + 1
}

/// How many tokens the search for the expression takes before it passes
/// one over.
pub open spec fn taken_in_a_row(tokens: Seq<Seq<char>>) -> int
    decreases tokens.len(),
{
    if tokens.len() == 0 {
        0
    } else {
        let before = taken_in_a_row(tokens.drop_last());
        if before < tokens.len() - 1 {
            before
        } else if takes_last(tokens) {
            tokens.len() as int
        } else {
            tokens.len() - 1
        }
    }
}

/// The shape of what the search finds. It takes tokens in a row until all
/// operand places are filled. The token after them is no operator and is
/// passed over, and so is every token from there on until an operator
/// comes, which is taken whatever came before.
pub proof fn lemma_span_shape(tokens: Seq<Seq<char>>)
    ensures
        ({
            let found = span(tokens);
            let row = taken_in_a_row(tokens);
            let full = span(tokens.take(row));
            &&& 0 <= row <= found.taken.len() <= tokens.len()
            &&& found.taken.take(row) == tokens.take(row)
            &&& full.taken == tokens.take(row)
            &&& row == tokens.len() ==> found.left.len() == 0
            &&& row < tokens.len() ==> {
                &&& full.operands == full.operators + 1
                &&& !is_operator(tokens[row])
                &&& found.taken.len() > row ==> is_operator(found.taken[row])
                &&& found.taken.len() == row ==> {
                    &&& found.left == tokens.skip(row)
                    &&& found.operators == full.operators
                    &&& found.operands == full.operands
                }
            }
        }),
    decreases tokens.len(),
{
    let found = span(tokens);
    let row = taken_in_a_row(tokens);
    lemma_span_counts(tokens);
    if tokens.len() == 0 {
        assert(tokens.take(0) =~= tokens);
        assert(found.taken.take(0) =~= tokens.take(0));
    } else {
        let shorter = tokens.drop_last();
        let before = span(shorter);
        let last = tokens.last();
        lemma_span_shape(shorter);
        lemma_span_counts(shorter);
        let earlier = taken_in_a_row(shorter);
        assert(shorter.take(earlier) =~= tokens.take(earlier));
        if earlier < tokens.len() - 1 {
            assert(row == earlier);
            assert(tokens[row] == shorter[row]);
            assert(found.taken.take(row) =~= before.taken.take(row));
            if takes_last(tokens) {
                assert(found.taken == before.taken.push(last));
                if before.taken.len() > row {
                    assert(found.taken[row] == before.taken[row]);
                }
            } else {
                if found.taken.len() == row {
                    assert(found.left =~= tokens.skip(row));
                }
            }
        } else {
            assert(earlier == shorter.len());
            assert(shorter.take(earlier) =~= shorter);
            assert(before.taken.take(earlier) =~= before.taken);
            if takes_last(tokens) {
                assert(tokens.take(row) =~= tokens);
                assert(found.taken =~= tokens);
                assert(found.taken.take(row) =~= tokens.take(row));
            } else {
                assert(found.taken.take(row) =~= tokens.take(row));
                assert(found.left =~= tokens.skip(row));
            }
        }
    }
}

/// A reduction that ends with an operator has not stopped only if it has
/// left that operator's value on the stack.
pub proof fn lemma_reduce_leaves_a_value(tokens: Seq<Seq<char>>, answers: Seq<AnswerView>)
    requires
        tokens.len() > 0,
        is_operator(tokens[0]),
    ensures
        match reduce(tokens, answers) {
            Reduction::Stack(stack, _) => stack.len() >= 1,
            _ => true,
        },
{
}

/// An expression that evaluates to a value is a run of tokens in a row,
/// from the first operator on: twice as many as it has operators, and one
/// more. The tokens before and after it stay as they are, with the value
/// between them.
pub proof fn lemma_evaluated_expression_is_in_a_row(
    tokens: Seq<Seq<char>>,
    answers: Seq<AnswerView>,
)
    requires
        first_operator(tokens) < tokens.len(),
        evaluated(tokens, answers) matches Ok(EvaluationView::Complete(_, _)),
    ensures
        ({
            let start = first_operator(tokens);
            let found = span(tokens.skip(start));
            let end = start + 2 * found.operators + 1;
            &&& 0 <= start < end <= tokens.len()
            &&& found.taken == tokens.subrange(start, end)
            &&& found.left == tokens.skip(end)
            &&& match evaluated(tokens, answers) {
                Ok(EvaluationView::Complete(values, _)) => {
                    &&& values.len() == tokens.len() - 2 * found.operators
                    &&& values.take(start) == tokens.take(start)
                    &&& values.skip(start + 1) == tokens.skip(end)
                },
                _ => false,
            }
        }),
{
    let start = first_operator(tokens);
    let rest = tokens.skip(start);
    let found = span(rest);
    let row = taken_in_a_row(rest);
    lemma_first_operator_bounds(tokens);
    lemma_evaluated_expression_arity(tokens, answers);
    lemma_span_shape(rest);
    lemma_span_counts(rest);
    if found.taken.len() > row {
        // what is taken after the row would leave a second value
        let behind = found.taken.skip(row);
        assert(found.taken.take(row) == rest.take(row));
        lemma_span_counts(rest.take(row));
        if !(reduce(behind, answers) is Stack) {
            lemma_reduce_stopped(found.taken, row, answers);
        }
        lemma_reduce_stack_size(behind, answers);
        lemma_reduce_stack_size(found.taken, answers);
        lemma_reduce_leaves_a_value(behind, answers);
        lemma_count_kind_parts(found.taken, row, Kind::Operator);
        lemma_count_kind_parts(found.taken, row, Kind::Value);
        lemma_count_kind_parts(found.taken, row, Kind::Bracket);
        lemma_count_kind_bracket_free(found.taken);
        assert(false);
    }
    if row == rest.len() {
        assert(rest.take(row) =~= rest);
        assert(found.left =~= rest.skip(row));
    }
    let end = start + found.taken.len();
    assert(found.taken =~= tokens.subrange(start, end)) by {
        assert(found.taken.take(row) =~= found.taken);
    }
    assert(found.left =~= tokens.skip(end));
    match evaluated(tokens, answers) {
        Ok(EvaluationView::Complete(values, _)) => {
            assert(values.take(start) =~= tokens.take(start));
            assert(values.skip(start + 1) =~= tokens.skip(end));
        },
        _ => {},
    }
}

} // verus!
