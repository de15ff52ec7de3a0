use rslogo::command::{check_procedures, Classification, Command};
use rslogo::error::ErrorKind;
use rslogo::turtle::Turtle;
use rslogo::variables::Variables;

fn command(line: &str) -> Command {
    Command::new(line.split_whitespace().map(String::from).collect())
}

fn words(items: &[&str]) -> Vec<String> {
    items.iter().map(|s| s.to_string()).collect()
}

fn turtle() -> Turtle {
    Turtle::new(("12.5".to_string(), "-4".to_string()))
}

fn check(line: &str) -> Result<Classification, ErrorKind> {
    command(line).check_command()
}

const COUNT: Result<Classification, ErrorKind> = Err(ErrorKind::InvalidArgumentCount);
const PLAIN: Result<Classification, ErrorKind> = Ok(Classification::NoExpression);
const EXPRESSION: Result<Classification, ErrorKind> = Ok(Classification::ExpressionExpected);

#[test]
fn new_keeps_the_tokens() {
    let made = Command::new(words(&["MAKE", "\"x", "\"1"]));
    assert_eq!(made.arg, words(&["MAKE", "\"x", "\"1"]));
    assert_eq!(made.first_token(), "MAKE");
    assert_eq!(command("// a comment").first_token(), "//");
}

#[test]
fn opcodes_without_arguments() {
    for opcode in ["PENUP", "PENDOWN", "END"] {
        assert_eq!(check(opcode), PLAIN);
        assert_eq!(check(&format!("{} \"1", opcode)), COUNT);
        assert_eq!(check(&format!("{} + \"1 \"2", opcode)), COUNT);
    }
}

#[test]
fn to_takes_a_name() {
    assert_eq!(check("TO"), COUNT);
    assert_eq!(check("TO box"), PLAIN);
    assert_eq!(check("TO box \"a \"b \"c"), PLAIN);
}

#[test]
fn blocks_end_in_a_bracket() {
    for opcode in ["IF", "WHILE"] {
        assert_eq!(check(opcode), COUNT);
        assert_eq!(check(&format!("{} [", opcode)), COUNT);
        assert_eq!(check(&format!("{} \"TRUE", opcode)), COUNT);
        assert_eq!(check(&format!("{} \"TRUE [", opcode)), EXPRESSION);
        assert_eq!(check(&format!("{} EQ :a \"1 [", opcode)), EXPRESSION);
        assert_eq!(
            check(&format!("{} \"TRUE \"x", opcode)),
            Err(ErrorKind::MalformedBlock)
        );
        assert_eq!(
            check(&format!("{} [ \"TRUE", opcode)),
            Err(ErrorKind::MalformedBlock)
        );
    }
}

#[test]
fn opcodes_with_one_value() {
    for opcode in [
        "FORWARD",
        "BACK",
        "LEFT",
        "RIGHT",
        "SETPENCOLOR",
        "TURN",
        "SETHEADING",
        "SETX",
        "SETY",
    ] {
        assert_eq!(check(opcode), COUNT);
        assert_eq!(check(&format!("{} \"1", opcode)), PLAIN);
        assert_eq!(check(&format!("{} :n", opcode)), PLAIN);
        assert_eq!(check(&format!("{} \"1 \"2", opcode)), COUNT);
        assert_eq!(check(&format!("{} \"1 + \"2", opcode)), COUNT);
        for operator in ["EQ", "NE", "GT", "LT", "AND", "OR", "+", "-", "*", "/"] {
            assert_eq!(check(&format!("{} {} \"1 \"2", opcode, operator)), EXPRESSION);
            assert_eq!(check(&format!("{} {} \"1", opcode, operator)), EXPRESSION);
            assert_eq!(check(&format!("{} {}", opcode, operator)), EXPRESSION);
        }
        assert_eq!(check(&format!("{} [ \"1 \"2", opcode)), COUNT);
    }
}

#[test]
fn opcodes_with_name_and_value() {
    for opcode in ["MAKE", "ADDASSIGN"] {
        assert_eq!(check(opcode), COUNT);
        assert_eq!(check(&format!("{} \"x", opcode)), COUNT);
        assert_eq!(check(&format!("{} \"x \"1", opcode)), PLAIN);
        assert_eq!(check(&format!("{} XCOR YCOR", opcode)), PLAIN);
        for operator in ["EQ", "NE", "GT", "LT", "AND", "OR", "+", "-", "*", "/"] {
            assert_eq!(check(&format!("{} \"x {}", opcode, operator)), EXPRESSION);
            assert_eq!(check(&format!("{} \"x {} \"1 \"2", opcode, operator)), EXPRESSION);
        }
        assert_eq!(check(&format!("{} * \"x", opcode)), PLAIN);
        assert_eq!(check(&format!("{} \"x [", opcode)), PLAIN);
        assert_eq!(check(&format!("{} \"x \"1 \"2", opcode)), COUNT);
        assert_eq!(check(&format!("{} + \"x \"1 \"2", opcode)), COUNT);
        assert_eq!(check(&format!("{} \"x * \"1 \"2", opcode)), EXPRESSION);
        assert_eq!(check(&format!("{} \"x OR :a", opcode)), EXPRESSION);
    }
}

#[test]
fn other_opcodes_take_anything() {
    assert_eq!(check("//"), PLAIN);
    assert_eq!(check("// anything at all +"), PLAIN);
    assert_eq!(check("]"), PLAIN);
    assert_eq!(check("] ]"), PLAIN);
    assert_eq!(check("box"), PLAIN);
    assert_eq!(check("box \"1 \"2 \"3"), PLAIN);
    assert_eq!(check("forward \"1 \"2"), PLAIN);
}

#[test]
fn tokens_are_resolved() {
    let mut vars = Variables::new();
    vars.insert("size".to_string(), "40".to_string());
    vars.insert("".to_string(), "nameless".to_string());
    let mut pet = turtle();
    pet.change_heading(-90);
    pet.change_colour(3);
    assert_eq!(
        command("MAKE \"x :size").get_tokens(&pet, &vars),
        Ok(words(&["x", "40"]))
    );
    assert_eq!(
        command("box XCOR YCOR HEADING COLOR").get_tokens(&pet, &vars),
        Ok(words(&["12.5", "-4", "-90", "3"]))
    );
    assert_eq!(
        command("IF AND EQ \"a \"a GT :size \"1 [").get_tokens(&pet, &vars),
        Ok(words(&["AND", "EQ", "a", "a", "GT", "40", "1", "["]))
    );
    assert_eq!(
        command("x EQ NE GT LT AND OR + - * / [").get_tokens(&pet, &vars),
        Ok(words(&["EQ", "NE", "GT", "LT", "AND", "OR", "+", "-", "*", "/", "["]))
    );
    assert_eq!(
        command("x \" : \"\"q \":size").get_tokens(&pet, &vars),
        Ok(words(&["", "nameless", "\"q", ":size"]))
    );
    assert_eq!(command("PENUP").get_tokens(&pet, &vars), Ok(words(&[])));
}

#[test]
fn comment_has_no_tokens() {
    let vars = Variables::new();
    assert_eq!(
        command("// :missing 12 ] nonsense").get_tokens(&turtle(), &vars),
        Ok(words(&[]))
    );
}

#[test]
fn procedure_name_passes_as_written() {
    let mut vars = Variables::new();
    vars.insert("x".to_string(), "7".to_string());
    assert_eq!(
        command("TO box \"side").get_tokens(&turtle(), &vars),
        Ok(words(&["box", "side"]))
    );
    assert_eq!(
        command("TO :x XCOR").get_tokens(&turtle(), &vars),
        Ok(words(&[":x", "12.5"]))
    );
    assert_eq!(
        command("TO XCOR :x").get_tokens(&turtle(), &vars),
        Ok(words(&["XCOR", "7"]))
    );
    assert_eq!(
        command("TO box side").get_tokens(&turtle(), &vars),
        Err(ErrorKind::InvalidToken)
    );
}

#[test]
fn unknown_variable_and_token_fail() {
    let mut vars = Variables::new();
    vars.insert("a".to_string(), "1".to_string());
    assert_eq!(
        command("FORWARD :b").get_tokens(&turtle(), &vars),
        Err(ErrorKind::UndefinedVariable)
    );
    assert_eq!(
        command("FORWARD 10").get_tokens(&turtle(), &vars),
        Err(ErrorKind::InvalidToken)
    );
    assert_eq!(
        command("FORWARD xcor").get_tokens(&turtle(), &vars),
        Err(ErrorKind::InvalidToken)
    );
    assert_eq!(
        command("FORWARD ]").get_tokens(&turtle(), &vars),
        Err(ErrorKind::InvalidToken)
    );
    // the first failure counts
    assert_eq!(
        command("box :a 10 :b").get_tokens(&turtle(), &vars),
        Err(ErrorKind::InvalidToken)
    );
    assert_eq!(
        command("box :a :b 10").get_tokens(&turtle(), &vars),
        Err(ErrorKind::UndefinedVariable)
    );
    let empty = Command::new(words(&["box", ""]));
    assert_eq!(empty.get_tokens(&turtle(), &vars), Err(ErrorKind::InvalidToken));
}

#[test]
fn resolving_changes_nothing() {
    let mut vars = Variables::new();
    vars.insert("a".to_string(), "1".to_string());
    let pet = turtle();
    let line = command("MAKE \"a XCOR");
    assert_eq!(line.get_tokens(&pet, &vars), Ok(words(&["a", "12.5"])));
    assert_eq!(line.get_tokens(&pet, &vars), Ok(words(&["a", "12.5"])));
    assert_eq!(vars.get("a"), Some(&"1".to_string()));
    assert_eq!(pet.coords, ("12.5".to_string(), "-4".to_string()));
}

#[test]
fn procedures_are_counted_by_opcode() {
    let lines = [command("TO a"), command("MAKE \"TO \"END"), command("END")];
    assert_eq!(check_procedures(&lines), Ok(()));
    let lines = [command("TO a"), command("TO b"), command("END")];
    assert_eq!(check_procedures(&lines), Err(ErrorKind::SurplusProcedureStart));
    let lines = [command("box END")];
    assert_eq!(check_procedures(&lines), Ok(()));
    let lines = [command("END")];
    assert_eq!(check_procedures(&lines), Err(ErrorKind::SurplusProcedureEnd));
}

#[test]
fn variables_keep_the_last_value() {
    let mut vars = Variables::new();
    assert_eq!(vars.get("a"), None);
    vars.insert("a".to_string(), "1".to_string());
    vars.insert("b".to_string(), "2".to_string());
    vars.insert("a".to_string(), "3".to_string());
    assert_eq!(vars.get("a"), Some(&"3".to_string()));
    assert_eq!(vars.get("b"), Some(&"2".to_string()));
    assert_eq!(vars.get("A"), None);
}
