use ho_unify::commands::{accepts_defaults, parse_limit, yes_no, Command};
use ho_unify::reader::{add_type, check_constraint, create_variable, validate_name_case};
use ho_unify::session::{delete_variable, get_var, has_variable};
use ho_unify::term::{TermKind, Type, Var, Variable};

fn var(name: &str, kind: TermKind, ty: Type) -> Variable {
    Variable { name: name.to_string(), term_kind: kind, ty, var: Var::Basic }
}

fn no_file() -> Result<String, String> {
    Err("Datei fehlt".to_string())
}

#[test]
fn term_kinds_are_read_in_any_case() {
    assert_eq!(TermKind::from_text("FVar"), Ok(TermKind::FVar));
    assert_eq!(TermKind::from_text("BVAR"), Ok(TermKind::BVar));
    assert_eq!(TermKind::from_text("const"), Ok(TermKind::Const));
    assert_eq!(TermKind::from_text("Wert"), Err("Unbekannter TermKind: wert".to_string()));
}

#[test]
fn base_types_are_read_in_any_case() {
    assert_eq!(Type::from_text("nat", &no_file()), Ok(Type::Nat));
    assert_eq!(Type::from_text(" Real ", &no_file()), Ok(Type::Real));
    assert_eq!(Type::from_text("BOOL", &no_file()), Ok(Type::Bool));
}

#[test]
fn arrow_types_split_at_the_first_arrow() {
    let t = Type::from_text("nat->bool->real", &no_file()).unwrap();
    assert_eq!(
        t,
        Type::Arrow(Box::new(Type::Nat), Box::new(Type::Arrow(Box::new(Type::Bool), Box::new(Type::Real))))
    );
    assert_eq!(t.to_string(), "Nat->Bool->Real");
}

#[test]
fn declared_types_come_from_the_json_list() {
    let file: Result<String, String> = Ok("[\"Tree\", \"List\"]".to_string());
    assert_eq!(Type::from_text("Tree", &file), Ok(Type::Custom("Tree".to_string())));
    assert_eq!(
        Type::from_text("List->nat", &file),
        Ok(Type::Arrow(Box::new(Type::Custom("List".to_string())), Box::new(Type::Nat)))
    );
    assert_eq!(Type::from_text("Graph", &file), Err("Unbekannter Typ: Graph".to_string()));
    assert_eq!(Type::from_text("tree", &file), Err("Unbekannter Typ: tree".to_string()));
}

#[test]
fn unknown_types_report_the_file_problem() {
    assert_eq!(Type::from_text("Tree", &no_file()), Err("Datei fehlt".to_string()));
    let broken: Result<String, String> = Ok("[1, 2".to_string());
    assert!(Type::from_text("Tree", &broken).is_err());
    assert_ne!(Type::from_text("Tree", &broken), Err("Unbekannter Typ: Tree".to_string()));
}

#[test]
fn names_follow_the_case_of_their_kind() {
    assert_eq!(validate_name_case("F", &TermKind::FVar), Ok(()));
    assert_eq!(validate_name_case("f", &TermKind::FVar), Err("FVar muss Großbuchstabe sein: f".to_string()));
    assert_eq!(validate_name_case("x", &TermKind::BVar), Ok(()));
    assert_eq!(validate_name_case("X", &TermKind::BVar), Err("BVar muss Kleinbuchstabe sein: X".to_string()));
    assert_eq!(validate_name_case("Ä", &TermKind::Const), Err("Const muss Kleinbuchstabe sein: Ä".to_string()));
    assert_eq!(validate_name_case("ä", &TermKind::Const), Ok(()));
    assert_eq!(validate_name_case("", &TermKind::FVar), Ok(()));
}

#[test]
fn create_variable_checks_the_name() {
    let v = create_variable("F".to_string(), TermKind::FVar, Type::Nat).unwrap();
    assert_eq!(v, var("F", TermKind::FVar, Type::Nat));
    assert!(create_variable("F".to_string(), TermKind::Const, Type::Nat).is_err());
}

#[test]
fn constraint_lines_are_checked() {
    let vars = vec![var("F", TermKind::FVar, Type::Nat), var("a", TermKind::Const, Type::Nat), var("x", TermKind::BVar, Type::Nat)];
    assert_eq!(check_constraint("F ?= a", &vars), Ok(()));
    assert_eq!(check_constraint("\\lx. F ?= λx. (a)", &vars), Ok(()));
    assert_eq!(check_constraint("F a", &vars), Err("Falsches Format".to_string()));
    assert_eq!(check_constraint("F ?= a ?= a", &vars), Err("Falsches Format".to_string()));
    assert_eq!(check_constraint("  ?= a", &vars), Err("Falsches Format".to_string()));
    assert_eq!(check_constraint("F ?= b", &vars), Err("Die Variable 'b' ist nicht definiert".to_string()));
    assert_eq!(check_constraint("F?=a ?= a", &vars), Err("Falsches Format".to_string()));
}

#[test]
fn add_type_keeps_the_list_free_of_repetitions() {
    let mut types = vec!["Tree".to_string()];
    add_type(&mut types, "List".to_string());
    add_type(&mut types, "Tree".to_string());
    assert_eq!(types, vec!["Tree".to_string(), "List".to_string()]);
}

#[test]
fn commands_are_read() {
    assert_eq!(Command::from_text(" Weiter "), Command::Next);
    assert_eq!(Command::from_text("STOP"), Command::Stop);
    assert_eq!(Command::from_text("Lösche  F "), Command::Delete("F".to_string()));
    assert_eq!(Command::from_text("LÖSCHE F"), Command::New("LÖSCHE F".to_string()));
    assert_eq!(Command::from_text("lösche"), Command::New("lösche".to_string()));
    assert_eq!(Command::from_text("F"), Command::New("F".to_string()));
    assert_eq!(Command::from_text("  "), Command::Invalid("  ".to_string()));
}

#[test]
fn yes_no_answers_are_read() {
    assert_eq!(yes_no(" J "), Some(true));
    assert_eq!(yes_no("ja"), Some(true));
    assert_eq!(yes_no("Nein"), Some(false));
    assert_eq!(yes_no("n"), Some(false));
    assert_eq!(yes_no("vielleicht"), None);
    assert!(accepts_defaults("Nein"));
    assert!(accepts_defaults(" n"));
    assert!(!accepts_defaults("Y"));
    assert!(!accepts_defaults(" ja"));
}

#[test]
fn limits_are_read() {
    assert_eq!(parse_limit("", 4), Some(4));
    assert_eq!(parse_limit("  7 ", 4), Some(7));
    assert_eq!(parse_limit("+12", 4), Some(12));
    assert_eq!(parse_limit("-1", 4), None);
    assert_eq!(parse_limit("1x", 4), None);
    assert_eq!(parse_limit("+", 4), None);
    assert_eq!(parse_limit("99999999999999999999999", 4), None);
    assert_eq!(parse_limit("18446744073709551615", 4), Some(usize::MAX));
}

#[test]
fn variables_are_found_and_deleted_by_name() {
    let mut vars = vec![var("F", TermKind::FVar, Type::Nat), var("a", TermKind::Const, Type::Nat), var("F", TermKind::FVar, Type::Bool)];
    assert_eq!(get_var(&"F".to_string(), &vars), Some(var("F", TermKind::FVar, Type::Nat)));
    assert_eq!(get_var(&"G".to_string(), &vars), None);
    assert!(has_variable(&vars, &"a".to_string()));
    assert!(!has_variable(&vars, &"b".to_string()));
    let removed = delete_variable(&mut vars, &"F".to_string());
    assert_eq!(removed, Some(var("F", TermKind::FVar, Type::Nat)));
    assert_eq!(vars, vec![var("a", TermKind::Const, Type::Nat), var("F", TermKind::FVar, Type::Bool)]);
    assert_eq!(delete_variable(&mut vars, &"G".to_string()), None);
}
