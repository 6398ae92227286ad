use fire::binder::bind_args;
use fire::cli::{parse_args, parse_command};
use fire::errors::FireError;
use fire::registry::ParamDef;

fn strings(tokens: &[&str]) -> Vec<String> {
    let mut v = Vec::new();
    for t in tokens {
        v.push(t.to_string());
    }
    v
}

fn param(name: &str, ty: &str) -> ParamDef {
    ParamDef { name: name.to_string(), ty: ty.to_string() }
}

fn flags(pairs: &[(&str, &str)]) -> Vec<(String, String)> {
    let mut v = Vec::new();
    for (n, x) in pairs {
        v.push((n.to_string(), x.to_string()));
    }
    v
}

#[test]
fn tokenizer_empty_input() {
    let (cmd, rest) = parse_command(strings(&[]));
    assert_eq!(cmd, "".to_string());
    assert!(rest.is_empty());
}

#[test]
fn tokenizer_leading_name_is_command() {
    let (cmd, rest) = parse_command(strings(&["foo", "--x=1"]));
    assert_eq!(cmd, "foo".to_string());
    assert_eq!(rest, strings(&["--x=1"]));
}

// An empty first token does not start with `-`, so it is consumed as the
// (default) command name rather than left among the flags.
#[test]
fn tokenizer_empty_first_token_is_a_command_name() {
    let (cmd, rest) = parse_command(strings(&["", "--x=1"]));
    assert_eq!(cmd, "".to_string());
    assert_eq!(rest, strings(&["--x=1"]));
}

#[test]
fn tokenizer_leading_flag_means_default_command() {
    let (cmd, rest) = parse_command(strings(&["--x=1"]));
    assert_eq!(cmd, "".to_string());
    assert_eq!(rest, strings(&["--x=1"]));
}

#[test]
fn flag_parser_accepts_well_formed_flags() {
    let parsed = parse_args(strings(&["--name=JohnSmith", "--age=22"])).unwrap();
    assert_eq!(parsed, flags(&[("name", "JohnSmith"), ("age", "22")]));
}

#[test]
fn flag_parser_rejects_missing_prefix() {
    let e = parse_args(strings(&["name=1"])).unwrap_err();
    assert_eq!(e, FireError::MalformedFlag { token: "name=1".to_string() });
    assert_eq!(e.message(), "invalid parameters: 'name=1'".to_string());
}

#[test]
fn flag_parser_rejects_two_equals_signs() {
    let e = parse_args(strings(&["--a=1=2"])).unwrap_err();
    assert_eq!(e, FireError::MalformedFlag { token: "a=1=2".to_string() });
}

#[test]
fn flag_parser_rejects_missing_equals_sign() {
    let e = parse_args(strings(&["--a"])).unwrap_err();
    assert_eq!(e, FireError::MalformedFlag { token: "a".to_string() });
}

#[test]
fn flag_parser_allows_empty_name_and_value() {
    let parsed = parse_args(strings(&["--=v", "--k="])).unwrap();
    assert_eq!(parsed, flags(&[("", "v"), ("k", "")]));
}

#[test]
fn binder_binds_all_required_flags() {
    let params = vec![param("name", "string"), param("age", "i32")];
    let bound = bind_args(&params, flags(&[("name", "JohnSmith"), ("age", "22")])).unwrap();
    assert_eq!(bound, strings(&["JohnSmith", "22"]));
}

#[test]
fn binder_with_no_params_and_no_flags() {
    let params: Vec<ParamDef> = vec![];
    let bound = bind_args(&params, flags(&[])).unwrap();
    assert!(bound.is_empty());
}

#[test]
fn binder_marks_missing_flag_with_sentinel() {
    let params = vec![param("name", "Option<&str>")];
    let bound = bind_args(&params, flags(&[])).unwrap();
    assert_eq!(bound, strings(&["__FIRE_THIS_IS_NONE"]));
}

#[test]
fn binder_rejects_unexpected_flag() {
    let params = vec![param("age", "i32")];
    let e = bind_args(&params, flags(&[("age", "22"), ("bogus", "1")])).unwrap_err();
    assert_eq!(e, FireError::UnexpectedArgument { name: "bogus".to_string() });
    assert_eq!(e.message(), "unexpected args: bogus".to_string());
}

// Flags bind in declaration order of the parameters, not flag order.
#[test]
fn binder_orders_by_declaration() {
    let params = vec![param("a", "u8"), param("b", "u8")];
    let bound = bind_args(&params, flags(&[("b", "2"), ("a", "1")])).unwrap();
    assert_eq!(bound, strings(&["1", "2"]));
}

// Of two flags with one name, a single parameter consumes only the first;
// the second stays unconsumed and fails the bind.
#[test]
fn binder_consumes_one_flag_per_param() {
    let params = vec![param("a", "u8")];
    let e = bind_args(&params, flags(&[("a", "1"), ("a", "2")])).unwrap_err();
    assert_eq!(e, FireError::UnexpectedArgument { name: "a".to_string() });
}
