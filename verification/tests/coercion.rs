use fire::coerce::{coerce_all, coerce_one, ArgValue};
use fire::errors::FireError;
use fire::registry::ParamDef;

fn param(name: &str, ty: &str) -> ParamDef {
    ParamDef { name: name.to_string(), ty: ty.to_string() }
}

fn coerce(ty: &str, raw: &str) -> Result<ArgValue, FireError> {
    coerce_one(&param("x", ty), &raw.to_string())
}

const SENTINEL: &str = "__FIRE_THIS_IS_NONE";

#[test]
fn optional_str_present_and_absent() {
    assert_eq!(coerce("Option<&str>", "abc").unwrap(), ArgValue::Text("abc".to_string()));
    assert_eq!(coerce("Option<&str>", SENTINEL).unwrap(), ArgValue::Absent);
    // the spaced rendering of the same declaration
    assert_eq!(coerce("Option < & str >", "abc").unwrap(), ArgValue::Text("abc".to_string()));
    assert_eq!(coerce("Option < & str >", SENTINEL).unwrap(), ArgValue::Absent);
}

#[test]
fn optional_scalar_parses_or_is_absent() {
    assert_eq!(coerce("Option<i32>", "7").unwrap(), ArgValue::Int(7));
    assert_eq!(coerce("Option < i32 >", "7").unwrap(), ArgValue::Int(7));
    assert_eq!(coerce("Option<i32>", SENTINEL).unwrap(), ArgValue::Absent);
    assert_eq!(
        coerce("Option<i32>", "x").unwrap_err(),
        FireError::TypeCoercionError { value: "x".to_string() }
    );
}

#[test]
fn required_str_present_and_missing() {
    assert_eq!(coerce("&str", "abc").unwrap(), ArgValue::Text("abc".to_string()));
    assert_eq!(coerce("& str", "abc").unwrap(), ArgValue::Text("abc".to_string()));
    let e = coerce("& str", SENTINEL).unwrap_err();
    assert_eq!(e, FireError::MissingRequiredArgument { name: "x".to_string() });
    assert_eq!(e.message(), "arg 'x' not specified!".to_string());
}

#[test]
fn required_scalar_missing_is_fatal() {
    let e = coerce("i32", SENTINEL).unwrap_err();
    assert_eq!(e, FireError::MissingRequiredArgument { name: "x".to_string() });
}

#[test]
fn string_scalar_takes_value_raw() {
    assert_eq!(coerce("string", "he llo").unwrap(), ArgValue::Text("he llo".to_string()));
    assert_eq!(coerce("String", "22").unwrap(), ArgValue::Text("22".to_string()));
}

// A real value equal to the sentinel text is indistinguishable from an
// unsupplied one: the reserved marker wins.
#[test]
fn sentinel_collision_reads_as_absent() {
    assert_eq!(coerce("Option<&str>", SENTINEL).unwrap(), ArgValue::Absent);
    assert!(matches!(
        coerce("&str", SENTINEL),
        Err(FireError::MissingRequiredArgument { .. })
    ));
}

#[test]
fn signed_parsing_follows_parse() {
    assert_eq!(coerce("i8", "-128").unwrap(), ArgValue::Int(-128));
    assert_eq!(coerce("i8", "127").unwrap(), ArgValue::Int(127));
    assert_eq!(coerce("i8", "+5").unwrap(), ArgValue::Int(5));
    assert!(coerce("i8", "-129").is_err());
    assert!(coerce("i8", "128").is_err());
    assert!(coerce("i8", "").is_err());
    assert!(coerce("i8", "-").is_err());
    assert!(coerce("i8", "+-3").is_err());
    assert!(coerce("i8", "1 2").is_err());
    assert_eq!(coerce("i32", "-2147483648").unwrap(), ArgValue::Int(-2147483648));
    assert!(coerce("i32", "2147483648").is_err());
    assert_eq!(
        coerce("i64", "-9223372036854775808").unwrap(),
        ArgValue::Int(-9223372036854775808)
    );
    assert_eq!(
        coerce("i64", "9223372036854775807").unwrap(),
        ArgValue::Int(9223372036854775807)
    );
    assert!(coerce("i64", "9223372036854775808").is_err());
    assert_eq!(coerce("i16", "-0").unwrap(), ArgValue::Int(0));
    assert_eq!(coerce("i32", "0012").unwrap(), ArgValue::Int(12));
}

#[test]
fn unsigned_parsing_follows_parse() {
    assert_eq!(coerce("u8", "255").unwrap(), ArgValue::Uint(255));
    assert!(coerce("u8", "256").is_err());
    assert!(coerce("u8", "-1").is_err());
    assert_eq!(coerce("u8", "+7").unwrap(), ArgValue::Uint(7));
    assert_eq!(coerce("u16", "65535").unwrap(), ArgValue::Uint(65535));
    assert_eq!(coerce("u32", "4294967295").unwrap(), ArgValue::Uint(4294967295));
    assert_eq!(
        coerce("u64", "18446744073709551615").unwrap(),
        ArgValue::Uint(18446744073709551615)
    );
    assert!(coerce("u64", "18446744073709551616").is_err());
    let e = coerce("u32", "abc").unwrap_err();
    assert_eq!(e, FireError::TypeCoercionError { value: "abc".to_string() });
    assert_eq!(e.message(), "parse abc failed".to_string());
}

#[test]
fn bool_and_char_parsing() {
    assert_eq!(coerce("bool", "true").unwrap(), ArgValue::Bool(true));
    assert_eq!(coerce("bool", "false").unwrap(), ArgValue::Bool(false));
    assert!(coerce("bool", "True").is_err());
    assert!(coerce("bool", "1").is_err());
    assert_eq!(coerce("char", "z").unwrap(), ArgValue::Char('z'));
    assert!(coerce("char", "zz").is_err());
    assert!(coerce("char", "").is_err());
}

// A type descriptor outside the recognized scalars cannot be coerced.
#[test]
fn unknown_type_fails_coercion() {
    assert!(matches!(
        coerce("Duration", "5s"),
        Err(FireError::TypeCoercionError { .. })
    ));
    assert!(matches!(
        coerce("Option<Duration>", "5s"),
        Err(FireError::TypeCoercionError { .. })
    ));
}

#[test]
fn coerce_all_keeps_positions_and_first_error() {
    let params = vec![param("name", "& str"), param("age", "i32"), param("tag", "Option<&str>")];
    let bound = vec!["JohnSmith".to_string(), "22".to_string(), SENTINEL.to_string()];
    let vals = coerce_all(&params, &bound).unwrap();
    assert_eq!(
        vals,
        vec![
            ArgValue::Text("JohnSmith".to_string()),
            ArgValue::Int(22),
            ArgValue::Absent,
        ]
    );
    let bound = vec!["JohnSmith".to_string(), "old".to_string(), "t".to_string()];
    let e = coerce_all(&params, &bound).unwrap_err();
    assert_eq!(e, FireError::TypeCoercionError { value: "old".to_string() });
}
