use fire::coerce::ArgValue;
use fire::codec::{dumps, loads};
use fire::dispatch::dispatch;
use fire::errors::FireError;
use fire::registry::{ParamDef, Registry, SubCommand};

fn param(name: &str, ty: &str) -> ParamDef {
    ParamDef { name: name.to_string(), ty: ty.to_string() }
}

fn subcommand(func: &str, params: Vec<ParamDef>) -> SubCommand {
    SubCommand { func: func.to_string(), args: params }
}

fn strings(tokens: &[&str]) -> Vec<String> {
    let mut v = Vec::new();
    for t in tokens {
        v.push(t.to_string());
    }
    v
}

#[test]
fn test_fire_dumps() {
    let mut f = Registry::new();
    f.insert(
        "command1".to_string(),
        SubCommand {
            func: "func1".to_string(),
            args: vec![
                ParamDef { name: "arg1".to_string(), ty: "u32".to_string() },
                ParamDef { name: "arg2".to_string(), ty: "u32".to_string() },
            ],
        },
    );
    f.insert(
        "command2".to_string(),
        SubCommand {
            func: "func2".to_string(),
            args: vec![ParamDef { name: "arg1".to_string(), ty: "u32".to_string() }],
        },
    );
    let s = dumps(f);
    assert!(s == "command1-func1-arg1:u32-arg2:u32\ncommand2-func2-arg1:u32".to_string());
}

// The default command with a string and an integer parameter, as the
// original exercises through its generated dispatcher.
#[test]
fn test_func() {
    let mut reg = Registry::new();
    reg.register(
        "".to_string(),
        "",
        "hello",
        vec![param("name", "& str"), param("age", "i32")],
    );
    let inv = dispatch(&reg, strings(&["--name=JohnSmith", "--age=22"])).unwrap();
    assert_eq!(inv.target, "hello".to_string());
    assert_eq!(
        inv.args,
        vec![ArgValue::Text("JohnSmith".to_string()), ArgValue::Int(22)]
    );
}

// A default command without parameters, called with no arguments at all.
#[test]
fn test_no_args() {
    let mut reg = Registry::new();
    reg.register("".to_string(), "", "noargs", vec![]);
    let inv = dispatch(&reg, strings(&[])).unwrap();
    assert_eq!(inv.target, "noargs".to_string());
    assert!(inv.args.is_empty());
}

// Commands grouped under a module dispatch by their own name to the
// module-qualified target.
#[test]
fn test_mod() {
    let mut reg = Registry::new();
    reg.register(
        "hello".to_string(),
        "mymod",
        "hello",
        vec![param("name", "& str"), param("age", "i32")],
    );
    reg.register("bye".to_string(), "mymod", "bye", vec![param("name", "& str")]);
    let inv = dispatch(&reg, strings(&["hello", "--name=JohnSmith", "--age=22"])).unwrap();
    assert_eq!(inv.target, "mymod::hello".to_string());
    assert_eq!(
        inv.args,
        vec![ArgValue::Text("JohnSmith".to_string()), ArgValue::Int(22)]
    );
}

// A registry with a default entry and two named entries routes a named
// first token to its own entry, and flag-only input to the default.
#[test]
fn routing_picks_named_and_default_commands() {
    let mut reg = Registry::new();
    reg.insert("".to_string(), subcommand("default", vec![param("name", "string")]));
    reg.insert(
        "hello".to_string(),
        subcommand("groupedHello", vec![param("name", "string"), param("age", "i32")]),
    );
    reg.insert("bye".to_string(), subcommand("groupedBye", vec![]));
    let inv = dispatch(&reg, strings(&["hello", "--name=A", "--age=1"])).unwrap();
    assert_eq!(inv.target, "groupedHello".to_string());
    let inv = dispatch(&reg, strings(&["--name=A"])).unwrap();
    assert_eq!(inv.target, "default".to_string());
}

#[test]
fn dispatch_unknown_command_fails() {
    let mut reg = Registry::new();
    reg.insert("".to_string(), subcommand("default", vec![]));
    let e = dispatch(&reg, strings(&["nosuch"])).unwrap_err();
    assert_eq!(e, FireError::CommandNotFound { command: "nosuch".to_string() });
    assert_eq!(e.message(), "func not found: 'nosuch'".to_string());
}

#[test]
fn dispatch_empty_registry_fails() {
    let reg = Registry::new();
    let e = dispatch(&reg, strings(&[])).unwrap_err();
    assert_eq!(e, FireError::EmptyRegistry);
    assert_eq!(e.message(), "no function registered".to_string());
}

// Encoding a registry and decoding the text yields the same registry.
#[test]
fn codec_round_trip_concrete() {
    let mut reg = Registry::new();
    reg.insert("".to_string(), subcommand("default", vec![param("x", "u8")]));
    reg.insert(
        "greet".to_string(),
        subcommand("greetings::greet", vec![param("name", "& str"), param("age", "i32")]),
    );
    reg.insert("quit".to_string(), subcommand("quit", vec![]));
    let text = dumps_copy(&reg);
    let back = loads(&text).unwrap();
    assert_eq!(back, reg);
}

// `dumps` consumes its registry; rebuild an identical one for comparison.
fn dumps_copy(reg: &Registry) -> String {
    let mut copy = Registry::new();
    for (name, cmd) in &reg.entries {
        let mut args = Vec::new();
        for a in &cmd.args {
            args.push(param(&a.name, &a.ty));
        }
        copy.insert(name.clone(), subcommand(&cmd.func, args));
    }
    dumps(copy)
}

// Entries come out in key order no matter the insertion order, and a
// reinserted key keeps only its last descriptor.
#[test]
fn registry_orders_and_overwrites() {
    let mut reg = Registry::new();
    reg.insert("b".to_string(), subcommand("second", vec![]));
    reg.insert("a".to_string(), subcommand("first", vec![]));
    reg.insert("b".to_string(), subcommand("replaced", vec![]));
    assert_eq!(dumps(reg), "a-first-\nb-replaced-".to_string());
}

#[test]
fn registry_get_finds_entries() {
    let mut reg = Registry::new();
    reg.insert("one".to_string(), subcommand("f1", vec![]));
    reg.insert("two".to_string(), subcommand("f2", vec![param("n", "u8")]));
    assert_eq!(reg.get("two").unwrap().func, "f2".to_string());
    assert!(reg.get("three").is_none());
    assert_eq!(reg.len(), 2);
}

// Decoding tolerates a line with a single `-` (empty parameter list) but
// rejects a line without `-` and a parameter without `:`.
#[test]
fn loads_edge_cases() {
    assert!(loads("").is_none());
    assert!(loads("nodash").is_none());
    assert!(loads("a-b-x").is_none());
    let reg = loads("a-b").unwrap();
    assert_eq!(reg.get("a").unwrap().func, "b".to_string());
    assert!(reg.get("a").unwrap().args.is_empty());
    let reg = loads("-f-").unwrap();
    assert_eq!(reg.get("").unwrap().func, "f".to_string());
    let reg = loads("c-f-a:u8-b:i32").unwrap();
    let args = &reg.get("c").unwrap().args;
    assert_eq!(args.len(), 2);
    assert_eq!(args[0], param("a", "u8"));
    assert_eq!(args[1], param("b", "i32"));
}

#[test]
fn dumps_empty_registry_is_empty_text() {
    let reg = Registry::new();
    assert_eq!(dumps(reg), "".to_string());
}

// Decoding inserts entries back through the registry, so lines arriving
// out of key order come out ordered again.
#[test]
fn loads_reorders_lines_by_key() {
    let reg = loads("b-f2-\na-f1-").unwrap();
    assert_eq!(dumps(reg), "a-f1-\nb-f2-".to_string());
}

// A later line for the same command name wins, as a later registration
// would.
#[test]
fn loads_last_line_wins_for_a_repeated_key() {
    let reg = loads("a-f1-\na-f2-").unwrap();
    assert_eq!(dumps(reg), "a-f2-".to_string());
}
