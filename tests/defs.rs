use ogma::defs::{compile_expression, UserDef, UserDefs, MAX_DEPTH};
use ogma::error::Category;
use ogma::plan::{compile, Block, CommandDef, Definitions, Stage, Type};

fn block(cmd: &str, start: usize) -> Block {
    Block { cmd: cmd.to_string(), start, len: cmd.len() }
}

fn builtins() -> Definitions {
    let mut d = Definitions::new();
    for (n, i, o) in [
        ("open", Type::Nil, Type::Table),
        ("len", Type::Table, Type::Num),
        ("+", Type::Num, Type::Num),
        ("to-str", Type::Num, Type::Str),
    ] {
        d.insert(CommandDef { name: n.to_string(), input: i, output: o });
    }
    d
}

#[test]
fn user_def_call_compiles_like_its_body() {
    let cmds = builtins();
    let mut user = UserDefs::new();
    user.insert(UserDef { name: "count".to_string(), body: vec![block("len", 0), block("+", 6)] });
    let called = compile_expression(&cmds, &user, Type::Nil, &vec![block("open", 0), block("count", 7)], MAX_DEPTH)
        .unwrap();
    let inlined = compile(&cmds, Type::Nil, &vec![block("open", 0), block("len", 7), block("+", 13)]).unwrap();
    let types = |p: &Vec<Stage>| p.iter().map(|s| (s.input, s.output)).collect::<Vec<_>>();
    assert_eq!(types(&called), types(&inlined));
    assert_eq!(called.iter().map(|s| s.block).collect::<Vec<_>>(), vec![0, 1, 1]);
}

#[test]
fn add_one_on_a_number() {
    let cmds = builtins();
    let mut user = UserDefs::new();
    user.insert(UserDef { name: "add-one".to_string(), body: vec![block("+", 0)] });
    let plan = compile_expression(&cmds, &user, Type::Num, &vec![block("add-one", 4)], MAX_DEPTH).unwrap();
    assert_eq!(plan, vec![Stage { block: 0, input: Type::Num, output: Type::Num }]);
}

#[test]
fn nested_user_defs_expand() {
    let cmds = builtins();
    let mut user = UserDefs::new();
    user.insert(UserDef { name: "inc".to_string(), body: vec![block("+", 0)] });
    user.insert(UserDef { name: "inc2".to_string(), body: vec![block("inc", 0), block("inc", 4)] });
    let blocks = vec![block("inc2", 0), block("to-str", 5)];
    let expanded = user.expand(&blocks, MAX_DEPTH).unwrap();
    let names: Vec<&str> = expanded.iter().map(|b| b.cmd.as_str()).collect();
    assert_eq!(names, vec!["+", "+", "to-str"]);
    assert!(user.expand(&blocks, 1).is_none());
    assert!(user.expand(&blocks, 2).is_some());
}

#[test]
fn self_reference_is_too_deep() {
    let cmds = builtins();
    let mut user = UserDefs::new();
    user.insert(UserDef { name: "again".to_string(), body: vec![block("again", 0)] });
    let e = compile_expression(&cmds, &user, Type::Num, &vec![block("again", 0)], MAX_DEPTH).unwrap_err();
    assert_eq!(e.cat, Category::Resolve);
    assert_eq!(e.desc, "definition too deeply nested");
    assert_eq!(e.traces.len(), 1);
    assert_eq!(e.traces[0].start, 0);
    assert_eq!(e.traces[0].len, 5);
}

#[test]
fn user_redefinition_affects_later_plans_only() {
    let cmds = builtins();
    let mut user = UserDefs::new();
    user.insert(UserDef { name: "f".to_string(), body: vec![block("+", 0)] });
    let blocks = vec![block("f", 0)];
    let before = compile_expression(&cmds, &user, Type::Num, &blocks, MAX_DEPTH).unwrap();
    user.insert(UserDef { name: "f".to_string(), body: vec![block("to-str", 0)] });
    let after = compile_expression(&cmds, &user, Type::Num, &blocks, MAX_DEPTH).unwrap();
    assert_eq!(before[0].output, Type::Num);
    assert_eq!(after[0].output, Type::Str);
    assert_eq!(user.lookup(&"f".to_string()), Some(0));
}

#[test]
fn failure_inside_expansion_is_reported() {
    let cmds = builtins();
    let mut user = UserDefs::new();
    user.insert(UserDef { name: "bad".to_string(), body: vec![block("len", 2)] });
    let e = compile_expression(&cmds, &user, Type::Num, &vec![block("+", 0), block("bad", 4)], MAX_DEPTH)
        .unwrap_err();
    assert_eq!(e.desc, "command does not take the input type");
    assert_eq!(e.traces.len(), 2);
    assert_eq!(e.traces[0].start, 4);
    assert_eq!(e.traces[0].len, 3);
    assert_eq!(e.traces[1].start, 2);
}

#[test]
fn failure_outside_user_defs_has_one_trace() {
    let cmds = builtins();
    let mut user = UserDefs::new();
    user.insert(UserDef { name: "inc".to_string(), body: vec![block("+", 0)] });
    let e = compile_expression(&cmds, &user, Type::Num, &vec![block("inc", 0), block("len", 6), block("+", 12)], MAX_DEPTH)
        .unwrap_err();
    assert_eq!(e.traces.len(), 1);
    assert_eq!(e.traces[0].start, 6);
}

#[test]
fn unknown_command_in_body_points_at_call_then_body() {
    let cmds = builtins();
    let mut user = UserDefs::new();
    user.insert(UserDef { name: "f".to_string(), body: vec![block("nope", 100)] });
    let e = compile_expression(&cmds, &user, Type::Num, &vec![block("f", 0)], MAX_DEPTH).unwrap_err();
    assert_eq!(e.desc, "unknown command");
    assert_eq!((e.traces[0].start, e.traces[0].len), (0, 1));
    assert_eq!(e.traces[1].start, 100);
}

#[test]
fn define_rejects_self_reference() {
    let mut user = UserDefs::new();
    let e = user
        .define(UserDef { name: "again".to_string(), body: vec![block("+", 0), block("again", 2)] })
        .unwrap_err();
    assert_eq!(e.cat, Category::Resolve);
    assert_eq!(e.desc, "cyclic definition");
    assert_eq!(e.traces[0].start, 2);
    assert!(user.lookup(&"again".to_string()).is_none());
    assert!(user.define(UserDef { name: "ok".to_string(), body: vec![block("+", 0)] }).is_ok());
    assert_eq!(user.lookup(&"ok".to_string()), Some(0));
}
