use ogma::error::Category;
use ogma::plan::{compile, Block, CommandDef, Definitions, Stage, Type};

fn def(name: &str, input: Type, output: Type) -> CommandDef {
    CommandDef { name: name.to_string(), input, output }
}

fn block(cmd: &str, start: usize) -> Block {
    Block { cmd: cmd.to_string(), start, len: cmd.len() }
}

fn registry() -> Definitions {
    let mut d = Definitions::new();
    d.insert(def("open", Type::Nil, Type::Table));
    d.insert(def("len", Type::Table, Type::Num));
    d.insert(def("+", Type::Num, Type::Num));
    d.insert(def("to-str", Type::Num, Type::Str));
    d
}

#[test]
fn pipeline_compiles_to_chained_stages() {
    let d = registry();
    let blocks = vec![block("open", 0), block("len", 7), block("+", 13)];
    let plan = compile(&d, Type::Nil, &blocks).unwrap();
    assert_eq!(
        plan,
        vec![
            Stage { block: 0, input: Type::Nil, output: Type::Table },
            Stage { block: 1, input: Type::Table, output: Type::Num },
            Stage { block: 2, input: Type::Num, output: Type::Num },
        ]
    );
}

#[test]
fn empty_pipeline_is_an_empty_plan() {
    let d = registry();
    assert_eq!(compile(&d, Type::Num, &Vec::new()).unwrap(), Vec::<Stage>::new());
}

#[test]
fn unknown_command_points_at_its_block() {
    let d = registry();
    let blocks = vec![block("open", 0), block("nope", 7), block("len", 14)];
    let e = compile(&d, Type::Nil, &blocks).unwrap_err();
    assert_eq!(e.cat, Category::Resolve);
    assert_eq!(e.traces.len(), 1);
    assert_eq!(e.desc, "unknown command");
    assert_eq!(e.traces[0].start, 7);
    assert_eq!(e.traces[0].len, 4);
    assert_eq!(e.traces[0].source, "nope");
}

#[test]
fn mismatch_points_at_the_middle_block() {
    let d = registry();
    // `len` needs a table but gets a number from `+`.
    let blocks = vec![block("+", 0), block("len", 4), block("+", 10), block("+", 14)];
    let e = compile(&d, Type::Num, &blocks).unwrap_err();
    assert_eq!(e.cat, Category::Resolve);
    assert_eq!(e.desc, "command does not take the input type");
    assert_eq!(e.traces[0].start, 4);
}

#[test]
fn seed_type_must_match_first_block() {
    let d = registry();
    let e = compile(&d, Type::Str, &vec![block("len", 0)]).unwrap_err();
    assert_eq!(e.traces[0].start, 0);
}

#[test]
fn redefinition_affects_later_plans_only() {
    let mut d = registry();
    let blocks = vec![block("to-str", 0)];
    let before = compile(&d, Type::Num, &blocks).unwrap();
    d.insert(def("to-str", Type::Num, Type::Bool));
    let after = compile(&d, Type::Num, &blocks).unwrap();
    assert_eq!(before[0].output, Type::Str);
    assert_eq!(after[0].output, Type::Bool);
    let i = d.lookup(&"to-str".to_string()).unwrap();
    assert_eq!(d.get(i).output, Type::Bool);
    assert!(d.lookup(&"missing".to_string()).is_none());
}

#[test]
fn record_types_match_by_name() {
    let mut d = Definitions::new();
    d.insert(def("mk", Type::Nil, Type::Record(1)));
    d.insert(def("use", Type::Record(2), Type::Num));
    let e = compile(&d, Type::Nil, &vec![block("mk", 0), block("use", 3)]).unwrap_err();
    assert_eq!(e.traces[0].start, 3);
}
