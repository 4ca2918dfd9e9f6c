//! What lambdas capture, which captures they write, and the cells of those.

use loft::captures::{collect_mutated_captures, Capture, Owner};
use loft::closures::{
    box_nested_capture_attrs, finalize_capture_storage, flip_scalars_to_box_types,
    reject_shared_mutable_scalar_captures, resolve_forward_captures, Lambdas, Refusal,
};
use loft::data::{Attribute, Data, DefType, Definition, Function, Variable};
use loft::ir::Value;
use loft::lambdas::record_captures;
use loft::types::{Deps, IntegerSpec, Type};

const OPERATORS: [&str; 9] = [
    "OpAddInt", "OpSetInt", "OpGetInt", "OpAppendText", "OpNot", "OpGetVector", "OpGetDbRef",
    "OpSetText", "OpGetText",
];

fn integer() -> Type {
    Type::Integer(IntegerSpec::signed32())
}

fn text() -> Type {
    Type::Text(Deps::none())
}

/// A program with a function `test`, its locals, and the lambdas in it.
struct Program {
    data: Data,
    test: u32,
    graph: Vec<Lambdas>,
    owners: Vec<Owner>,
}

impl Program {
    fn new(locals: Vec<(&str, Type)>) -> Program {
        let mut data = Data { definitions: Vec::new() };
        for name in OPERATORS {
            let mut op = Definition::new(name, DefType::Function);
            op.original_name = name[2..].to_string();
            data.definitions.push(op);
        }
        data.definitions.push(Definition::new("S", DefType::Struct));
        let mut test = Definition::new("n_test", DefType::Function);
        for (name, tp) in locals {
            test.variables.variables.push(Variable::plain(name.to_string(), tp));
        }
        data.definitions.push(test);
        let test = data.def_nr("n_test");
        Program { data, test, graph: Vec::new(), owners: Vec::new() }
    }

    fn op(&self, name: &str, args: Vec<Value>) -> Value {
        let d = self.data.def_nr(name);
        assert_ne!(d, u32::MAX, "operator {name} is not defined");
        Value::Call(d, args)
    }

    fn struct_type(&self) -> Type {
        Type::Reference(self.data.def_nr("S"), Deps::none())
    }

    /// A lambda that takes `params`, names `captured` (variables behind the parameters)
    /// and runs `code`.
    fn lambda(&mut self, params: Vec<&str>, captured: Vec<(&str, Type)>, code: Value) -> u32 {
        let nr = self.graph.iter().map(|g| g.lambdas.len()).sum::<usize>();
        let name = format!("__lambda_{nr}");
        let mut def = Definition::new(&format!("n_{name}"), DefType::Function);
        for p in params {
            let mut v = Variable::plain(p.to_string(), integer());
            v.argument = true;
            def.variables.variables.push(v);
        }
        let mut captures = Vec::new();
        for (n, tp) in captured {
            def.variables.variables.push(Variable::plain(n.to_string(), tp.copy()));
            captures.push(Capture { name: n.to_string(), tp });
        }
        def.code = code;
        let lambda = self.data.definitions.len() as u32;
        self.data.definitions.push(def);
        record_captures(
            &mut self.data,
            lambda,
            &name,
            self.test,
            &mut captures,
            &self.owners,
            &mut self.graph,
            true,
        );
        lambda
    }

    fn mutated(&self) -> Vec<String> {
        let with = |wanted: bool| {
            self.data
                .definitions
                .iter()
                .find(|d| d.closure_record != u32::MAX && (!wanted || !d.mutated_captures.is_empty()))
                .map(|d| d.mutated_captures.clone())
        };
        with(true).or_else(|| with(false)).unwrap_or_default()
    }

    fn boxed(&self) -> Vec<String> {
        let mut names = self.data.def(self.test).scalars_to_box.clone();
        names.sort();
        names
    }

    fn cells(&self) -> Vec<(String, DefType)> {
        let mut cells: Vec<(String, DefType)> = self
            .data
            .definitions
            .iter()
            .filter(|d| d.name.starts_with("__cell_"))
            .map(|d| (d.name.clone(), d.def_type))
            .collect();
        cells.sort_by(|a, b| a.0.cmp(&b.0));
        cells
    }

    fn flipped(&self) -> Function {
        let mut vars = self.data.def(self.test).variables.copy();
        let refused = flip_scalars_to_box_types(&self.data, self.test, &mut vars);
        assert!(refused.is_empty(), "{refused:?}");
        vars
    }

    fn flipped_type(&self, name: &str) -> Type {
        let vars = self.flipped();
        let v = vars.var(name);
        assert_ne!(v, u16::MAX, "variable `{name}` not found");
        vars.tp(v).copy()
    }
}

/// `n = 5; f = fn(x: integer) -> integer { x + n };`
fn read_only() -> Program {
    let mut p = Program::new(vec![("n", integer())]);
    let code = p.op("OpAddInt", vec![Value::Var(0), Value::Var(1)]);
    p.lambda(vec!["x"], vec![("n", integer())], code);
    p
}

fn increment(p: &Program, v: u16, by: Value) -> Value {
    let sum = p.op("OpAddInt", vec![Value::Var(v), by]);
    Value::Assign(v, Box::new(sum))
}

/// `n = 0; f = fn() { n = n + 1; };`
fn counter() -> Program {
    let mut p = Program::new(vec![("n", integer())]);
    let code = increment(&p, 0, Value::Int(1));
    p.lambda(vec![], vec![("n", integer())], code);
    p
}

/// `s = S { … }; f = fn() { s.x = 7; };`
fn struct_write() -> Program {
    let mut p = Program::new(vec![]);
    let tp = p.struct_type();
    let test = p.test as usize;
    p.data.definitions[test]
        .variables
        .variables
        .push(Variable::plain("s".to_string(), tp.copy()));
    let code = p.op("OpSetInt", vec![Value::Var(0), Value::Int(0), Value::Int(7)]);
    p.lambda(vec![], vec![("s", tp)], code);
    p
}

/// `s = ""; f = fn() { s += "x"; };`
fn text_append() -> Program {
    let mut p = Program::new(vec![("s", text())]);
    let code = p.op("OpAppendText", vec![Value::Var(0), Value::Text("x".to_string())]);
    p.lambda(vec![], vec![("s", text())], code);
    p
}

/// `r = 100; w = 0; f = fn() { w = w + r; };`
fn one_written() -> Program {
    let mut p = Program::new(vec![("r", integer()), ("w", integer())]);
    let code = increment(&p, 0, Value::Var(1));
    p.lambda(vec![], vec![("w", integer()), ("r", integer())], code);
    p
}

/// `a = 0; b = 0; f = fn() { a = a + 1; b = b + 2; };`
fn two_written() -> Program {
    let mut p = Program::new(vec![("a", integer()), ("b", integer())]);
    let code = Value::Insert(vec![
        increment(&p, 0, Value::Int(1)),
        increment(&p, 1, Value::Int(2)),
    ]);
    p.lambda(vec![], vec![("a", integer()), ("b", integer())], code);
    p
}

#[test]
fn read_only_capture_yields_empty_set() {
    let mutated = read_only().mutated();
    assert!(
        mutated.is_empty(),
        "expected no mutations for read-only capture; got {mutated:?}"
    );
}

#[test]
fn whole_binding_reassign_detected() {
    let mutated = counter().mutated();
    assert!(
        mutated.iter().any(|s| s == "n"),
        "expected `n` mutation detected; got {mutated:?}"
    );
}

#[test]
fn struct_field_write_detected() {
    let mutated = struct_write().mutated();
    assert!(
        mutated.iter().any(|s| s == "s"),
        "expected `s` mutation detected; got {mutated:?}"
    );
}

#[test]
fn text_append_detected() {
    let mutated = text_append().mutated();
    assert!(
        mutated.iter().any(|s| s == "s"),
        "expected `s` mutation detected; got {mutated:?}"
    );
}

#[test]
fn multiple_captures_only_mutated_one_flagged() {
    let mutated = one_written().mutated();
    assert!(
        mutated.iter().any(|s| s == "w"),
        "expected `w` mutation detected; got {mutated:?}"
    );
    assert!(
        !mutated.iter().any(|s| s == "r"),
        "did not expect `r` (read-only) in mutated set; got {mutated:?}"
    );
}

#[test]
fn read_only_capture_yields_empty_box_set() {
    let names = read_only().boxed();
    assert!(
        names.is_empty(),
        "expected empty scalars_to_box for read-only capture; got {names:?}"
    );
}

#[test]
fn integer_mutated_capture_pushed() {
    let names = counter().boxed();
    assert_eq!(
        names,
        vec!["n".to_string()],
        "expected `n` queued for boxing; got {names:?}"
    );
}

#[test]
fn text_mutated_capture_pushed() {
    let names = text_append().boxed();
    assert_eq!(
        names,
        vec!["s".to_string()],
        "expected `s` queued for boxing; got {names:?}"
    );
}

#[test]
fn struct_capture_not_pushed() {
    let names = struct_write().boxed();
    assert!(
        names.is_empty(),
        "Reference captures must NOT be queued for boxing; got {names:?}"
    );
}

#[test]
fn multiple_captures_only_mutated_scalars_pushed() {
    let names = one_written().boxed();
    assert_eq!(
        names,
        vec!["w".to_string()],
        "expected `w` queued (not `r`); got {names:?}"
    );
}

#[test]
fn multi_scalar_capture_all_pushed() {
    let names = two_written().boxed();
    assert_eq!(
        names,
        vec!["a".to_string(), "b".to_string()],
        "expected both `a` and `b` queued; got {names:?}"
    );
}

#[test]
fn dedup_when_two_lambdas_mutate_same_capture() {
    let mut p = Program::new(vec![("n", integer())]);
    let first = increment(&p, 0, Value::Int(1));
    p.lambda(vec![], vec![("n", integer())], first);
    let second = increment(&p, 0, Value::Int(2));
    p.lambda(vec![], vec![("n", integer())], second);
    let names = p.boxed();
    assert_eq!(
        names,
        vec!["n".to_string()],
        "expected `n` queued exactly once (deduped); got {names:?}"
    );
}

#[test]
fn integer_capture_creates_cell_integer() {
    let cells = counter().cells();
    assert!(
        cells.iter().any(|(n, t)| n == "__cell_integer" && *t == DefType::Struct),
        "expected `__cell_integer` Struct in Data; got {cells:?}"
    );
}

#[test]
fn text_capture_creates_cell_text() {
    let cells = text_append().cells();
    assert!(
        cells.iter().any(|(n, t)| n == "__cell_text" && *t == DefType::Struct),
        "expected `__cell_text` Struct in Data; got {cells:?}"
    );
}

#[test]
fn read_only_capture_creates_no_cell() {
    let cells = read_only().cells();
    assert!(
        cells.is_empty(),
        "no cell should be synthesised for read-only capture; got {cells:?}"
    );
}

#[test]
fn struct_capture_creates_no_cell() {
    let cells = struct_write().cells();
    assert!(
        cells.is_empty(),
        "no cell should be synthesised for struct capture; got {cells:?}"
    );
}

#[test]
fn dedup_two_integer_captures_share_one_cell() {
    let cells = two_written().cells();
    let count = cells.iter().filter(|(n, _)| n == "__cell_integer").count();
    assert_eq!(
        count, 1,
        "expected exactly one `__cell_integer`; got {count} (cells={cells:?})"
    );
}

#[test]
fn distinct_types_create_distinct_cells() {
    let locals = || vec![("n", integer()), ("s", text()), ("b", Type::Boolean)];
    let mut p = Program::new(locals());
    let code = Value::Insert(vec![
        increment(&p, 0, Value::Int(1)),
        p.op("OpAppendText", vec![Value::Var(1), Value::Text("x".to_string())]),
        Value::Assign(2, Box::new(p.op("OpNot", vec![Value::Var(2)]))),
    ]);
    p.lambda(vec![], locals(), code);
    let names: Vec<String> = p.cells().iter().map(|(n, _)| n.clone()).collect();
    assert!(
        names.contains(&"__cell_integer".to_string()),
        "expected __cell_integer; got {names:?}"
    );
    assert!(
        names.contains(&"__cell_text".to_string()),
        "expected __cell_text; got {names:?}"
    );
    assert!(
        names.contains(&"__cell_boolean".to_string()),
        "expected __cell_boolean; got {names:?}"
    );
}

#[test]
fn cell_value_field_carries_canonical_type() {
    let p = counter();
    let d = p.data.def_nr("__cell_integer");
    assert_ne!(d, u32::MAX, "cell `__cell_integer` not found");
    let attr = p
        .data
        .def(d)
        .attributes
        .iter()
        .find(|a| a.name == "value")
        .expect("`value` attribute missing on `__cell_integer`");
    let sig = format!("{:?}", attr.typedef);
    assert!(
        sig.starts_with("Integer("),
        "cell `value` field should be Integer-typed; got `{sig}`"
    );
}

#[test]
fn dedup_across_two_lambdas() {
    let mut p = Program::new(vec![("a", integer()), ("b", integer())]);
    let first = increment(&p, 0, Value::Int(1));
    p.lambda(vec![], vec![("a", integer())], first);
    let second = increment(&p, 0, Value::Int(1));
    p.lambda(vec![], vec![("b", integer())], second);
    let cells = p.cells();
    let count = cells.iter().filter(|(n, _)| n == "__cell_integer").count();
    assert_eq!(
        count, 1,
        "expected single shared `__cell_integer` across two lambdas; got {count} (cells={cells:?})"
    );
}

#[test]
fn integer_mutated_capture_flipped_to_reference_cell_integer() {
    match counter().flipped_type("n") {
        Type::Reference(_, ref deps) => {
            assert!(
                deps.vars.is_empty(),
                "boxed-scalar Reference should be heap-owned (empty deps); got {deps:?}"
            );
        }
        other => panic!("expected Reference(__cell_integer, []); got {other:?}"),
    }
}

#[test]
fn read_only_capture_keeps_integer_type() {
    let tp = read_only().flipped_type("n");
    assert!(
        matches!(tp, Type::Integer(_)),
        "read-only capture must NOT be flipped; got {tp:?}"
    );
}

#[test]
fn struct_capture_keeps_struct_reference_type() {
    let p = struct_write();
    match p.flipped_type("s") {
        Type::Reference(d, _) => assert_eq!(p.data.def(d).name, "S"),
        other => panic!("expected Reference(S, _); got {other:?}"),
    }
}

#[test]
fn no_mutation_no_flip() {
    let p = Program::new(vec![("n", integer())]);
    let tp = p.flipped_type("n");
    assert!(
        matches!(tp, Type::Integer(_)),
        "uncaptured local must NOT be flipped; got {tp:?}"
    );
}

#[test]
fn multi_scalar_capture_flips_each() {
    let mut p = Program::new(vec![("n", integer()), ("s", text())]);
    let code = Value::Insert(vec![
        increment(&p, 0, Value::Int(1)),
        p.op("OpAppendText", vec![Value::Var(1), Value::Text("x".to_string())]),
    ]);
    p.lambda(vec![], vec![("n", integer()), ("s", text())], code);
    let cell_int = p.data.def_nr("__cell_integer");
    let cell_text = p.data.def_nr("__cell_text");
    assert_ne!(cell_int, u32::MAX, "__cell_integer missing");
    assert_ne!(cell_text, u32::MAX, "__cell_text missing");
    let vars = p.flipped();
    let n_nr = vars.var("n");
    let s_nr = vars.var("s");
    assert_ne!(n_nr, u16::MAX, "`n` not found in vars");
    assert_ne!(s_nr, u16::MAX, "`s` not found in vars");
    match vars.tp(n_nr) {
        Type::Reference(d, deps) => {
            assert_eq!(*d, cell_int, "`n` should point at __cell_integer");
            assert!(deps.vars.is_empty());
        }
        other => panic!("`n` not flipped: {other:?}"),
    }
    match vars.tp(s_nr) {
        Type::Reference(d, deps) => {
            assert_eq!(*d, cell_text, "`s` should point at __cell_text");
            assert!(deps.vars.is_empty());
        }
        other => panic!("`s` not flipped to __cell_text: {other:?}"),
    }
}

#[test]
fn a_written_constant_parameter_is_refused() {
    let mut p = counter();
    let test = p.test as usize;
    p.data.definitions[test].variables.variables[0].argument = true;
    p.data.definitions[test].variables.variables[0].value_const = true;
    let mut vars = p.data.def(p.test).variables.copy();
    let refused = flip_scalars_to_box_types(&p.data, p.test, &mut vars);
    assert_eq!(refused.len(), 1);
    assert_eq!(refused[0].name, "n");
    assert!(matches!(refused[0].why, Refusal::ConstParameter), "{refused:?}");
    assert!(matches!(vars.tp(0), Type::Integer(_)));
}

#[test]
fn a_written_parameter_is_shadowed_by_a_boxed_local() {
    let mut p = counter();
    let test = p.test as usize;
    p.data.definitions[test].variables.variables[0].argument = true;
    let mut vars = p.data.def(p.test).variables.copy();
    let refused = flip_scalars_to_box_types(&p.data, p.test, &mut vars);
    assert!(refused.is_empty(), "{refused:?}");
    let shadow = vars.var("n");
    assert_ne!(shadow, 0, "the name stands for the local");
    assert!(matches!(vars.tp(0), Type::Integer(_)), "the parameter keeps its type");
    match vars.tp(shadow) {
        Type::Reference(d, _) => assert_eq!(p.data.def(*d).name, "__cell_integer"),
        other => panic!("the local is not boxed: {other:?}"),
    }
}

#[test]
fn the_closure_record_holds_the_captures_in_order() {
    let p = two_written();
    let lambda = p.graph[0].lambdas[0];
    let record = p.data.def(lambda).closure_record;
    let def = p.data.def(record);
    assert_eq!(def.name, "__closure_0");
    let names: Vec<&str> = def.attributes.iter().map(|a| a.name.as_str()).collect();
    assert_eq!(names, ["a", "b"]);
    let cell = p.data.def_nr("__cell_integer");
    for a in &def.attributes {
        assert!(
            matches!(&a.typedef, Type::Reference(d, _) if *d == cell),
            "a written scalar is held by its cell: {:?}",
            a.typedef
        );
    }
}

#[test]
fn a_lambda_without_captures_leaves_nothing_behind() {
    let mut p = Program::new(vec![]);
    let before = p.data.definitions.len();
    let lambda = p.lambda(vec!["x"], vec![], Value::Var(0));
    assert_eq!(p.data.definitions.len(), before + 1);
    assert_eq!(p.data.def(lambda).closure_record, u32::MAX);
    assert!(p.graph.is_empty());
}

#[test]
fn a_write_through_the_closure_parameter_is_found() {
    let mut p = Program::new(vec![]);
    let mut record = Definition::new("__closure_0", DefType::Struct);
    for name in ["p", "q"] {
        record.attributes.push(Attribute {
            name: name.to_string(),
            typedef: integer(),
            hidden: false,
            nullable: true,
            work_buffer: false,
        });
    }
    let record_nr = p.data.definitions.len() as u32;
    p.data.definitions.push(record);
    let mut def = Definition::new("n___lambda_0", DefType::Function);
    def.variables
        .variables
        .push(Variable::plain("__closure".to_string(), Type::Reference(record_nr, Deps::none())));
    def.closure_record = record_nr;
    // q[0] = 42, where q is the capture in field 1
    let place = p.op(
        "OpGetVector",
        vec![
            p.op("OpGetDbRef", vec![Value::Var(0), Value::Int(1)]),
            Value::Int(8),
            Value::Int(0),
        ],
    );
    def.code = p.op("OpSetInt", vec![place, Value::Int(0), Value::Int(42)]);
    let lambda = p.data.definitions.len() as u32;
    p.data.definitions.push(def);
    collect_mutated_captures(&mut p.data, lambda);
    assert_eq!(p.data.def(lambda).mutated_captures, ["q"]);
}

#[test]
fn a_scalar_that_two_lambdas_share_and_one_writes_is_reported() {
    let mut p = Program::new(vec![("n", integer())]);
    let write = increment(&p, 0, Value::Int(1));
    p.lambda(vec![], vec![("n", integer())], write);
    let read = p.op("OpAddInt", vec![Value::Var(0), Value::Int(1)]);
    p.lambda(vec![], vec![("n", integer())], read);
    let lambdas = p.graph[0].lambdas.clone();
    assert_eq!(lambdas.len(), 2);
    let names = reject_shared_mutable_scalar_captures(&p.data, p.test, &lambdas, true);
    assert_eq!(names, ["n"]);
    let alone = reject_shared_mutable_scalar_captures(&p.data, p.test, &vec![lambdas[0]], true);
    assert!(alone.is_empty());
    let second = reject_shared_mutable_scalar_captures(&p.data, p.test, &lambdas, false);
    assert!(second.is_empty(), "it was told in the first pass");
}

#[test]
fn a_capture_with_an_indirection_of_its_own_is_held_inline() {
    let mut p = text_append();
    let lambda = p.graph[0].lambdas[0];
    let record = p.data.def(lambda).closure_record;
    let cell = p.data.def_nr("__cell_text");
    let field = |p: &Program| p.data.def(record).attributes[0].typedef.copy();
    assert!(matches!(field(&p), Type::Reference(d, _) if d == cell), "{:?}", field(&p));
    let lambdas = p.graph[0].lambdas.clone();
    let plain = p.data.def(p.test).variables.copy();
    finalize_capture_storage(&mut p.data, p.test, &plain, &lambdas, true);
    assert!(matches!(field(&p), Type::Reference(d, _) if d == cell), "{:?}", field(&p));
    // the local is what the function answers through
    let mut vars = p.data.def(p.test).variables.copy();
    vars.set_type(0, Type::RefVar(Box::new(text())));
    finalize_capture_storage(&mut p.data, p.test, &vars, &lambdas, false);
    assert!(matches!(field(&p), Type::Reference(d, _) if d == cell), "the second pass changes nothing");
    finalize_capture_storage(&mut p.data, p.test, &vars, &lambdas, true);
    assert!(matches!(field(&p), Type::Text(_)), "{:?}", field(&p));
}

#[test]
fn nested_lambdas_hold_the_cell_too() {
    let mut p = counter();
    let outer = p.graph[0].lambdas[0];
    // a lambda in the lambda that reads `n`
    let mut def = Definition::new("n___lambda_9", DefType::Function);
    let mut record = Definition::new("__closure_9", DefType::Struct);
    record.attributes.push(Attribute {
        name: "n".to_string(),
        typedef: integer(),
        hidden: false,
        nullable: true,
        work_buffer: false,
    });
    def.closure_record = p.data.definitions.len() as u32;
    p.data.definitions.push(record);
    let inner = p.data.definitions.len() as u32;
    p.data.definitions.push(def);
    p.graph.push(Lambdas { def: outer, lambdas: vec![inner] });
    let vars = p.flipped();
    let record = p.data.def(inner).closure_record;
    box_nested_capture_attrs(&mut p.data, p.test, &vars, &p.graph, false);
    assert!(matches!(p.data.def(record).attributes[0].typedef, Type::Integer(_)));
    box_nested_capture_attrs(&mut p.data, p.test, &vars, &p.graph, true);
    let cell = p.data.def_nr("__cell_integer");
    assert!(
        matches!(&p.data.def(record).attributes[0].typedef, Type::Reference(d, _) if *d == cell),
        "{:?}",
        p.data.def(record).attributes[0].typedef
    );
}

#[test]
fn forward_captures_are_resolved_in_the_second_pass() {
    let mut p = Program::new(vec![]);
    let mut record = Definition::new("__closure_0", DefType::Struct);
    record.attributes.push(Attribute {
        name: "late".to_string(),
        typedef: Type::Unknown(0),
        hidden: false,
        nullable: true,
        work_buffer: false,
    });
    let record_nr = p.data.definitions.len() as u32;
    p.data.definitions.push(record);
    let scope = vec![Capture { name: "late".to_string(), tp: integer() }];
    assert!(!resolve_forward_captures(&mut p.data, record_nr, &scope, true));
    assert!(matches!(p.data.def(record_nr).attributes[0].typedef, Type::Unknown(_)));
    assert!(resolve_forward_captures(&mut p.data, record_nr, &scope, false));
    assert!(matches!(p.data.def(record_nr).attributes[0].typedef, Type::Integer(_)));
}
