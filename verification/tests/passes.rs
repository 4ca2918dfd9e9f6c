//! The passes that place results, reuse records and hand buffers in.

use loft::data::{Attribute, Data, DefType, Definition, Variable};
use loft::ir::{Block, Value};
use loft::place_result;
use loft::rebind_place;
use loft::schema::{Field, Parts, StoredType, Stores};
use loft::types::{Deps, IntegerSpec, Type};
use loft::vector_store::{vector_db, Holder};
use loft::work_buffer::{address_taken_defs, promote_work_buffers, work_buffer_def_decline, Decline};

const OPERATORS: [&str; 20] = [
    "OpCopyRecord",
    "OpFreeRef",
    "OpFreeRefIfDistinct",
    "OpNewRecord",
    "OpGetField",
    "OpPlaceRecord",
    "OpMoveRecord",
    "OpFreeRecordIn",
    "OpGetInt",
    "OpSetInt",
    "OpDatabase",
    "OpSetInt4",
    "OpRefIsNull",
    "t_6vector_clear",
    "OpPutRef",
    "OpPushInt",
    "OpLengthVector",
    "OpTest",
    "OpReplaceVector",
    "OpHost",
];

fn integer() -> Type {
    Type::Integer(IntegerSpec::signed32())
}

fn operators() -> Data {
    let mut data = Data { definitions: Vec::new() };
    for name in OPERATORS {
        let mut op = Definition::new(name, DefType::Function);
        op.original_name = name[2..].to_string();
        op.rust_body = true;
        op.returned = integer();
        data.definitions.push(op);
    }
    data.definitions.push(Definition::new("R", DefType::Struct));
    data.definitions.push(Definition::new("Host", DefType::Struct));
    data
}

fn call(data: &Data, name: &str, args: Vec<Value>) -> Value {
    let d = data.def_nr(name);
    assert_ne!(d, u32::MAX, "{name} is not defined");
    Value::Call(d, args)
}

fn var(name: &str, tp: Type) -> Variable {
    Variable::plain(name.to_string(), tp)
}

fn argument(name: &str, tp: Type) -> Variable {
    let mut v = var(name, tp);
    v.argument = true;
    v
}

fn generated(name: &str, tp: Type) -> Variable {
    let mut v = var(name, tp);
    v.compiler_generated = true;
    v
}

fn attribute(name: &str, tp: Type, hidden: bool) -> Attribute {
    Attribute { name: name.to_string(), typedef: tp, hidden, nullable: false, work_buffer: false }
}

fn block(name: &str, operators: Vec<Value>, result: Type) -> Value {
    Value::Block(Box::new(Block { name: name.to_string(), operators, result }))
}

fn record(data: &Data, name: &str) -> Type {
    Type::Reference(data.def_nr(name), Deps::none())
}

fn body(data: &Data, name: &str) -> Vec<String> {
    match &data.def(data.def_nr(name)).code {
        Value::Block(b) => b.operators.iter().map(|v| format!("{v:?}")).collect(),
        other => vec![format!("{other:?}")],
    }
}

/// `fn mk(__retbuf) -> R { R { … } }`, built into the buffer.
fn add_maker(data: &mut Data) {
    let r = record(data, "R");
    let mut mk = Definition::new("n_mk", DefType::Function);
    mk.loft_defined = true;
    mk.returned = r.copy();
    mk.return_buffer = Some(0);
    mk.attributes.push(attribute("__retbuf", r.copy(), true));
    mk.variables.variables.push(argument("__retbuf", r));
    let write = call(data, "OpSetInt", vec![Value::Var(0), Value::Int(0), Value::Int(3)]);
    let object = block(
        "Object",
        vec![write, Value::Var(0)],
        Type::Reference(data.def_nr("R"), Deps::frame1(0)),
    );
    mk.code = block("body", vec![object], Type::Void);
    data.definitions.push(mk);
}

/// `v = mk(); X.items += [Lit { f: v }]`: X is 0, v is 1, its buffer 2, the element 3.
fn placed_caller(data: &mut Data, more: Vec<Value>) {
    let mut f = Definition::new("n_caller", DefType::Function);
    f.loft_defined = true;
    f.variables.variables.push(argument("X", record(data, "Host")));
    f.variables.variables.push(var("v", record(data, "R")));
    f.variables.variables.push(generated("__ref_1", record(data, "R")));
    f.variables.variables.push(generated("_elm_1", record(data, "R")));
    let mk = data.def_nr("n_mk");
    let mut ops = vec![
        Value::Assign(2, Box::new(Value::Null)),
        Value::Assign(1, Box::new(Value::Call(mk, vec![Value::Var(2)]))),
    ];
    ops.extend(more);
    f.code = block("body", ops, Type::Void);
    data.definitions.push(f);
}

fn append(data: &Data) -> Vec<Value> {
    let field = call(data, "OpGetField", vec![Value::Var(3), Value::Int(4), Value::Int(7)]);
    vec![
        Value::Assign(
            3,
            Box::new(call(data, "OpNewRecord", vec![Value::Var(0), Value::Int(5), Value::Int(0)])),
        ),
        call(data, "OpCopyRecord", vec![Value::Var(1), field, Value::Int(7)]),
    ]
}

fn exit(data: &Data) -> Vec<Value> {
    vec![
        call(data, "OpFreeRef", vec![Value::Var(1)]),
        call(data, "OpFreeRefIfDistinct", vec![Value::Var(2), Value::Var(1)]),
    ]
}

fn placeable() -> Data {
    let mut data = operators();
    add_maker(&mut data);
    let mut rest = append(&data);
    rest.extend(exit(&data));
    placed_caller(&mut data, rest);
    data
}

#[test]
fn a_result_is_built_where_it_will_live() {
    let mut data = placeable();
    let d = data.def_nr("n_caller");
    assert!(place_result::admits(&data, d, 1, true));
    assert!(!place_result::admits(&data, d, 0, true));
    assert!(!place_result::admits(&data, d, 1, false));
    place_result::rewrite(&mut data, d, true);
    let field = call(&data, "OpGetField", vec![Value::Var(3), Value::Int(4), Value::Int(7)]);
    let want = vec![
        Value::Assign(
            2,
            Box::new(call(&data, "OpPlaceRecord", vec![Value::Var(0), Value::Int(7)])),
        ),
        Value::Assign(1, Box::new(call(&data, "n_mk", vec![Value::Var(2)]))),
        Value::Assign(
            3,
            Box::new(call(&data, "OpNewRecord", vec![Value::Var(0), Value::Int(5), Value::Int(0)])),
        ),
        call(&data, "OpMoveRecord", vec![Value::Var(1), field, Value::Int(7)]),
    ];
    let want: Vec<String> = want.iter().map(|v| format!("{v:?}")).collect();
    assert_eq!(body(&data, "n_caller"), want, "the move releases the record, so no free is left");
    place_result::rewrite(&mut data, d, true);
    assert_eq!(body(&data, "n_caller"), want, "a second rewrite changes nothing");
}

#[test]
fn a_path_that_keeps_the_record_releases_it() {
    let mut data = operators();
    add_maker(&mut data);
    let mut early = exit(&data);
    early.push(Value::Return(Box::new(Value::Null)));
    let test = call(&data, "OpTest", vec![]);
    let mut rest = vec![Value::If(
        Box::new(test),
        Box::new(block("then", early, Type::Void)),
        Box::new(Value::Null),
    )];
    rest.extend(append(&data));
    rest.extend(exit(&data));
    placed_caller(&mut data, rest);
    let d = data.def_nr("n_caller");
    place_result::rewrite(&mut data, d, true);
    let ops = body(&data, "n_caller");
    assert_eq!(ops.len(), 5, "{ops:?}");
    let release = call(&data, "OpFreeRecordIn", vec![Value::Var(1), Value::Int(7)]);
    assert!(ops[2].contains(&format!("{release:?}")), "{}", ops[2]);
    let distinct = format!("Call({}", data.def_nr("OpFreeRefIfDistinct"));
    assert!(!ops[2].contains(&distinct), "the buffer is the record: {}", ops[2]);
}

#[test]
fn doubts_keep_the_copy() {
    // the local is read after it was stored
    let mut data = operators();
    add_maker(&mut data);
    let mut rest = append(&data);
    rest.push(call(&data, "OpGetInt", vec![Value::Var(1), Value::Int(0)]));
    rest.extend(exit(&data));
    placed_caller(&mut data, rest);
    let before = body(&data, "n_caller");
    let d = data.def_nr("n_caller");
    assert!(!place_result::admits(&data, d, 1, true));
    place_result::rewrite(&mut data, d, true);
    assert_eq!(body(&data, "n_caller"), before);
    // the destination is in a loop
    let mut data = operators();
    add_maker(&mut data);
    let loop_body = Block { name: "for".to_string(), operators: append(&data), result: Type::Void };
    let mut rest = vec![Value::Loop(Box::new(loop_body))];
    rest.extend(exit(&data));
    placed_caller(&mut data, rest);
    assert!(!place_result::admits(&data, data.def_nr("n_caller"), 1, true));
}

#[test]
fn the_switch_and_a_missing_operator_leave_the_code_alone() {
    let mut data = placeable();
    let before = body(&data, "n_caller");
    let d = data.def_nr("n_caller");
    place_result::rewrite(&mut data, d, false);
    assert_eq!(body(&data, "n_caller"), before);
    let place = data.def_nr("OpPlaceRecord") as usize;
    data.definitions[place].name = "renamed".to_string();
    place_result::rewrite(&mut data, d, true);
    assert_eq!(body(&data, "n_caller"), before);
    assert!(!place_result::admits(&data, d, 1, true));
}

#[test]
fn a_preview_needs_no_start_of_the_buffer() {
    let mut data = placeable();
    let d = data.def_nr("n_caller");
    if let Value::Block(b) = &mut data.definitions[d as usize].code {
        b.operators.remove(0);
    }
    assert!(place_result::admits(&data, d, 1, true), "the pass adds the start later");
    let before = body(&data, "n_caller");
    place_result::rewrite(&mut data, d, true);
    assert_eq!(body(&data, "n_caller"), before, "the rewrite wants it");
}

fn one_record_schema() -> Stores {
    Stores {
        types: vec![StoredType {
            name: "R".to_string(),
            parts: Parts::Struct,
            size: 8,
            content: 0,
            key: String::new(),
            fields: vec![Field { name: "x".to_string(), position: 0, content: 0 }],
            variants: vec![],
        }],
    }
}

/// `fn step(p: R, __retbuf) -> R { R { x: value } }` and `a = step(a, __ref_1)`.
fn rebound(value: fn(&Data) -> Value) -> Data {
    let mut data = operators();
    let d = data.def_nr("R") as usize;
    data.definitions[d].known_type = 0;
    data.definitions[d].attributes.push(attribute("x", integer(), false));
    let r = record(&data, "R");
    let mut step = Definition::new("n_step", DefType::Function);
    step.loft_defined = true;
    step.returned = r.copy();
    step.return_buffer = Some(1);
    step.attributes.push(attribute("p", r.copy(), false));
    step.attributes.push(attribute("__retbuf", r.copy(), true));
    step.variables.variables.push(argument("p", r.copy()));
    step.variables.variables.push(argument("__retbuf", r.copy()));
    let write = call(&data, "OpSetInt", vec![Value::Var(1), Value::Int(0), value(&data)]);
    let object = block(
        "Object",
        vec![write, Value::Var(1)],
        Type::Reference(data.def_nr("R"), Deps::frame1(1)),
    );
    step.code = block("body", vec![object], Type::Void);
    data.definitions.push(step);
    let mut f = Definition::new("n_caller", DefType::Function);
    f.loft_defined = true;
    f.variables.variables.push(var("a", r.copy()));
    f.variables.variables.push(generated("__ref_1", r));
    let step = data.def_nr("n_step");
    f.code = block(
        "body",
        vec![Value::Assign(
            0,
            Box::new(Value::Call(step, vec![Value::Var(0), Value::Var(1)])),
        )],
        Type::Void,
    );
    data.definitions.push(f);
    data
}

#[test]
fn a_rebound_record_is_its_own_buffer() {
    let mut data = rebound(|_| Value::Int(3));
    let d = data.def_nr("n_caller");
    let step = data.def_nr("n_step");
    rebind_place::rewrite(&mut data, &one_record_schema(), d, &vec![0], true);
    let want = Value::Assign(0, Box::new(Value::Call(step, vec![Value::Var(0), Value::Var(0)])));
    assert_eq!(body(&data, "n_caller"), [format!("{want:?}")]);
}

#[test]
fn a_record_that_is_read_while_it_is_written_keeps_its_buffer() {
    let mut data = rebound(|data| call(data, "OpGetInt", vec![Value::Var(0), Value::Int(0)]));
    let before = body(&data, "n_caller");
    let d = data.def_nr("n_caller");
    rebind_place::rewrite(&mut data, &one_record_schema(), d, &vec![0], true);
    assert_eq!(body(&data, "n_caller"), before);
}

#[test]
fn a_local_without_a_derived_binding_keeps_its_buffer() {
    let mut data = rebound(|_| Value::Int(3));
    let before = body(&data, "n_caller");
    let d = data.def_nr("n_caller");
    rebind_place::rewrite(&mut data, &one_record_schema(), d, &vec![], true);
    assert_eq!(body(&data, "n_caller"), before);
    rebind_place::rewrite(&mut data, &one_record_schema(), d, &vec![0], false);
    assert_eq!(body(&data, "n_caller"), before);
}

/// `fn sum() { v = []; v.push(1); len(v) }` and a function that calls it.
fn buffered(last: fn(&Data) -> Value) -> Data {
    let mut data = operators();
    let mut f = Definition::new("n_sum", DefType::Function);
    f.loft_defined = true;
    f.variables
        .variables
        .push(var("v", Type::Vector(Box::new(integer()), Deps::none())));
    let holder = Holder { def: data.def_nr("R"), known: 5, position: 4, content: 6 };
    let mut ops = vector_db(&data, &mut f.variables, holder, 0, false);
    assert_eq!(ops.len(), 3);
    ops.insert(0, Value::Assign(1, Box::new(Value::Null)));
    ops.push(call(&data, "OpPushInt", vec![Value::Var(0), Value::Int(1)]));
    ops.push(last(&data));
    f.code = block("body", ops, integer());
    data.definitions.push(f);
    let sum = data.def_nr("n_sum");
    let mut caller = Definition::new("n_caller", DefType::Function);
    caller.loft_defined = true;
    caller.code = block("body", vec![Value::Call(sum, vec![])], Type::Void);
    data.definitions.push(caller);
    data
}

#[test]
fn a_vector_that_stays_in_its_frame_is_the_callers_buffer() {
    let mut data = buffered(|data| call(data, "OpLengthVector", vec![Value::Var(0)]));
    let none = vec![Vec::new(); data.definitions.len()];
    let sum = data.def_nr("n_sum");
    let out = promote_work_buffers(&mut data, &none, true);
    assert_eq!(out.promoted, [sum]);
    assert!(out.full.is_empty());
    let attrs = &data.def(sum).attributes;
    assert_eq!(attrs.len(), 1);
    assert!(attrs[0].hidden && attrs[0].work_buffer);
    assert!(data.def(sum).variables.is_argument(0));
    let ops = body(&data, "n_sum");
    let clear = call(&data, "t_6vector_clear", vec![Value::Var(0)]);
    assert!(ops.iter().any(|s| s.contains(&format!("{clear:?}"))), "{ops:?}");
    let caller = body(&data, "n_caller");
    let handed = data.def(data.def_nr("n_caller")).variables.variables.len();
    assert_eq!(handed, 1, "one work reference for the buffer");
    assert_eq!(
        caller,
        [
            format!("{:?}", Value::Assign(0, Box::new(Value::Null))),
            format!("{:?}", Value::Call(sum, vec![Value::Var(0)])),
        ]
    );
    let again = promote_work_buffers(&mut data, &none, true);
    assert!(again.promoted.is_empty(), "a promoted local stays promoted");
    assert_eq!(body(&data, "n_caller"), caller);
    assert_eq!(body(&data, "n_sum"), ops);
    assert_eq!(data.def(sum).attributes.len(), 1);
}

#[test]
fn a_buffer_is_numbered_after_the_parameters() {
    let mut data = buffered(|data| call(data, "OpLengthVector", vec![Value::Var(0)]));
    let sum = data.def_nr("n_sum");
    let caller = data.def_nr("n_caller");
    let f = &mut data.definitions[sum as usize];
    f.attributes.push(attribute("n", integer(), false));
    f.variables.variables.push(argument("n", integer()));
    f.variables.variables.push(var("k", integer()));
    data.definitions[caller as usize].code =
        block("body", vec![Value::Call(sum, vec![Value::Int(4)])], Type::Void);
    let none = vec![Vec::new(); data.definitions.len()];
    let out = promote_work_buffers(&mut data, &none, true);
    assert_eq!(out.promoted, [sum]);
    let names = |data: &Data| -> Vec<String> {
        data.def(sum).variables.variables.iter().map(|v| v.name.clone()).collect()
    };
    assert_eq!(names(&data), ["k", "__vdb_1", "n", "v", "__ref_1"]);
    assert!(data.def(sum).variables.is_argument(3));
    assert!(!data.def(sum).variables.is_argument(0));
    let attrs: Vec<&str> = data.def(sum).attributes.iter().map(|a| a.name.as_str()).collect();
    assert_eq!(attrs, ["n", "v"]);
    let handed = format!("{:?}", Value::Call(sum, vec![Value::Int(4), Value::Var(0)]));
    assert_eq!(body(&data, "n_caller")[1], handed);
    let was = (body(&data, "n_sum"), body(&data, "n_caller"), names(&data));
    assert!(promote_work_buffers(&mut data, &none, true).promoted.is_empty());
    assert_eq!((body(&data, "n_sum"), body(&data, "n_caller"), names(&data)), was);
}

#[test]
fn a_vector_that_leaves_its_frame_keeps_its_store() {
    let mut data = buffered(|_| Value::Return(Box::new(Value::Var(0))));
    let before = body(&data, "n_sum");
    let none = vec![Vec::new(); data.definitions.len()];
    assert!(promote_work_buffers(&mut data, &none, true).promoted.is_empty());
    assert_eq!(body(&data, "n_sum"), before);
    let mut data = buffered(|data| call(data, "OpLengthVector", vec![Value::Var(0)]));
    assert!(promote_work_buffers(&mut data, &none, false).promoted.is_empty());
}

#[test]
fn definitions_that_nobody_hands_a_buffer_take_none() {
    let mut def = Definition::new("n_f", DefType::Function);
    def.code = block("body", vec![], Type::Void);
    assert_eq!(work_buffer_def_decline(&def, false), None);
    assert_eq!(work_buffer_def_decline(&def, true), Some(Decline::AddressTaken));
    def.code = block("body", vec![Value::Yield(Box::new(Value::Null))], Type::Void);
    assert_eq!(work_buffer_def_decline(&def, false), Some(Decline::SuspendsOrForks));
    def.code = Value::Null;
    assert_eq!(work_buffer_def_decline(&def, false), Some(Decline::NoBody));
    def.name = "n___lambda_3".to_string();
    assert_eq!(work_buffer_def_decline(&def, false), Some(Decline::Lambda));
    def.name = "n_main".to_string();
    assert_eq!(work_buffer_def_decline(&def, false), Some(Decline::EntryPoint));
    def.synthetic = true;
    assert_eq!(work_buffer_def_decline(&def, false), Some(Decline::Synthetic));
    def.generic_instance = true;
    assert_eq!(work_buffer_def_decline(&def, false), Some(Decline::GenericInstance));
    def.rust_body = true;
    assert_eq!(work_buffer_def_decline(&def, false), Some(Decline::NativeBody));
    def.def_type = DefType::Struct;
    assert_eq!(work_buffer_def_decline(&def, false), Some(Decline::NotAFunction));
}

#[test]
fn a_function_value_takes_the_address_of_its_definition() {
    let mut data = operators();
    let mut f = Definition::new("n_f", DefType::Function);
    f.code = Value::FnRef(3, u16::MAX, Box::new(Type::Void));
    data.definitions.push(f);
    assert_eq!(address_taken_defs(&data), [3]);
}
